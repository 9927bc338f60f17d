//! The last entries of a shell history log, read from its end.
use crate::entries::{
    after_delimiter, continued, is_boundary, is_delimiter_position, joined_reversed, last_entries,
    lemma_continued_empty, lemma_continued_push, lemma_continued_twice,
    lemma_joined_reversed_push, log_entries, DELIMITER,
};
use crate::lines::{
    before_last_line, last_line, lemma_last_line_start, lemma_line_texts_last, line_text,
    line_texts, physical_lines,
};
use crate::reverse_reader::{open_at_end, read_line_backward, unread};
use vstd::prelude::*;
use vstd::std_specs::iter::IteratorSpec;
use vstd::string::StrSliceExecFns;
use vstd::string::StringExecFns;
use vstd::utf8::valid_utf8;

verus! {

/// Why an extraction gave no entries.
#[derive(Debug, Clone, Copy, PartialEq, Eq, Structural)]
pub enum HistoryError {
    /// The log could not be read. The extraction answers so when its scan
    /// meets a line that is not valid UTF-8; a caller that opens the log may
    /// answer so when that fails.
    SourceUnavailable,
}

/// Whether every line that a backward scan for `limit` entries reads is
/// valid UTF-8. The scan reads from the last line towards the first and
/// stops behind the boundary line of the `limit`-th entry.
pub open spec fn scan_reads_text(lines: Seq<Seq<u8>>, limit: nat) -> bool
    decreases lines.len(),
{
    limit == 0 || lines.len() == 0 || {
        &&& valid_utf8(lines.last())
        &&& scan_reads_text(
            lines.drop_last(),
            if is_boundary(line_text(lines.last())) {
                (limit - 1) as nat
            } else {
                limit
            },
        )
    }
}

/// What an extraction gave, with the text of each entry in place of the
/// entry.
pub open spec fn outcome(res: Result<Vec<String>, HistoryError>) -> Result<
    Seq<Seq<char>>,
    HistoryError,
> {
    match res {
        Ok(entries) => Ok(entries.deep_view()),
        Err(e) => Err(e),
    }
}

/// What extracting `limit` entries from `log` gives: the most recent entries
/// of the log, unless the scan for them meets a line that is not valid
/// UTF-8.
pub open spec fn extraction(log: Seq<u8>, limit: nat) -> Result<Seq<Seq<char>>, HistoryError> {
    let lines = physical_lines(log);
    if scan_reads_text(lines, limit) {
        Ok(last_entries(line_texts(lines), limit))
    } else {
        Err(HistoryError::SourceUnavailable)
    }
}

/// The text behind the first delimiter of `line`, or `None` for a line
/// without delimiter.
pub fn strip_prefix(line: &str) -> (rest: Option<String>)
    ensures
        rest is Some <==> is_boundary(line@),
        rest matches Some(text) ==> text@ == after_delimiter(line@),
{
    let len = line.unicode_len();
    let mut chars = line.chars();
    let mut i: usize = 0;
    loop
        invariant
            i <= len,
            len == line@.len(),
            chars.remaining() == line@.skip(i as int),
            forall|j: int| 0 <= j < i ==> line@[j] != DELIMITER,
        decreases len - i,
    {
        match chars.next() {
            None => {
                return None;
            },
            Some(c) => {
                if c == DELIMITER {
                    assert(is_delimiter_position(line@, i as int));
                    return Some(line.substring_char(i + 1, len).to_owned());
                }
                i = i + 1;
            },
        }
    }
}

/// Joins the fragments of one entry, which were gathered last line first,
/// into the entry's text.
pub fn join_reversed(fragments: &Vec<String>) -> (text: String)
    ensures
        text@ == joined_reversed(fragments.deep_view()),
{
    let ghost all = fragments.deep_view();
    let mut text = String::new();
    let mut i: usize = fragments.len();
    proof {
        assert(all.take(i as int) =~= all);
        assert(text@ + joined_reversed(all) =~= joined_reversed(all));
    }
    while i > 0
        invariant
            i <= fragments.len(),
            all == fragments.deep_view(),
            text@ + joined_reversed(all.take(i as int)) == joined_reversed(all),
        decreases i,
    {
        proof {
            let shorter = all.take(i - 1);
            let fragment = fragments[i - 1]@;
            assert(all.take(i as int) =~= shorter.push(fragment));
            lemma_joined_reversed_push(shorter, fragment);
            assert((text@ + fragment) + joined_reversed(shorter) =~= text@ + (fragment
                + joined_reversed(shorter)));
        }
        i = i - 1;
        text.append(fragments[i].as_str());
    }
    proof {
        assert(all.take(0) =~= Seq::<Seq<char>>::empty());
        assert(joined_reversed(Seq::<Seq<char>>::empty()) =~= Seq::<char>::empty());
        assert(text@ + Seq::<char>::empty() =~= text@);
    }
    text
}

/// The entries in the opposite order.
fn reversed(entries: Vec<String>) -> (out: Vec<String>)
    ensures
        out.deep_view() == entries.deep_view().reverse(),
{
    let ghost given = entries.deep_view();
    let mut entries = entries;
    let mut out: Vec<String> = Vec::new();
    while entries.len() > 0
        invariant
            entries.len() + out.len() == given.len(),
            entries.deep_view() == given.take(entries.len() as int),
            out.deep_view() == given.reverse().take(out.len() as int),
        decreases entries.len(),
    {
        let ghost before = entries.deep_view();
        let ghost out_before = out.deep_view();
        let entry = entries.pop().unwrap();
        assert(entry@ == before.last());
        out.push(entry);
        assert(entries.deep_view() =~= given.take(entries.len() as int));
        assert(out.deep_view() =~= given.reverse().take(out.len() as int)) by {
            assert(out.deep_view() =~= out_before.push(entry@));
        }
    }
    assert(given.reverse().take(out.len() as int) =~= given.reverse());
    out
}

/// Reads `source` from its end and returns its `max_entries` most recent
/// logical entries, the oldest of them first. A log with fewer entries gives
/// them all. The scan fails on a line that is not valid UTF-8, if it reaches
/// one.
pub fn extract_last_entries(source: Vec<u8>, max_entries: u32) -> (res: Result<
    Vec<String>,
    HistoryError,
>)
    ensures
        outcome(res) == extraction(source@, max_entries as nat),
{
    let ghost log = source@;
    let ghost lines = physical_lines(log);
    let ghost all = log_entries(line_texts(lines));
    let mut reader = open_at_end(source);
    let mut history: Vec<String> = Vec::new();
    let mut found: u32 = 0;
    let mut exhausted = false;
    proof {
        assert(history.deep_view().reverse() =~= Seq::<Seq<char>>::empty());
        assert(all + Seq::<Seq<char>>::empty() =~= all);
    }
    while found < max_entries && !exhausted
        invariant
            log == source@,
            lines == physical_lines(log),
            all == log_entries(line_texts(lines)),
            found <= max_entries,
            history.len() == found,
            exhausted ==> unread(reader).len() == 0,
            scan_reads_text(lines, max_entries as nat) == scan_reads_text(
                physical_lines(unread(reader)),
                (max_entries - found) as nat,
            ),
            all == log_entries(line_texts(physical_lines(unread(reader))))
                + history.deep_view().reverse(),
        decreases max_entries - found, (if exhausted { 0int } else { 1int }),
    {
        let mut collected: Vec<String> = Vec::new();
        let mut complete = false;
        let ghost done = history.deep_view().reverse();
        proof {
            lemma_continued_empty(log_entries(line_texts(physical_lines(unread(reader)))));
            assert(collected.deep_view() =~= Seq::<Seq<char>>::empty());
        }
        loop
            invariant_except_break
                !complete,
                !exhausted,
                all == continued(
                    log_entries(line_texts(physical_lines(unread(reader)))),
                    joined_reversed(collected.deep_view()),
                ) + done,
            invariant
                log == source@,
                lines == physical_lines(log),
                found < max_entries,
                done == history.deep_view().reverse(),
                scan_reads_text(lines, max_entries as nat) == scan_reads_text(
                    physical_lines(unread(reader)),
                    (max_entries - found - (if complete { 1int } else { 0int })) as nat,
                ),
            ensures
                complete ==> !exhausted && all == log_entries(
                    line_texts(physical_lines(unread(reader))),
                ).push(joined_reversed(collected.deep_view())) + done,
                !complete ==> exhausted && unread(reader).len() == 0 && all == log_entries(
                    line_texts(physical_lines(unread(reader))),
                ) + done,
            decreases unread(reader).len(),
        {
            let ghost unread_log = unread(reader);
            let ghost rest = physical_lines(unread_log);
            let ghost tail = joined_reversed(collected.deep_view());
            let ghost gathered = collected.deep_view();
            let mut buf = String::new();
            let read = read_line_backward(&mut reader, &mut buf);
            proof {
                lemma_last_line_start(unread_log);
                if unread_log.len() > 0 {
                    assert(rest == physical_lines(before_last_line(unread_log)).push(
                        last_line(unread_log),
                    ));
                    assert(rest.drop_last() =~= physical_lines(unread(reader)));
                    lemma_line_texts_last(rest);
                }
            }
            match read {
                Err(_) => {
                    assert(unread_log.len() > 0) by {
                        if unread_log.len() == 0 {
                            assert(last_line(unread_log) =~= Seq::<u8>::empty());
                        }
                    }
                    return Err(HistoryError::SourceUnavailable);
                },
                Ok(n) => {
                    if n == 0 {
                        exhausted = true;
                        proof {
                            assert(unread(reader) =~= Seq::<u8>::empty());
                        }
                        break ;
                    }
                    let ghost older = log_entries(line_texts(physical_lines(unread(reader))));
                    match strip_prefix(buf.as_str()) {
                        Some(text) => {
                            collected.push(text);
                            complete = true;
                            proof {
                                assert(collected.deep_view() =~= gathered.push(text@));
                                lemma_joined_reversed_push(gathered, text@);
                                lemma_continued_push(older, after_delimiter(buf@), tail);
                            }
                            break ;
                        },
                        None => {
                            collected.push(buf);
                            proof {
                                assert(collected.deep_view() =~= gathered.push(buf@));
                                lemma_joined_reversed_push(gathered, buf@);
                                lemma_continued_twice(older, buf@, tail);
                            }
                        },
                    }
                },
            }
        }
        if complete {
            let entry = join_reversed(&collected);
            let ghost before = history.deep_view();
            history.push(entry);
            found = found + 1;
            proof {
                let older = log_entries(line_texts(physical_lines(unread(reader))));
                assert(history.deep_view() =~= before.push(entry@));
                assert(history.deep_view().reverse() =~= seq![entry@] + done);
                assert(older.push(entry@) + done =~= older + (seq![entry@] + done));
            }
        }
    }
    let entries = reversed(history);
    proof {
        let left = log_entries(line_texts(physical_lines(unread(reader))));
        if found < max_entries {
            assert(physical_lines(unread(reader)).len() == 0);
            assert(left.len() == 0);
            assert(all =~= entries.deep_view());
        } else {
            assert(all.skip(left.len() as int) =~= entries.deep_view());
            if left.len() == 0 {
                assert(all =~= entries.deep_view());
            }
        }
    }
    Ok(entries)
}

} // verus!
