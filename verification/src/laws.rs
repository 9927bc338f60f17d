//! What holds of every log and every extraction.
use crate::entries::{
    after_delimiter, boundary_count, is_boundary, is_delimiter_position, last_entries,
    lemma_continued_push, log_entries, DELIMITER,
};
use crate::history::{extraction, scan_reads_text, HistoryError};
use crate::lines::{
    before_last_line, last_line, last_line_start, lemma_last_line_start, lemma_line_texts_last,
    line_text, line_texts, physical_lines, NEWLINE,
};
use vstd::prelude::*;
use vstd::utf8::{
    decode_first_scalar, decode_utf8, decode_utf8_split, is_char_boundary,
    is_char_boundary_iff_not_is_continuation_byte, is_char_boundary_start_end_of_seq,
    is_continuation_byte, length_of_first_scalar, pop_first_scalar, valid_first_scalar,
    valid_utf8, valid_utf8_split,
};

verus! {

/// The smaller of two numbers.
pub open spec fn smaller(a: nat, b: nat) -> nat {
    if a <= b {
        a
    } else {
        b
    }
}

/// Prefix stripping: of a line made of a prefix without delimiter, the
/// delimiter and a text, the entry gets the text alone.
pub proof fn lemma_prefix_is_dropped(prefix: Seq<char>, text: Seq<char>)
    requires
        !prefix.contains(DELIMITER),
    ensures
        is_boundary(prefix + seq![DELIMITER] + text),
        after_delimiter(prefix + seq![DELIMITER] + text) == text,
{
    let line = prefix + seq![DELIMITER] + text;
    let at = prefix.len() as int;
    assert(line[at] == DELIMITER);
    assert forall|j: int| 0 <= j < at implies line[j] != DELIMITER by {
        assert(line[j] == prefix[j]);
    }
    assert(is_delimiter_position(line, at));
    assert(line.skip(at + 1) =~= text);
}

/// A log has one entry for each of its boundary lines.
pub proof fn lemma_one_entry_per_boundary_line(lines: Seq<Seq<char>>)
    ensures
        log_entries(lines).len() == boundary_count(lines),
    decreases lines.len(),
{
    if lines.len() > 0 {
        lemma_one_entry_per_boundary_line(lines.drop_last());
    }
}

/// Lines without a boundary line among them form no entry.
pub proof fn lemma_no_boundary_no_entry(lines: Seq<Seq<char>>)
    requires
        forall|i: int| 0 <= i < lines.len() ==> !is_boundary(#[trigger] lines[i]),
    ensures
        log_entries(lines).len() == 0,
    decreases lines.len(),
{
    if lines.len() > 0 {
        let earlier = lines.drop_last();
        assert forall|i: int| 0 <= i < earlier.len() implies !is_boundary(
            #[trigger] earlier[i],
        ) by {
            assert(earlier[i] == lines[i]);
        }
        lemma_no_boundary_no_entry(earlier);
        assert(lines.last() == lines[lines.len() - 1]);
    }
}

/// Order and assembly: the last entry of a log is the one that its last
/// boundary line opens. It holds the text behind that line's delimiter and
/// then, in their order, the lines that follow it. The entries before it are
/// those of the lines before that boundary line.
pub proof fn lemma_last_boundary_opens_last_entry(
    older: Seq<Seq<char>>,
    boundary: Seq<char>,
    following: Seq<Seq<char>>,
)
    requires
        is_boundary(boundary),
        forall|i: int| 0 <= i < following.len() ==> !is_boundary(#[trigger] following[i]),
    ensures
        log_entries(older.push(boundary) + following) == log_entries(older).push(
            after_delimiter(boundary) + following.flatten(),
        ),
    decreases following.len(),
{
    let lines = older.push(boundary) + following;
    let opened = after_delimiter(boundary);
    if following.len() == 0 {
        assert(lines =~= older.push(boundary));
        assert(lines.drop_last() =~= older);
        assert(following.flatten() =~= Seq::<char>::empty());
        assert(opened + Seq::<char>::empty() =~= opened);
    } else {
        let fewer = following.drop_last();
        let line = following.last();
        assert forall|i: int| 0 <= i < fewer.len() implies !is_boundary(#[trigger] fewer[i]) by {
            assert(fewer[i] == following[i]);
        }
        lemma_last_boundary_opens_last_entry(older, boundary, fewer);
        assert(lines.drop_last() =~= older.push(boundary) + fewer);
        assert(lines.last() == line);
        assert(line == following[following.len() - 1]);
        lemma_continued_push(log_entries(older), opened + fewer.flatten(), line);
        fewer.lemma_flatten_push(line);
        assert(fewer.push(line) =~= following);
        assert((opened + fewer.flatten()) + line =~= opened + (fewer.flatten() + line));
    }
}

/// Count bound, over the lines: a batch holds as many entries as were asked
/// for, or as the log has boundary lines if those are fewer.
pub proof fn lemma_batch_size(lines: Seq<Seq<char>>, limit: nat)
    ensures
        last_entries(lines, limit).len() == smaller(limit, boundary_count(lines)),
{
    lemma_one_entry_per_boundary_line(lines);
}

/// Order, over the lines: a batch is the end of every larger batch, so the
/// most recent entry stands last and an older one before it.
pub proof fn lemma_batch_ends_larger_batch(lines: Seq<Seq<char>>, fewer: nat, more: nat)
    requires
        fewer <= more,
    ensures
        last_entries(lines, fewer).len() <= last_entries(lines, more).len(),
        last_entries(lines, fewer) == last_entries(lines, more).skip(
            last_entries(lines, more).len() - last_entries(lines, fewer).len(),
        ),
{
    let large = last_entries(lines, more);
    let small = last_entries(lines, fewer);
    assert(small =~= large.skip(large.len() - small.len()));
}

/// A scan for fewer entries reads no line that a scan for more entries
/// does not read.
pub proof fn lemma_shorter_scan_reads_text(lines: Seq<Seq<u8>>, fewer: nat, more: nat)
    requires
        fewer <= more,
        scan_reads_text(lines, more),
    ensures
        scan_reads_text(lines, fewer),
    decreases lines.len(),
{
    if fewer > 0 && lines.len() > 0 {
        let earlier = lines.drop_last();
        if is_boundary(line_text(lines.last())) {
            lemma_shorter_scan_reads_text(earlier, (fewer - 1) as nat, (more - 1) as nat);
        } else {
            lemma_shorter_scan_reads_text(earlier, fewer, more);
        }
    }
}

/// The byte that stands for the delimiter in UTF-8.
pub const DELIMITER_BYTE: u8 = 0x3b;

/// The delimiter is a character of one byte: bytes that are valid UTF-8 hold
/// the delimiter in their text if and only if they hold its byte.
pub proof fn lemma_delimiter_is_one_byte(line: Seq<u8>)
    requires
        valid_utf8(line),
    ensures
        is_boundary(decode_utf8(line)) <==> line.contains(DELIMITER_BYTE),
    decreases line.len(),
{
    let text = decode_utf8(line);
    if line.len() > 0 {
        let width = length_of_first_scalar(line);
        let rest = pop_first_scalar(line);
        let first = decode_first_scalar(line);
        let later = decode_utf8(rest);
        lemma_delimiter_is_one_byte(rest);
        assert(text =~= seq![first as char] + later);
        let head = line[0];
        let second = line[1];
        let third = line[2];
        assert(head <= 0x7f ==> (head & 0x7f) as u32 == head as u32) by (bit_vector);
        assert(((((head & 0x1f) as u32) << 6) | ((second & 0x3f) as u32)) <= 0x7ff)
            by (bit_vector);
        assert(((((head & 0x0f) as u32) << 12) | (((second & 0x3f) as u32) << 6) | ((third
            & 0x3f) as u32)) <= 0xffff) by (bit_vector);
        assert(first <= 0x10ffff && !(0xd800 <= first <= 0xdfff));
        assert(first == 0x3b <==> head == DELIMITER_BYTE);
        assert((first as char) == DELIMITER <==> first == 0x3b);
        assert forall|j: int| 0 <= j < width implies (line[j] == DELIMITER_BYTE <==> j == 0
            && head == DELIMITER_BYTE) by {}
        if is_boundary(text) {
            let i = choose|i: int| 0 <= i < text.len() && text[i] == DELIMITER;
            if i == 0 {
                assert(line[0] == DELIMITER_BYTE);
            } else {
                assert(later[i - 1] == DELIMITER);
                let j = choose|j: int| 0 <= j < rest.len() && rest[j] == DELIMITER_BYTE;
                assert(line[j + width] == DELIMITER_BYTE);
            }
        }
        if line.contains(DELIMITER_BYTE) {
            let j = choose|j: int| 0 <= j < line.len() && line[j] == DELIMITER_BYTE;
            if j < width {
                assert(text[0] == DELIMITER);
            } else {
                assert(rest[j - width] == DELIMITER_BYTE);
                let i = choose|i: int| 0 <= i < later.len() && later[i] == DELIMITER;
                assert(text[i + 1] == DELIMITER);
            }
        }
    }
}

/// A line break is a character of its own: in a log that is valid UTF-8 a
/// character begins behind each line break.
pub proof fn lemma_character_begins_after_line_break(log: Seq<u8>, at: int)
    requires
        valid_utf8(log),
        0 < at <= log.len(),
        log[at - 1] == NEWLINE,
    ensures
        is_char_boundary(log, at),
{
    if at == log.len() {
        is_char_boundary_start_end_of_seq(log);
    } else {
        is_char_boundary_iff_not_is_continuation_byte(log, at - 1);
        assert(!is_continuation_byte(log[at - 1]));
        valid_utf8_split(log, at - 1);
        let tail = log.subrange(at - 1, log.len() as int);
        assert(tail[0] == NEWLINE);
        assert(valid_first_scalar(tail) && valid_utf8(pop_first_scalar(tail)));
        assert(length_of_first_scalar(tail) == 1);
        let next = pop_first_scalar(tail);
        assert(next =~= log.subrange(at, log.len() as int));
        assert(valid_first_scalar(next));
        assert(next[0] == log[at]);
        assert(!is_continuation_byte(log[at]));
        is_char_boundary_iff_not_is_continuation_byte(log, at);
    }
}

/// The lines of a log that is valid UTF-8 are valid UTF-8 each, and their
/// texts, joined in their order, are the text of the log.
pub proof fn lemma_lines_of_text(log: Seq<u8>)
    requires
        valid_utf8(log),
    ensures
        forall|i: int|
            0 <= i < physical_lines(log).len() ==> valid_utf8(#[trigger] physical_lines(log)[i]),
        line_texts(physical_lines(log)).flatten() == decode_utf8(log),
    decreases log.len(),
{
    let lines = physical_lines(log);
    if log.len() == 0 {
        assert(line_texts(lines) =~= Seq::<Seq<char>>::empty());
        assert(line_texts(lines).flatten() =~= decode_utf8(log));
    } else {
        let start = last_line_start(log);
        let before = before_last_line(log);
        let line = last_line(log);
        let earlier = physical_lines(before);
        lemma_last_line_start(log);
        if start > 0 {
            lemma_character_begins_after_line_break(log, start);
        }
        valid_utf8_split(log, start);
        decode_utf8_split(log, start);
        lemma_lines_of_text(before);
        assert forall|i: int| 0 <= i < lines.len() implies valid_utf8(#[trigger] lines[i]) by {
            if i < earlier.len() {
                assert(lines[i] == earlier[i]);
            }
        }
        assert(line_texts(lines) =~= line_texts(earlier).push(line_text(line)));
        line_texts(earlier).lemma_flatten_push(line_text(line));
    }
}

/// A scan reads every line of a log whose lines are valid UTF-8.
pub proof fn lemma_text_lines_are_read(lines: Seq<Seq<u8>>, limit: nat)
    requires
        forall|i: int| 0 <= i < lines.len() ==> valid_utf8(#[trigger] lines[i]),
    ensures
        scan_reads_text(lines, limit),
    decreases lines.len(),
{
    if limit > 0 && lines.len() > 0 {
        let earlier = lines.drop_last();
        assert forall|i: int| 0 <= i < earlier.len() implies valid_utf8(#[trigger] earlier[i]) by {
            assert(earlier[i] == lines[i]);
        }
        assert(lines.last() == lines[lines.len() - 1]);
        if is_boundary(line_text(lines.last())) {
            lemma_text_lines_are_read(earlier, (limit - 1) as nat);
        } else {
            lemma_text_lines_are_read(earlier, limit);
        }
    }
}

/// Success: an extraction from a log that is valid UTF-8 gives entries,
/// whatever the number asked for.
pub proof fn lemma_extraction_from_text(log: Seq<u8>, limit: nat)
    requires
        valid_utf8(log),
    ensures
        extraction(log, limit) == Ok::<Seq<Seq<char>>, HistoryError>(
            last_entries(line_texts(physical_lines(log)), limit),
        ),
{
    lemma_lines_of_text(log);
    lemma_text_lines_are_read(physical_lines(log), limit);
}

/// Number of lines that hold the delimiter's byte.
pub open spec fn delimiter_lines(lines: Seq<Seq<u8>>) -> nat
    decreases lines.len(),
{
    if lines.len() == 0 {
        0
    } else if lines.last().contains(DELIMITER_BYTE) {
        delimiter_lines(lines.drop_last()) + 1
    } else {
        delimiter_lines(lines.drop_last())
    }
}

/// As far as a scan reads, the lines that hold the delimiter's byte are the
/// boundary lines: up to the number of entries asked for, there are as many
/// of the ones as of the others.
pub proof fn lemma_delimiter_lines_are_boundary_lines(lines: Seq<Seq<u8>>, limit: nat)
    requires
        scan_reads_text(lines, limit),
    ensures
        smaller(limit, boundary_count(line_texts(lines))) == smaller(
            limit,
            delimiter_lines(lines),
        ),
    decreases lines.len(),
{
    if limit > 0 && lines.len() > 0 {
        let earlier = lines.drop_last();
        lemma_line_texts_last(lines);
        lemma_delimiter_is_one_byte(lines.last());
        if is_boundary(line_text(lines.last())) {
            lemma_delimiter_lines_are_boundary_lines(earlier, (limit - 1) as nat);
        } else {
            lemma_delimiter_lines_are_boundary_lines(earlier, limit);
        }
    }
}

/// Every byte of a physical line is a byte of the log.
pub proof fn lemma_lines_hold_bytes_of_the_log(log: Seq<u8>, byte: u8)
    requires
        !log.contains(byte),
    ensures
        forall|i: int|
            0 <= i < physical_lines(log).len() ==> !(#[trigger] physical_lines(log)[i]).contains(
                byte,
            ),
    decreases log.len(),
{
    let lines = physical_lines(log);
    if log.len() > 0 {
        let start = last_line_start(log);
        let before = before_last_line(log);
        let line = last_line(log);
        let earlier = physical_lines(before);
        lemma_last_line_start(log);
        assert forall|j: int| 0 <= j < before.len() implies before[j] != byte by {
            assert(before[j] == log[j]);
        }
        lemma_lines_hold_bytes_of_the_log(before, byte);
        assert forall|i: int| 0 <= i < lines.len() implies !(#[trigger] lines[i]).contains(
            byte,
        ) by {
            if i < earlier.len() {
                assert(lines[i] == earlier[i]);
            } else {
                assert forall|j: int| 0 <= j < line.len() implies line[j] != byte by {
                    assert(line[j] == log[start + j]);
                }
            }
        }
    }
}

/// Count bound: from a log with at least `k` lines that hold the delimiter,
/// an extraction of `limit` entries that succeeds gives the smaller of
/// `limit` and `k`, provided that the log has no more than `k` such lines or
/// that no more than `k` entries are asked for.
pub proof fn lemma_extraction_count(log: Seq<u8>, limit: nat, k: nat)
    requires
        extraction(log, limit) is Ok,
        delimiter_lines(physical_lines(log)) >= k,
        delimiter_lines(physical_lines(log)) == k || limit <= k,
    ensures
        extraction(log, limit)->Ok_0.len() == smaller(limit, k),
{
    lemma_batch_size(line_texts(physical_lines(log)), limit);
    lemma_delimiter_lines_are_boundary_lines(physical_lines(log), limit);
}

/// No delimiter: from a log that nowhere holds the delimiter, an extraction
/// that succeeds gives no entry, whatever the number asked for.
pub proof fn lemma_extraction_without_delimiter(log: Seq<u8>, limit: nat)
    requires
        !log.contains(DELIMITER_BYTE),
        extraction(log, limit) is Ok,
    ensures
        extraction(log, limit) == Ok::<Seq<Seq<char>>, HistoryError>(Seq::empty()),
{
    let lines = physical_lines(log);
    let texts = line_texts(lines);
    lemma_lines_hold_bytes_of_the_log(log, DELIMITER_BYTE);
    assert forall|i: int| 0 <= i < texts.len() implies !is_boundary(#[trigger] texts[i]) by {
        assert(texts[i] == line_text(lines[i]));
        if valid_utf8(lines[i]) {
            lemma_delimiter_is_one_byte(lines[i]);
        }
    }
    lemma_no_boundary_no_entry(texts);
    assert(last_entries(texts, limit) =~= Seq::<Seq<char>>::empty());
}

/// Order: when an extraction succeeds, so does every extraction of fewer
/// entries from the same log, and what it gives is the end of the larger
/// batch.
pub proof fn lemma_extraction_order(log: Seq<u8>, fewer: nat, more: nat)
    requires
        fewer <= more,
        extraction(log, more) is Ok,
    ensures
        extraction(log, fewer) is Ok,
        extraction(log, fewer)->Ok_0.len() <= extraction(log, more)->Ok_0.len(),
        extraction(log, fewer)->Ok_0 == extraction(log, more)->Ok_0.skip(
            extraction(log, more)->Ok_0.len() - extraction(log, fewer)->Ok_0.len(),
        ),
{
    let lines = physical_lines(log);
    lemma_shorter_scan_reads_text(lines, fewer, more);
    lemma_batch_ends_larger_batch(line_texts(lines), fewer, more);
}

/// Empty log: whatever the number asked for, an empty log gives no entry
/// and no error.
pub proof fn lemma_extraction_from_empty_log(limit: nat)
    ensures
        extraction(Seq::empty(), limit) == Ok::<Seq<Seq<char>>, HistoryError>(Seq::empty()),
{
    let lines = physical_lines(Seq::<u8>::empty());
    assert(lines.len() == 0);
    assert(line_texts(lines) =~= Seq::<Seq<char>>::empty());
    assert(last_entries(line_texts(lines), limit) =~= Seq::<Seq<char>>::empty());
}

/// Nothing asked: an extraction of no entries reads no line and gives none.
pub proof fn lemma_extraction_of_nothing(log: Seq<u8>)
    ensures
        extraction(log, 0) == Ok::<Seq<Seq<char>>, HistoryError>(Seq::empty()),
{
    assert(last_entries(line_texts(physical_lines(log)), 0) =~= Seq::<Seq<char>>::empty());
}

} // verus!
