//! Physical lines of a log: the byte runs that line breaks delimit.
use vstd::prelude::*;
use vstd::utf8::{decode_utf8, valid_utf8};

verus! {

/// The line break that ends a physical line.
pub const NEWLINE: u8 = 0x0a;

/// Where the last physical line of `log` begins: just after the last line
/// break that is not the final byte of `log`, or at 0 when there is none.
pub open spec fn last_line_start(log: Seq<u8>) -> int
    decreases log.len(),
{
    if log.len() <= 1 {
        0
    } else if log[log.len() - 2] == NEWLINE {
        log.len() - 1
    } else {
        last_line_start(log.drop_last())
    }
}

/// The last physical line of `log`, with its line break if it has one.
pub open spec fn last_line(log: Seq<u8>) -> Seq<u8> {
    log.subrange(last_line_start(log), log.len() as int)
}

/// What is left of `log` once its last physical line is taken away.
pub open spec fn before_last_line(log: Seq<u8>) -> Seq<u8> {
    log.subrange(0, last_line_start(log))
}

/// The physical lines of `log`, first line first.
pub open spec fn physical_lines(log: Seq<u8>) -> Seq<Seq<u8>>
    decreases log.len(),
    via physical_lines_decreases
{
    if log.len() == 0 {
        Seq::empty()
    } else {
        physical_lines(before_last_line(log)).push(last_line(log))
    }
}

#[via_fn]
proof fn physical_lines_decreases(log: Seq<u8>) {
    lemma_last_line_start(log);
}

/// The text of a physical line. A line that is not valid UTF-8 has none.
pub open spec fn line_text(line: Seq<u8>) -> Seq<char> {
    if valid_utf8(line) {
        decode_utf8(line)
    } else {
        Seq::empty()
    }
}

/// The text of each line.
pub open spec fn line_texts(lines: Seq<Seq<u8>>) -> Seq<Seq<char>> {
    lines.map_values(|line: Seq<u8>| line_text(line))
}

/// The last line of a log that is not empty holds at least one byte, begins
/// at the start of the log or after a line break, and holds no line break
/// before its final byte.
pub proof fn lemma_last_line_start(log: Seq<u8>)
    ensures
        0 <= last_line_start(log) <= log.len(),
        log.len() > 0 ==> last_line_start(log) < log.len(),
        last_line_start(log) > 0 ==> log[last_line_start(log) - 1] == NEWLINE,
        forall|i: int| last_line_start(log) <= i < log.len() - 1 ==> log[i] != NEWLINE,
    decreases log.len(),
{
    if log.len() > 1 && log[log.len() - 2] != NEWLINE {
        let shorter = log.drop_last();
        lemma_last_line_start(shorter);
        assert forall|i: int| last_line_start(log) <= i < log.len() - 1 implies log[i]
            != NEWLINE by {
            if i < log.len() - 2 {
                assert(shorter[i] == log[i]);
            }
        }
    }
}

/// A physical line holds at least one byte, and no line break before its
/// final byte.
pub open spec fn is_physical_line(line: Seq<u8>) -> bool {
    &&& line.len() > 0
    &&& forall|j: int| 0 <= j < line.len() - 1 ==> line[j] != NEWLINE
}

/// The physical lines part the log: joined in their order they give the log
/// back, each is a physical line, and each but the last ends in a line
/// break.
pub proof fn lemma_lines_part_the_log(log: Seq<u8>)
    ensures
        physical_lines(log).flatten() == log,
        forall|i: int|
            0 <= i < physical_lines(log).len() ==> is_physical_line(
                #[trigger] physical_lines(log)[i],
            ),
        forall|i: int|
            0 <= i < physical_lines(log).len() - 1 ==> (#[trigger] physical_lines(log)[i]).last()
                == NEWLINE,
        log.len() > 0 ==> physical_lines(log).len() > 0 && physical_lines(log).last().last()
            == log.last(),
    decreases log.len(),
{
    let lines = physical_lines(log);
    if log.len() == 0 {
        assert(lines.flatten() =~= log);
    } else {
        let before = before_last_line(log);
        let line = last_line(log);
        let earlier = physical_lines(before);
        lemma_last_line_start(log);
        lemma_lines_part_the_log(before);
        earlier.lemma_flatten_push(line);
        assert(before + line =~= log);
        assert(is_physical_line(line));
        assert forall|i: int| 0 <= i < lines.len() implies is_physical_line(#[trigger] lines[i]) by {
            if i < earlier.len() {
                assert(lines[i] == earlier[i]);
            }
        }
        assert forall|i: int| 0 <= i < lines.len() - 1 implies (#[trigger] lines[i]).last()
            == NEWLINE by {
            assert(lines[i] == earlier[i]);
            if i == earlier.len() - 1 {
                assert(before.last() == log[last_line_start(log) - 1]);
            }
        }
    }
}

/// Taking the last line off a log takes the last text off its line texts.
pub proof fn lemma_line_texts_last(lines: Seq<Seq<u8>>)
    requires
        lines.len() > 0,
    ensures
        line_texts(lines).len() == lines.len(),
        line_texts(lines).last() == line_text(lines.last()),
        line_texts(lines).drop_last() == line_texts(lines.drop_last()),
{
    assert(line_texts(lines).drop_last() =~= line_texts(lines.drop_last()));
}

} // verus!
