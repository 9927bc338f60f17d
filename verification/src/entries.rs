//! Logical entries of a history log: how physical lines group into entries.
use vstd::prelude::*;

verus! {

/// The character that parts a line's metadata from the command text.
pub const DELIMITER: char = ';';

/// A boundary line holds the delimiter: it opens a logical entry.
pub open spec fn is_boundary(line: Seq<char>) -> bool {
    line.contains(DELIMITER)
}

/// Whether the first delimiter of `line` stands at index `i`.
pub open spec fn is_delimiter_position(line: Seq<char>, i: int) -> bool {
    &&& 0 <= i < line.len()
    &&& line[i] == DELIMITER
    &&& forall|j: int| 0 <= j < i ==> line[j] != DELIMITER
}

/// Index of the first delimiter of a boundary line.
pub open spec fn delimiter_position(line: Seq<char>) -> int {
    choose|i: int| is_delimiter_position(line, i)
}

/// What a boundary line gives to its entry: the text behind its first
/// delimiter.
pub open spec fn after_delimiter(line: Seq<char>) -> Seq<char> {
    line.skip(delimiter_position(line) + 1)
}

/// `entries` with `text` added to the end of the most recent one. Text that
/// no entry precedes belongs to none.
pub open spec fn continued(entries: Seq<Seq<char>>, text: Seq<char>) -> Seq<Seq<char>> {
    if entries.len() == 0 {
        entries
    } else {
        entries.drop_last().push(entries.last() + text)
    }
}

/// All logical entries of a log whose physical lines are `lines`, oldest
/// first. A boundary line opens an entry with the text behind its delimiter;
/// every other line continues the entry that the nearest boundary line
/// before it opened.
pub open spec fn log_entries(lines: Seq<Seq<char>>) -> Seq<Seq<char>>
    decreases lines.len(),
{
    if lines.len() == 0 {
        Seq::empty()
    } else if is_boundary(lines.last()) {
        log_entries(lines.drop_last()).push(after_delimiter(lines.last()))
    } else {
        continued(log_entries(lines.drop_last()), lines.last())
    }
}

/// The `limit` most recent entries of the log, oldest of them first; all of
/// them when the log holds no more than `limit`.
pub open spec fn last_entries(lines: Seq<Seq<char>>, limit: nat) -> Seq<Seq<char>> {
    let all = log_entries(lines);
    if limit >= all.len() {
        all
    } else {
        all.skip(all.len() - limit)
    }
}

/// Number of boundary lines among `lines`.
pub open spec fn boundary_count(lines: Seq<Seq<char>>) -> nat
    decreases lines.len(),
{
    if lines.len() == 0 {
        0
    } else if is_boundary(lines.last()) {
        boundary_count(lines.drop_last()) + 1
    } else {
        boundary_count(lines.drop_last())
    }
}

/// The text of an entry whose fragments were gathered last line first: the
/// fragments in the opposite order, with nothing between them.
pub open spec fn joined_reversed(fragments: Seq<Seq<char>>) -> Seq<char> {
    fragments.reverse().flatten()
}

/// Continuing with one text and then another is continuing with both.
pub proof fn lemma_continued_twice(entries: Seq<Seq<char>>, first: Seq<char>, second: Seq<char>)
    ensures
        continued(continued(entries, first), second) == continued(entries, first + second),
{
    if entries.len() > 0 {
        let once = continued(entries, first);
        assert(once.drop_last() =~= entries.drop_last());
        assert((entries.last() + first) + second =~= entries.last() + (first + second));
    }
}

/// Continuing with no text changes nothing.
pub proof fn lemma_continued_empty(entries: Seq<Seq<char>>)
    ensures
        continued(entries, Seq::empty()) == entries,
{
    if entries.len() > 0 {
        assert(entries.last() + Seq::<char>::empty() =~= entries.last());
        assert(entries.drop_last().push(entries.last()) =~= entries);
    }
}

/// Continuing the entry that was opened last.
pub proof fn lemma_continued_push(entries: Seq<Seq<char>>, opened: Seq<char>, text: Seq<char>)
    ensures
        continued(entries.push(opened), text) == entries.push(opened + text),
{
    assert(entries.push(opened).drop_last() =~= entries);
}

/// A fragment gathered last stands first in the joined text.
pub proof fn lemma_joined_reversed_push(fragments: Seq<Seq<char>>, fragment: Seq<char>)
    ensures
        joined_reversed(fragments.push(fragment)) == fragment + joined_reversed(fragments),
{
    let turned = fragments.push(fragment).reverse();
    assert(turned.first() == fragment);
    assert(turned.drop_first() =~= fragments.reverse());
}

} // verus!
