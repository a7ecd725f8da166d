//! Lines: where a line of a text ends.

use crate::position::{byte_pos, end_of, lemma_before_end, look};
use vstd::prelude::*;

verus! {

/// The index of the first line feed of `s` at or behind `from`, or the length
/// of `s` if there is none: the end of the line that `from` lies in.
pub open spec fn line_end(s: Seq<char>, from: int) -> int
    decreases s.len() - from,
{
    if from < 0 || from >= s.len() {
        s.len() as int
    } else if s[from] == '\n' {
        from
    } else {
        line_end(s, from + 1)
    }
}

/// `line_end` is the one place at or behind `from` that holds a line feed, or
/// is the end of the text, with no line feed before it.
pub proof fn lemma_line_end(s: Seq<char>, from: int)
    requires
        0 <= from <= s.len(),
    ensures
        from <= line_end(s, from) <= s.len(),
        line_end(s, from) < s.len() ==> s[line_end(s, from)] == '\n',
        forall|i: int| from <= i < line_end(s, from) ==> s[i] != '\n',
    decreases s.len() - from,
{
    if from < s.len() && s[from] != '\n' {
        lemma_line_end(s, from + 1);
    }
}

/// A place that holds a line feed or is the end of the text, with no line feed
/// between `from` and it, is the end of the line.
pub proof fn lemma_line_end_is(s: Seq<char>, from: int, end: int)
    requires
        0 <= from <= end <= s.len(),
        end < s.len() ==> s[end] == '\n',
        forall|i: int| from <= i < end ==> s[i] != '\n',
    ensures
        line_end(s, from) == end,
    decreases end - from,
{
    if from < end {
        lemma_line_end_is(s, from + 1, end);
    }
}

/// A line without the carriage return that may stand at its end.
pub open spec fn without_cr(line: Seq<char>) -> Seq<char> {
    if line.len() > 0 && line.last() == '\r' {
        line.drop_last()
    } else {
        line
    }
}

/// The lines of `s` from `from`, the start of a line, on. A line ends with a
/// line feed, or with a carriage return and a line feed, which are no part of
/// it; the last line may end with the text.
pub open spec fn lines_from(s: Seq<char>, from: int) -> Seq<Seq<char>>
    decreases s.len() - from,
    when 0 <= from <= s.len()
    via lines_from_decreases
{
    let end = line_end(s, from);
    if from == s.len() {
        seq![]
    } else if end < s.len() {
        seq![without_cr(s.subrange(from, end))] + lines_from(s, end + 1)
    } else {
        seq![s.subrange(from, end)]
    }
}

#[via_fn]
proof fn lines_from_decreases(s: Seq<char>, from: int) {
    lemma_line_end(s, from);
}

/// The lines of `s`.
pub open spec fn lines(s: Seq<char>) -> Seq<Seq<char>> {
    lines_from(s, 0)
}

/// The byte at which the line ends that holds position `j`, which lies at
/// byte `from`.
pub(crate) fn line_break(text: &str, from: usize, Ghost(j): Ghost<int>) -> (end: usize)
    requires
        0 <= j <= text@.len(),
        from == byte_pos(text@, j),
    ensures
        end == byte_pos(text@, line_end(text@, j)),
{
    let stop = end_of(text);
    let mut at = from;
    let ghost mut k = j;
    proof {
        lemma_before_end(text@, k);
    }
    while at < stop
        invariant
            0 <= j <= k <= text@.len(),
            at == byte_pos(text@, k),
            stop == byte_pos(text@, text@.len() as int),
            at < stop <==> k < text@.len(),
            forall|i: int| j <= i < k ==> text@[i] != '\n',
        ensures
            0 <= j <= k <= text@.len(),
            at == byte_pos(text@, k),
            k < text@.len() ==> text@[k] == '\n',
            forall|i: int| j <= i < k ==> text@[i] != '\n',
        decreases text@.len() - k,
    {
        let (seen, next) = look(text, at, Ghost(k));
        if seen == Some('\n') {
            break ;
        }
        at = next;
        proof {
            k = k + 1;
            lemma_before_end(text@, k);
        }
    }
    proof {
        lemma_line_end_is(text@, j, k);
    }
    at
}

} // verus!
