//! The segmenter: from a document to its records.
//!
//! A line that begins with `**` is a marker line. Marker lines part the
//! document into pieces; a piece, trimmed, is a record unless nothing is left
//! of it.

use crate::diff::Diff;
use crate::lines::{lemma_line_end, lemma_line_end_is, line_break, line_end};
use crate::position::{byte_pos, end_of, lemma_before_end, lemma_char_at, look, slice};
use crate::text::{
    is_trimmed, is_white_space, lemma_trimmed, lemma_trimmed_is, lemma_trimmed_twice, trim,
    trimmed,
};
use vstd::prelude::*;

verus! {

/// A marker line starts at `at`, which is the start of a line of `s`.
pub open spec fn marker_at(s: Seq<char>, at: int) -> bool {
    0 <= at && at + 1 < s.len() && s[at] == '*' && s[at + 1] == '*'
}

/// The record that a piece of the document gives: the piece trimmed, or
/// nothing if the piece is blank.
pub open spec fn record_of(piece: Seq<char>) -> Seq<Seq<char>> {
    if trimmed(piece).len() == 0 {
        seq![]
    } else {
        seq![trimmed(piece)]
    }
}

/// The records of `s` from `start` on, where a piece began at `start` and
/// the lines up to `line`, the start of a line, belong to it.
pub open spec fn records_from(s: Seq<char>, start: int, line: int) -> Seq<Seq<char>>
    decreases s.len() - line,
    when 0 <= start <= line <= s.len()
    via records_from_decreases
{
    let end = line_end(s, line);
    if marker_at(s, line) {
        let rest = if end < s.len() {
            records_from(s, end + 1, end + 1)
        } else {
            seq![]
        };
        record_of(s.subrange(start, line)) + rest
    } else if end < s.len() {
        records_from(s, start, end + 1)
    } else {
        record_of(s.subrange(start, s.len() as int))
    }
}

#[via_fn]
proof fn records_from_decreases(s: Seq<char>, start: int, line: int) {
    lemma_line_end(s, line);
}

/// The records of a document: those of its text, trimmed, from the first line
/// on.
pub open spec fn records(text: Seq<char>) -> Seq<Seq<char>> {
    records_from(trimmed(text), 0, 0)
}

/// A line of `s` starts at `at`: at the start of the text or behind a line
/// feed.
pub open spec fn line_start(s: Seq<char>, at: int) -> bool {
    0 <= at <= s.len() && (at == 0 || s[at - 1] == '\n')
}

/// `s` has a marker line.
pub open spec fn has_marker_line(s: Seq<char>) -> bool {
    exists|at: int| line_start(s, at) && marker_at(s, at)
}

/// Every item of `rows` is a body: not empty, and trimmed.
pub open spec fn are_bodies(rows: Seq<Seq<char>>) -> bool {
    forall|i: int| 0 <= i < rows.len() ==> (#[trigger] rows[i]).len() > 0 && is_trimmed(rows[i])
}

/// Every record of a document is a body.
pub proof fn lemma_records_are_bodies(text: Seq<char>)
    ensures
        are_bodies(records(text)),
{
    lemma_bodies_from(trimmed(text), 0, 0);
}

proof fn lemma_bodies_from(s: Seq<char>, start: int, line: int)
    requires
        0 <= start <= line <= s.len(),
    ensures
        are_bodies(records_from(s, start, line)),
    decreases s.len() - line,
{
    let end = line_end(s, line);
    lemma_line_end(s, line);
    if marker_at(s, line) {
        let found = record_of(s.subrange(start, line));
        lemma_trimmed(s.subrange(start, line));
        if end < s.len() {
            let rest = records_from(s, end + 1, end + 1);
            lemma_bodies_from(s, end + 1, end + 1);
            assert forall|i: int| 0 <= i < (found + rest).len() implies (#[trigger] (found
                + rest)[i]).len() > 0 && is_trimmed((found + rest)[i]) by {
                if i >= found.len() {
                    assert((found + rest)[i] == rest[i - found.len()]);
                }
            }
        } else {
            assert(found + Seq::<Seq<char>>::empty() =~= found);
        }
    } else if end < s.len() {
        lemma_bodies_from(s, start, end + 1);
    } else {
        lemma_trimmed(s.subrange(start, s.len() as int));
    }
}

/// `rows` are parts of `s`, cut one behind the other from `from` on: the
/// first is a part of `s` at or behind `from`, and each other one lies at or
/// behind the end of the one before it.
pub open spec fn cut_in_order(rows: Seq<Seq<char>>, s: Seq<char>, from: int) -> bool
    decreases rows.len(),
{
    rows.len() > 0 ==> exists|a: int, b: int|
        from <= a <= b <= s.len() && rows[0] == #[trigger] s.subrange(a, b) && cut_in_order(
            rows.drop_first(),
            s,
            b,
        )
}

/// Parts cut in order from `from` on are cut in order from any earlier place
/// on.
proof fn lemma_cut_from_earlier(rows: Seq<Seq<char>>, s: Seq<char>, from: int, earlier: int)
    requires
        cut_in_order(rows, s, from),
        earlier <= from,
    ensures
        cut_in_order(rows, s, earlier),
{
    if rows.len() > 0 {
        let (a, b) = choose|a: int, b: int|
            from <= a <= b <= s.len() && rows[0] == #[trigger] s.subrange(a, b) && cut_in_order(
                rows.drop_first(),
                s,
                b,
            );
        assert(earlier <= a <= b <= s.len() && rows[0] == s.subrange(a, b) && cut_in_order(
            rows.drop_first(),
            s,
            b,
        ));
    }
}

/// Parts cut in order from a part of `whole` are cut in order from `whole`.
proof fn lemma_cut_from_whole(
    rows: Seq<Seq<char>>,
    s: Seq<char>,
    from: int,
    whole: Seq<char>,
    x: int,
    y: int,
)
    requires
        cut_in_order(rows, s, from),
        0 <= x <= y <= whole.len(),
        s == whole.subrange(x, y),
        0 <= from,
    ensures
        cut_in_order(rows, whole, from + x),
    decreases rows.len(),
{
    if rows.len() > 0 {
        let (a, b) = choose|a: int, b: int|
            from <= a <= b <= s.len() && rows[0] == #[trigger] s.subrange(a, b) && cut_in_order(
                rows.drop_first(),
                s,
                b,
            );
        lemma_cut_from_whole(rows.drop_first(), s, b, whole, x, y);
        assert(s.subrange(a, b) =~= whole.subrange(a + x, b + x));
        assert(from + x <= a + x <= b + x <= whole.len() && rows[0] == whole.subrange(
            a + x,
            b + x,
        ) && cut_in_order(rows.drop_first(), whole, b + x));
    }
}

/// The record of a piece of `s`, before parts that are cut in order behind
/// the piece.
proof fn lemma_cut_one_more(s: Seq<char>, start: int, stop: int, rest: Seq<Seq<char>>, next: int)
    requires
        0 <= start <= stop <= next <= s.len(),
        cut_in_order(rest, s, next),
    ensures
        cut_in_order(record_of(s.subrange(start, stop)) + rest, s, start),
{
    let piece = s.subrange(start, stop);
    let rows = record_of(piece) + rest;
    let cut = lemma_trimmed(piece);
    if trimmed(piece).len() == 0 {
        assert(rows =~= rest);
        lemma_cut_from_earlier(rest, s, next, start);
    } else {
        let a = start + cut.0;
        let b = start + cut.1;
        assert(piece.subrange(cut.0, cut.1) =~= s.subrange(a, b));
        assert(rows.drop_first() =~= rest);
        lemma_cut_from_earlier(rest, s, next, b);
        assert(start <= a <= b <= s.len() && rows[0] == s.subrange(a, b) && cut_in_order(
            rows.drop_first(),
            s,
            b,
        ));
    }
}

proof fn lemma_cut_from(s: Seq<char>, start: int, line: int)
    requires
        0 <= start <= line <= s.len(),
    ensures
        cut_in_order(records_from(s, start, line), s, start),
    decreases s.len() - line,
{
    let end = line_end(s, line);
    let none = Seq::<Seq<char>>::empty();
    lemma_line_end(s, line);
    if marker_at(s, line) {
        if end < s.len() {
            lemma_cut_from(s, end + 1, end + 1);
            lemma_cut_one_more(s, start, line, records_from(s, end + 1, end + 1), end + 1);
        } else {
            lemma_cut_one_more(s, start, line, none, s.len() as int);
        }
    } else if end < s.len() {
        lemma_cut_from(s, start, end + 1);
    } else {
        lemma_cut_one_more(s, start, s.len() as int, none, s.len() as int);
        assert(record_of(s.subrange(start, s.len() as int)) + none =~= record_of(
            s.subrange(start, s.len() as int),
        ));
    }
}

/// The records of a document are parts of the document, and they stand in
/// the order in which the document holds them, none reaching into the next.
pub proof fn lemma_records_in_order(text: Seq<char>)
    ensures
        cut_in_order(records(text), text, 0),
{
    let cut = lemma_trimmed(text);
    lemma_cut_from(trimmed(text), 0, 0);
    lemma_cut_from_whole(records(text), trimmed(text), 0, text, cut.0, cut.1);
    lemma_cut_from_earlier(records(text), text, cut.0, 0);
}

/// Where no marker line starts at or behind `line`, all that is left is one
/// piece.
proof fn lemma_unmarked_from(s: Seq<char>, start: int, line: int)
    requires
        0 <= start <= line <= s.len(),
        line_start(s, line),
        forall|at: int| line <= at && line_start(s, at) ==> !marker_at(s, at),
    ensures
        records_from(s, start, line) == record_of(s.subrange(start, s.len() as int)),
    decreases s.len() - line,
{
    let end = line_end(s, line);
    lemma_line_end(s, line);
    if end < s.len() {
        lemma_unmarked_from(s, start, end + 1);
    }
}

/// A marker line of a text is a marker line of the trimmed text too: a text
/// that has no marker line once it is trimmed had none before.
pub proof fn lemma_marker_stays(text: Seq<char>)
    requires
        has_marker_line(text),
    ensures
        has_marker_line(trimmed(text)),
{
    let at = choose|at: int| line_start(text, at) && marker_at(text, at);
    let cut = lemma_trimmed(text);
    let t = trimmed(text);
    if at < cut.0 {
        assert(is_white_space(text[at]));
    }
    if cut.1 < at + 2 {
        assert(is_white_space(text[at + 1]));
    }
    assert(t[at - cut.0] == text[at]);
    assert(t[at - cut.0 + 1] == text[at + 1]);
    if at > cut.0 {
        assert(t[at - cut.0 - 1] == text[at - 1]);
    }
    assert(line_start(t, at - cut.0) && marker_at(t, at - cut.0));
}

/// A document that, trimmed, has no marker line is one record, the trimmed
/// document; if it is blank, it has no record.
pub proof fn lemma_unmarked_is_one_record(text: Seq<char>)
    requires
        !has_marker_line(trimmed(text)),
    ensures
        records(text) == (if trimmed(text).len() == 0 {
            Seq::<Seq<char>>::empty()
        } else {
            seq![trimmed(text)]
        }),
{
    let t = trimmed(text);
    lemma_unmarked_from(t, 0, 0);
    assert(t.subrange(0, t.len() as int) =~= t);
    lemma_trimmed_twice(text);
}

/// A marker line before a body that has no marker line and is not blank: the
/// one record is the trimmed body, and nothing of the marker line is kept.
pub proof fn lemma_label_is_dropped(label: Seq<char>, body: Seq<char>)
    requires
        label.len() >= 2 && label[0] == '*' && label[1] == '*',
        forall|i: int| 0 <= i < label.len() ==> label[i] != '\n',
        !has_marker_line(body),
        trimmed(body).len() > 0,
    ensures
        records(label + seq!['\n'] + body) == seq![trimmed(body)],
{
    let s = label + seq!['\n'] + body;
    let n = label.len() as int;
    let cut = lemma_trimmed(body);
    let stop = n + 1 + cut.1;
    assert forall|i: int| stop <= i < s.len() implies is_white_space(
        #[trigger] s[i],
    ) by {
        assert(s[i] == body[i - n - 1]);
    }
    assert(s[stop - 1] == body[cut.1 - 1]);
    lemma_trimmed_is(s, 0, stop);
    let t = trimmed(s);
    assert(t =~= s.subrange(0, stop));
    assert(marker_at(t, 0));
    assert(t[n] == '\n');
    lemma_line_end_is(t, 0, n);
    assert forall|at: int| n + 1 <= at && line_start(t, at) implies !marker_at(t, at) by {
        if marker_at(t, at) {
            assert(t[at] == body[at - n - 1]);
            assert(t[at + 1] == body[at - n]);
            if at > n + 1 {
                assert(t[at - 1] == body[at - n - 2]);
            }
            assert(line_start(body, at - n - 1) && marker_at(body, at - n - 1));
        }
    }
    lemma_unmarked_from(t, n + 1, n + 1);
    let rest = t.subrange(n + 1, t.len() as int);
    assert(rest =~= body.take(cut.1));
    assert(rest.subrange(cut.0, cut.1) =~= body.subrange(cut.0, cut.1));
    assert(rest[cut.0] == body[cut.0]);
    assert(rest[cut.1 - 1] == body[cut.1 - 1]);
    assert forall|i: int| 0 <= i < cut.0 implies is_white_space(#[trigger] rest[i]) by {
        assert(rest[i] == body[i]);
    }
    lemma_trimmed_is(rest, cut.0, cut.1);
    assert(Seq::<Seq<char>>::empty() + seq![trimmed(body)] =~= seq![trimmed(body)]);
}

/// Whether a marker line starts at position `k`, which lies at byte `at`.
fn starts_marker(text: &str, at: usize, Ghost(k): Ghost<int>) -> (found: bool)
    requires
        0 <= k <= text@.len(),
        at == byte_pos(text@, k),
    ensures
        found == marker_at(text@, k),
{
    let stop = end_of(text);
    proof {
        lemma_before_end(text@, k);
    }
    if at >= stop {
        return false;
    }
    let (first, next) = look(text, at, Ghost(k));
    proof {
        lemma_before_end(text@, k + 1);
    }
    if first != Some('*') || next >= stop {
        return false;
    }
    let (second, _) = look(text, next, Ghost(k + 1));
    second == Some('*')
}

/// Adds the record of `piece` to `rows`, if it has one.
fn keep<'a>(rows: &mut Vec<&'a str>, piece: &'a str)
    ensures
        final(rows).deep_view() == old(rows).deep_view() + record_of(piece@),
{
    let body = trim(piece);
    if !body.is_empty() {
        rows.push(body);
    }
}

impl<'a> Diff<'a> {
    /// The records of the document `file`, in the order of the document.
    pub fn seperate(file: &str) -> (rows: Vec<&str>)
        ensures
            rows.deep_view() == records(file@),
            are_bodies(rows.deep_view()),
    {
        proof {
            lemma_records_are_bodies(file@);
        }
        let text = trim(file);
        let stop = end_of(text);
        let mut rows: Vec<&str> = Vec::new();
        let mut start: usize = 0;
        let mut line: usize = 0;
        let ghost mut start_k: int = 0;
        let ghost mut line_k: int = 0;
        loop
            invariant_except_break
                rows.deep_view() + records_from(text@, start_k, line_k) == records_from(
                    text@,
                    0,
                    0,
                ),
            invariant
                0 <= start_k <= line_k <= text@.len(),
                start == byte_pos(text@, start_k),
                line == byte_pos(text@, line_k),
                stop == byte_pos(text@, text@.len() as int),
            ensures
                rows.deep_view() == records_from(text@, 0, 0),
            decreases text@.len() - line_k,
        {
            let end = line_break(text, line, Ghost(line_k));
            let ghost end_k = line_end(text@, line_k);
            proof {
                lemma_line_end(text@, line_k);
                lemma_before_end(text@, end_k);
                if end_k < text@.len() {
                    lemma_char_at(text@, end_k);
                }
            }
            if starts_marker(text, line, Ghost(line_k)) {
                let piece = slice(text, start, line, Ghost(start_k), Ghost(line_k));
                keep(&mut rows, piece);
                if end < stop {
                    start = end + 1;
                    line = end + 1;
                    proof {
                        start_k = end_k + 1;
                        line_k = end_k + 1;
                    }
                } else {
                    break ;
                }
            } else if end < stop {
                line = end + 1;
                proof {
                    line_k = end_k + 1;
                }
            } else {
                let piece = slice(text, start, stop, Ghost(start_k), Ghost(text@.len() as int));
                keep(&mut rows, piece);
                break ;
            }
        }
        rows
    }
}

} // verus!
