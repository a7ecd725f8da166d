//! Text as a sequence of characters: white space and trimming.

use crate::position::{
    byte_pos, end_of, lemma_before_end, lemma_rising, read, read_back, slice,
};
use vstd::prelude::*;

verus! {

/// The codes of the characters that Unicode gives the property `White_Space`.
pub open spec fn is_white_space_code(code: u32) -> bool {
    ||| 0x09 <= code <= 0x0d
    ||| code == 0x20
    ||| code == 0x85
    ||| code == 0xa0
    ||| code == 0x1680
    ||| 0x2000 <= code <= 0x200a
    ||| code == 0x2028
    ||| code == 0x2029
    ||| code == 0x202f
    ||| code == 0x205f
    ||| code == 0x3000
}

/// `c` is white space: a character with the Unicode property `White_Space`.
pub open spec fn is_white_space(c: char) -> bool {
    is_white_space_code(c as u32)
}

/// `s` without its leading white space.
pub open spec fn trimmed_start(s: Seq<char>) -> Seq<char>
    decreases s.len(),
{
    if s.len() > 0 && is_white_space(s[0]) {
        trimmed_start(s.drop_first())
    } else {
        s
    }
}

/// `s` without its trailing white space.
pub open spec fn trimmed_end(s: Seq<char>) -> Seq<char>
    decreases s.len(),
{
    if s.len() > 0 && is_white_space(s.last()) {
        trimmed_end(s.drop_last())
    } else {
        s
    }
}

/// `s` without its leading and trailing white space.
pub open spec fn trimmed(s: Seq<char>) -> Seq<char> {
    trimmed_end(trimmed_start(s))
}

/// `s` neither begins nor ends with white space.
pub open spec fn is_trimmed(s: Seq<char>) -> bool {
    s.len() > 0 ==> !is_white_space(s[0]) && !is_white_space(s.last())
}

/// Every character of `s` from `from` up to `to` is white space.
pub open spec fn blank_between(s: Seq<char>, from: int, to: int) -> bool {
    forall|i: int| from <= i < to ==> is_white_space(#[trigger] s[i])
}

/// Where the leading white space of `s` ends.
pub proof fn lemma_trimmed_start(s: Seq<char>) -> (a: int)
    ensures
        0 <= a <= s.len(),
        trimmed_start(s) == s.skip(a),
        blank_between(s, 0, a),
        a < s.len() ==> !is_white_space(s[a]),
    decreases s.len(),
{
    if s.len() > 0 && is_white_space(s[0]) {
        let rest = s.drop_first();
        let a = lemma_trimmed_start(rest);
        assert forall|i: int| 0 <= i < a + 1 implies is_white_space(#[trigger] s[i]) by {
            if i > 0 {
                assert(s[i] == rest[i - 1]);
            }
        }
        a + 1
    } else {
        0
    }
}

/// Where the trailing white space of `s` starts.
pub proof fn lemma_trimmed_end(s: Seq<char>) -> (b: int)
    ensures
        0 <= b <= s.len(),
        trimmed_end(s) == s.take(b),
        blank_between(s, b, s.len() as int),
        b > 0 ==> !is_white_space(s[b - 1]),
    decreases s.len(),
{
    if s.len() > 0 && is_white_space(s.last()) {
        let rest = s.drop_last();
        let b = lemma_trimmed_end(rest);
        assert forall|i: int| b <= i < s.len() implies is_white_space(#[trigger] s[i]) by {
            if i < s.len() - 1 {
                assert(s[i] == rest[i]);
            }
        }
        b
    } else {
        s.len() as int
    }
}

/// What trimming leaves: the part of `s` from its first to its last
/// character that is not white space, or nothing if `s` is blank.
pub proof fn lemma_trimmed(s: Seq<char>) -> (cut: (int, int))
    ensures
        0 <= cut.0 <= cut.1 <= s.len(),
        trimmed(s) == s.subrange(cut.0, cut.1),
        blank_between(s, 0, cut.0),
        blank_between(s, cut.1, s.len() as int),
        cut.0 < cut.1 ==> !is_white_space(s[cut.0]) && !is_white_space(s[cut.1 - 1]),
        is_trimmed(trimmed(s)),
{
    let a = lemma_trimmed_start(s);
    let rest = s.skip(a);
    let b = lemma_trimmed_end(rest);
    assert forall|i: int| a + b <= i < s.len() implies is_white_space(#[trigger] s[i]) by {
        assert(s[i] == rest[i - a]);
    }
    (a, a + b)
}

/// A part of `s` with only white space before and behind it, which neither
/// begins nor ends with white space, is what trimming leaves of `s`.
pub proof fn lemma_trimmed_is(s: Seq<char>, a: int, b: int)
    requires
        0 <= a <= b <= s.len(),
        blank_between(s, 0, a),
        blank_between(s, b, s.len() as int),
        a < b ==> !is_white_space(s[a]) && !is_white_space(s[b - 1]),
    ensures
        trimmed(s) == s.subrange(a, b),
{
    lemma_trimmed(s);
}

/// Trimming changes nothing in a text that is trimmed.
pub proof fn lemma_trimmed_twice(s: Seq<char>)
    ensures
        trimmed(trimmed(s)) == trimmed(s),
{
    lemma_trimmed(s);
}

/// Whether `code` is the code of a white-space character.
fn is_space(code: u32) -> (space: bool)
    ensures
        space == is_white_space_code(code),
{
    (0x09 <= code && code <= 0x0d) || code == 0x20 || code == 0x85 || code == 0xa0 || code
        == 0x1680 || (0x2000 <= code && code <= 0x200a) || code == 0x2028 || code == 0x2029
        || code == 0x202f || code == 0x205f || code == 0x3000
}

/// The part of `text` that is left without its leading and trailing white
/// space.
pub fn trim(text: &str) -> (body: &str)
    ensures
        body@ == trimmed(text@),
{
    let stop = end_of(text);
    let mut from: usize = 0;
    let ghost mut a: int = 0;
    while from < stop
        invariant
            0 <= a <= text@.len(),
            from == byte_pos(text@, a),
            stop == byte_pos(text@, text@.len() as int),
            from < stop <==> a < text@.len(),
            blank_between(text@, 0, a),
        ensures
            0 <= a <= text@.len(),
            from == byte_pos(text@, a),
            from <= stop,
            blank_between(text@, 0, a),
            a < text@.len() ==> !is_white_space(text@[a]),
        decreases text@.len() - a,
    {
        let (code, next) = read(text, from, Ghost(a));
        if !is_space(code) {
            break ;
        }
        from = next;
        proof {
            a = a + 1;
            lemma_before_end(text@, a);
        }
    }
    let mut to = stop;
    let ghost mut b: int = text@.len() as int;
    while from < to
        invariant
            0 <= a <= b <= text@.len(),
            from == byte_pos(text@, a),
            to == byte_pos(text@, b),
            from < to <==> a < b,
            blank_between(text@, b, text@.len() as int),
        ensures
            0 <= a <= b <= text@.len(),
            from == byte_pos(text@, a),
            to == byte_pos(text@, b),
            blank_between(text@, b, text@.len() as int),
            a < b ==> !is_white_space(text@[b - 1]),
        decreases b,
    {
        let (code, start) = read_back(text, to, Ghost(b));
        if !is_space(code) {
            break ;
        }
        to = start;
        proof {
            b = b - 1;
            if a < b {
                lemma_rising(text@, a, b);
            }
        }
    }
    proof {
        lemma_trimmed_is(text@, a, b);
    }
    slice(text, from, to, Ghost(a), Ghost(b))
}

} // verus!
