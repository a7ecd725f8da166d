//! Where the characters of a text lie among the bytes of its UTF-8 form.
//!
//! Contracts speak of a text as a sequence of characters; the code walks and
//! cuts the bytes of a `&str`. `byte_pos` ties the two together, and the
//! functions here are the only ones that look at bytes.

use vstd::prelude::*;
use vstd::string::*;
use vstd::utf8::*;

verus! {

/// The number of bytes that come before the character with index `k` in the
/// UTF-8 form of `s`; for `k == s.len()`, the length of that form.
pub open spec fn byte_pos(s: Seq<char>, k: int) -> int {
    encode_utf8(s.take(k)).len() as int
}

/// The length of the UTF-8 form of a character, read off its first byte.
pub open spec fn width_of(lead: u8) -> int {
    if lead < 0x80 {
        1
    } else if lead < 0xe0 {
        2
    } else if lead < 0xf0 {
        3
    } else {
        4
    }
}

/// The UTF-8 form of a concatenation is the concatenation of the UTF-8 forms.
pub proof fn lemma_encode_concat(a: Seq<char>, b: Seq<char>)
    ensures
        encode_utf8(a + b) == encode_utf8(a) + encode_utf8(b),
    decreases a.len(),
{
    if a.len() > 0 {
        assert((a + b).drop_first() =~= a.drop_first() + b);
        lemma_encode_concat(a.drop_first(), b);
    }
}

/// The bytes of `s` fall into those of the characters before `k` and those of
/// the characters from `k` on.
pub proof fn lemma_split_at(s: Seq<char>, k: int)
    requires
        0 <= k <= s.len(),
    ensures
        0 <= byte_pos(s, k) <= encode_utf8(s).len(),
        encode_utf8(s) == encode_utf8(s.take(k)) + encode_utf8(s.skip(k)),
        encode_utf8(s).subrange(0, byte_pos(s, k)) == encode_utf8(s.take(k)),
        encode_utf8(s).subrange(byte_pos(s, k), encode_utf8(s).len() as int) == encode_utf8(
            s.skip(k),
        ),
{
    assert(s =~= s.take(k) + s.skip(k));
    lemma_encode_concat(s.take(k), s.skip(k));
}

/// The bytes between two character positions are the UTF-8 form of the
/// characters between them.
pub proof fn lemma_between(s: Seq<char>, j: int, k: int)
    requires
        0 <= j <= k <= s.len(),
    ensures
        byte_pos(s, j) <= byte_pos(s, k) <= encode_utf8(s).len(),
        byte_pos(s, k) == byte_pos(s, j) + encode_utf8(s.subrange(j, k)).len(),
        byte_pos(s.skip(j), k - j) == byte_pos(s, k) - byte_pos(s, j),
        encode_utf8(s).subrange(byte_pos(s, j), byte_pos(s, k)) == encode_utf8(s.subrange(j, k)),
{
    lemma_split_at(s, k);
    assert(s.take(k) =~= s.take(j) + s.subrange(j, k));
    lemma_encode_concat(s.take(j), s.subrange(j, k));
    assert(s.skip(j).take(k - j) =~= s.subrange(j, k));
}

/// Two texts with the same UTF-8 form are the same text.
pub proof fn lemma_same_bytes(a: Seq<char>, b: Seq<char>)
    requires
        encode_utf8(a) == encode_utf8(b),
    ensures
        a == b,
{
    encode_utf8_decode_utf8(a);
    encode_utf8_decode_utf8(b);
}

/// The bytes from one character position to the next are the UTF-8 form of
/// the character between them.
pub proof fn lemma_form_at(s: Seq<char>, k: int)
    requires
        0 <= k < s.len(),
    ensures
        0 <= byte_pos(s, k) < byte_pos(s, k + 1) <= encode_utf8(s).len(),
        byte_pos(s, k + 1) == byte_pos(s, k) + encode_scalar(s[k] as u32).len(),
        encode_utf8(s).subrange(byte_pos(s, k), byte_pos(s, k + 1)) == encode_scalar(
            s[k] as u32,
        ),
{
    lemma_between(s, k, k + 1);
    assert(s.subrange(k, k + 1) =~= seq![s[k]]);
    assert(encode_utf8(seq![s[k]]) =~= encode_scalar(s[k] as u32)) by {
        reveal_with_fuel(encode_utf8, 2);
    }
}

/// What the byte at a character's position says of the character, and where
/// the next character starts.
pub proof fn lemma_char_at(s: Seq<char>, k: int)
    requires
        0 <= k < s.len(),
    ensures
        0 <= byte_pos(s, k) < encode_utf8(s).len(),
        byte_pos(s, k + 1) == byte_pos(s, k) + width_of(encode_utf8(s)[byte_pos(s, k)]),
        byte_pos(s, k + 1) <= encode_utf8(s).len(),
        !is_continuation_byte(encode_utf8(s)[byte_pos(s, k)]),
        encode_utf8(s)[byte_pos(s, k)] < 0x80 <==> (s[k] as u32) < 0x80,
        encode_utf8(s)[byte_pos(s, k)] < 0x80 ==> encode_utf8(s)[byte_pos(s, k)] as u32 == s[k] as u32,
{
    let tail = encode_utf8(s.skip(k));
    lemma_form_at(s, k);
    lemma_split_at(s, k);
    encode_utf8_first_scalar(s.skip(k));
    assert(encode_utf8(s)[byte_pos(s, k)] == tail[0]);
    let lead = tail[0];
    assert(lead < 0x80 ==> lead & 0x7f == lead) by (bit_vector);
}

/// The bytes of a character: its code is what its bytes encode, and every
/// byte behind the first is a continuation byte.
pub proof fn lemma_char_bytes(s: Seq<char>, k: int)
    requires
        0 <= k < s.len(),
    ensures
        byte_pos(s, k + 1) <= encode_utf8(s).len(),
        decode_first_codepoint(encode_utf8(s).skip(byte_pos(s, k))) == s[k] as u32,
        forall|p: int|
            byte_pos(s, k) < p < byte_pos(s, k + 1) ==> is_continuation_byte(
                #[trigger] encode_utf8(s)[p],
            ),
{
    let c = s[k] as u32;
    let bytes = encode_utf8(s);
    let from = byte_pos(s, k);
    let to = byte_pos(s, k + 1);
    lemma_form_at(s, k);
    lemma_split_at(s, k);
    encode_utf8_first_scalar(s.skip(k));
    assert(bytes.skip(from) =~= encode_utf8(s.skip(k)));
    assert(is_continuation_byte(0x80 | (c & 0x3f) as u8)) by (bit_vector);
    assert(is_continuation_byte(0x80 | ((c >> 6) & 0x3f) as u8)) by (bit_vector);
    assert(is_continuation_byte(0x80 | ((c >> 12) & 0x3f) as u8)) by (bit_vector);
    assert forall|p: int| from < p < to implies is_continuation_byte(#[trigger] bytes[p]) by {
        assert(bytes[p] == bytes.subrange(from, to)[p - from]);
    }
}

/// Every character position is a character boundary of the UTF-8 form.
pub proof fn lemma_boundary(s: Seq<char>, k: int)
    requires
        0 <= k <= s.len(),
    ensures
        is_char_boundary(encode_utf8(s), byte_pos(s, k)),
{
    let bytes = encode_utf8(s);
    encode_utf8_valid_utf8(s);
    lemma_split_at(s, k);
    if k == s.len() {
        is_char_boundary_start_end_of_seq(bytes);
    } else {
        lemma_char_at(s, k);
        is_char_boundary_iff_not_is_continuation_byte(bytes, byte_pos(s, k));
    }
}

/// The last byte of a character's UTF-8 form tells an ASCII character from
/// any other, as the first byte does.
pub proof fn lemma_char_before(s: Seq<char>, k: int)
    requires
        0 < k <= s.len(),
    ensures
        0 < byte_pos(s, k) <= encode_utf8(s).len(),
        byte_pos(s, k - 1) < byte_pos(s, k),
        encode_utf8(s)[byte_pos(s, k) - 1] < 0x80 <==> (s[k - 1] as u32) < 0x80,
        encode_utf8(s)[byte_pos(s, k) - 1] < 0x80 ==> byte_pos(s, k - 1) == byte_pos(s, k) - 1,
        encode_utf8(s)[byte_pos(s, k) - 1] < 0x80 ==> encode_utf8(s)[byte_pos(s, k) - 1] as u32
            == s[k - 1] as u32,
{
    let bytes = encode_utf8(s);
    let from = byte_pos(s, k - 1);
    let to = byte_pos(s, k);
    lemma_char_at(s, k - 1);
    lemma_char_bytes(s, k - 1);
    if from < to - 1 {
        assert(is_continuation_byte(bytes[to - 1]));
    }
}

/// Later characters lie at later bytes.
pub proof fn lemma_rising(s: Seq<char>, j: int, k: int)
    requires
        0 <= j < k <= s.len(),
    ensures
        byte_pos(s, j) < byte_pos(s, k),
{
    lemma_char_at(s, j);
    lemma_between(s, j + 1, k);
}

/// Only the position behind the last character lies at the end of the bytes.
pub proof fn lemma_before_end(s: Seq<char>, k: int)
    requires
        0 <= k <= s.len(),
    ensures
        byte_pos(s, s.len() as int) == encode_utf8(s).len(),
        byte_pos(s, k) <= byte_pos(s, s.len() as int),
        byte_pos(s, k) < byte_pos(s, s.len() as int) <==> k < s.len(),
{
    assert(s.take(s.len() as int) =~= s);
    if k < s.len() {
        lemma_char_at(s, k);
    }
}

/// The position just behind the last character: the length of `text` in bytes.
pub(crate) fn end_of(text: &str) -> (end: usize)
    ensures
        end == byte_pos(text@, text@.len() as int),
{
    proof {
        lemma_before_end(text@, 0);
    }
    text.as_bytes().len()
}

/// A character whose code is that of `byte` is the character `byte as char`.
pub proof fn lemma_ascii(byte: u8, c: char)
    requires
        byte as u32 == c as u32,
    ensures
        byte as char == c,
{
}

/// Looks at the character at position `k`, which starts at byte `at`: hands
/// back the character if it is ASCII and nothing if it is not, and the byte
/// at which the next character starts.
pub(crate) fn look(text: &str, at: usize, Ghost(k): Ghost<int>) -> (seen: (Option<char>, usize))
    requires
        0 <= k < text@.len(),
        at == byte_pos(text@, k),
    ensures
        seen.0 == (if (text@[k] as u32) < 0x80 {
            Some(text@[k])
        } else {
            None
        }),
        seen.1 == byte_pos(text@, k + 1),
{
    proof {
        lemma_char_at(text@, k);
    }
    let bytes = text.as_bytes();
    let lead = bytes[at];
    if lead < 0x80 {
        proof {
            lemma_ascii(lead, text@[k]);
        }
        (Some(lead as char), at + 1)
    } else if lead < 0xe0 {
        (None, at + 2)
    } else if lead < 0xf0 {
        (None, at + 3)
    } else {
        (None, at + 4)
    }
}

/// Looks at the character before position `k`, which ends at byte `at`: hands
/// back the character if it is ASCII and nothing if it is not.
pub(crate) fn look_back(text: &str, at: usize, Ghost(k): Ghost<int>) -> (seen: Option<char>)
    requires
        0 < k <= text@.len(),
        at == byte_pos(text@, k),
    ensures
        seen == (if (text@[k - 1] as u32) < 0x80 {
            Some(text@[k - 1])
        } else {
            None
        }),
        seen is Some ==> at - 1 == byte_pos(text@, k - 1),
{
    proof {
        lemma_char_before(text@, k);
    }
    let bytes = text.as_bytes();
    let last = bytes[at - 1];
    if last < 0x80 {
        proof {
            lemma_ascii(last, text@[k - 1]);
        }
        Some(last as char)
    } else {
        None
    }
}

/// Reads the character at position `k`, which starts at byte `at`: hands back
/// its code and the byte at which the next character starts.
pub(crate) fn read(text: &str, at: usize, Ghost(k): Ghost<int>) -> (seen: (u32, usize))
    requires
        0 <= k < text@.len(),
        at == byte_pos(text@, k),
    ensures
        seen.0 == text@[k] as u32,
        seen.1 == byte_pos(text@, k + 1),
{
    proof {
        lemma_char_at(text@, k);
        lemma_char_bytes(text@, k);
        encode_utf8_valid_utf8(text@);
        lemma_boundary(text@, k);
    }
    let bytes = text.as_bytes();
    let b0 = bytes[at];
    if b0 < 0x80 {
        (b0 as u32, at + 1)
    } else if b0 < 0xe0 {
        let b1 = bytes[at + 1];
        ((((b0 & 0x1f) as u32) << 6) | ((b1 & 0x3f) as u32), at + 2)
    } else if b0 < 0xf0 {
        let b1 = bytes[at + 1];
        let b2 = bytes[at + 2];
        ((((b0 & 0x0f) as u32) << 12) | (((b1 & 0x3f) as u32) << 6) | ((b2 & 0x3f) as u32), at + 3)
    } else {
        let b1 = bytes[at + 1];
        let b2 = bytes[at + 2];
        let b3 = bytes[at + 3];
        (
            (((b0 & 0x07) as u32) << 18) | (((b1 & 0x3f) as u32) << 12) | (((b2 & 0x3f) as u32)
                << 6) | ((b3 & 0x3f) as u32),
            at + 4,
        )
    }
}

/// Reads the character before position `k`, which ends at byte `at`: hands
/// back its code and the byte at which it starts.
pub(crate) fn read_back(text: &str, at: usize, Ghost(k): Ghost<int>) -> (seen: (u32, usize))
    requires
        0 < k <= text@.len(),
        at == byte_pos(text@, k),
    ensures
        seen.0 == text@[k - 1] as u32,
        seen.1 == byte_pos(text@, k - 1),
{
    proof {
        lemma_char_at(text@, k - 1);
        lemma_char_bytes(text@, k - 1);
    }
    let bytes = text.as_bytes();
    let mut start = at - 1;
    while 0x80 <= bytes[start] && bytes[start] < 0xc0
        invariant
            0 < k <= text@.len(),
            bytes@ == encode_utf8(text@),
            at == byte_pos(text@, k),
            byte_pos(text@, k - 1) <= start < at <= bytes@.len(),
            0 <= byte_pos(text@, k - 1),
            !is_continuation_byte(bytes@[byte_pos(text@, k - 1)]),
        decreases start,
    {
        start -= 1;
    }
    let (code, _) = read(text, start, Ghost(k - 1));
    (code, start)
}

/// The characters of `text` from position `j` up to position `k`, which lie at
/// the bytes from `from` up to `to`.
pub(crate) fn slice<'a>(
    text: &'a str,
    from: usize,
    to: usize,
    Ghost(j): Ghost<int>,
    Ghost(k): Ghost<int>,
) -> (part: &'a str)
    requires
        0 <= j <= k <= text@.len(),
        from == byte_pos(text@, j),
        to == byte_pos(text@, k),
    ensures
        part@ == text@.subrange(j, k),
{
    proof {
        lemma_boundary(text@, j);
        lemma_split_at(text@, j);
        lemma_between(text@, j, k);
    }
    let (_, tail) = text.split_at(from);
    proof {
        lemma_same_bytes(tail@, text@.skip(j));
        lemma_boundary(tail@, k - j);
        lemma_split_at(tail@, k - j);
    }
    let (part, _) = tail.split_at(to - from);
    proof {
        lemma_same_bytes(part@, tail@.take(k - j));
    }
    part
}

} // verus!
