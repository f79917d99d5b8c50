//! Facts about UTF-8 encoded source text that the lexer relies on: where
//! characters begin, and how encodings of character sequences compose.

use vstd::prelude::*;
use vstd::utf8::*;

verus! {

broadcast use vstd::utf8::group_utf8_lib;

/// `i` is the offset of the first byte of a character in `b`, or the end of `b`.
pub open spec fn at_boundary(b: Seq<u8>, i: int) -> bool {
    i == b.len() || (0 <= i < b.len() && !is_continuation_byte(b[i]))
}

/// An offset at a character start is a character boundary in vstd's sense.
pub proof fn lemma_at_boundary_is_char_boundary(b: Seq<u8>, i: int)
    requires
        valid_utf8(b),
        at_boundary(b, i),
    ensures
        is_char_boundary(b, i),
{
    if i == b.len() {
        is_char_boundary_start_end_of_seq(b);
    } else {
        is_char_boundary_iff_not_is_continuation_byte(b, i);
    }
}

/// In valid UTF-8, the byte after an ASCII byte starts a character (or is the end).
pub proof fn lemma_after_ascii(b: Seq<u8>, i: int)
    requires
        valid_utf8(b),
        0 <= i < b.len(),
        b[i] < 0x80,
    ensures
        at_boundary(b, i + 1),
    decreases b.len(),
{
    if i + 1 < b.len() {
        let k: int = length_of_first_scalar(b);
        let rest = pop_first_scalar(b);
        assert(valid_first_scalar(b) && valid_utf8(rest));
        assert(0 < k <= b.len());
        assert(rest.len() == b.len() - k);
        if i < k {
            // b[i] is ASCII, so it is not a continuation byte and not a multi-byte lead
            assert(i == 0 && k == 1);
            assert(rest[0] == b[1]);
            assert(rest.len() > 0);
            assert(valid_first_scalar(rest));
            assert(!is_continuation_byte(b[i + 1]));
        } else {
            assert(rest.len() == b.len() - k);
            assert(rest[i - k] == b[i]);
            assert(rest[i + 1 - k] == b[i + 1]);
            lemma_after_ascii(rest, i - k);
        }
    }
}

/// An ASCII byte starts a character.
pub proof fn lemma_ascii_at_boundary(b: Seq<u8>, i: int)
    requires
        0 <= i < b.len(),
        b[i] < 0x80,
    ensures
        at_boundary(b, i),
{
}

/// Encoding distributes over concatenation.
pub proof fn lemma_encode_utf8_concat(a: Seq<char>, c: Seq<char>)
    ensures
        encode_utf8(a + c) == encode_utf8(a) + encode_utf8(c),
    decreases a.len(),
{
    if a.len() == 0 {
        assert(a + c =~= c);
        assert(encode_utf8(a) =~= Seq::<u8>::empty());
        assert(encode_utf8(a) + encode_utf8(c) =~= encode_utf8(c));
    } else {
        assert((a + c).drop_first() =~= a.drop_first() + c);
        assert((a + c)[0] == a[0]);
        lemma_encode_utf8_concat(a.drop_first(), c);
        assert(encode_utf8(a + c) =~= encode_scalar(a[0] as u32) + encode_utf8(a.drop_first() + c));
        assert(encode_utf8(a) + encode_utf8(c) =~= encode_scalar(a[0] as u32) + (encode_utf8(
            a.drop_first(),
        ) + encode_utf8(c)));
    }
}

/// The encoding of a single ASCII character is that character's byte.
pub proof fn lemma_encode_ascii_char(c: char)
    requires
        (c as u32) < 0x80,
    ensures
        encode_utf8(seq![c]) == seq![c as u8],
{
    let s = seq![c];
    assert(is_ascii_chars(s));
    is_ascii_chars_encode_utf8(s);
    assert(encode_utf8(s)[0] == s[0] as u8);
    assert(encode_utf8(s) =~= seq![c as u8]);
}

/// The first character of a valid, non-empty encoding, and the number of bytes it takes.
pub proof fn lemma_first_char(b: Seq<u8>)
    requires
        valid_utf8(b),
        b.len() > 0,
    ensures
        decode_utf8(b).len() > 0,
        decode_utf8(b)[0] == decode_first_scalar(b) as char,
        encode_scalar((decode_first_scalar(b) as char) as u32).len() == length_of_first_scalar(b),
        0 < length_of_first_scalar(b) <= b.len(),
{
    decode_utf8_first_scalar(b);
    assert(take_first_scalar(b).len() == length_of_first_scalar(b));
}

/// The start of valid UTF-8 is the start of a character (or its end, when empty).
pub proof fn lemma_start_at_boundary(b: Seq<u8>)
    requires
        valid_utf8(b),
    ensures
        at_boundary(b, 0),
{
    if b.len() > 0 {
        is_char_boundary_start_end_of_seq(b);
        is_char_boundary_iff_not_is_continuation_byte(b, 0);
    }
}

/// Offsets that start characters in `b` start characters in `b[i..]`, shifted by `i`.
pub proof fn lemma_at_boundary_suffix(b: Seq<u8>, i: int, j: int)
    requires
        0 <= i <= j <= b.len(),
        at_boundary(b, j),
    ensures
        at_boundary(b.subrange(i, b.len() as int), j - i),
{
}

/// The characters of a slice of valid UTF-8 taken between character starts.
pub proof fn lemma_slice_valid(b: Seq<u8>, i: int)
    requires
        valid_utf8(b),
        0 <= i <= b.len(),
        at_boundary(b, i),
    ensures
        valid_utf8(b.subrange(i, b.len() as int)),
{
    lemma_at_boundary_is_char_boundary(b, i);
    valid_utf8_split(b, i);
}

/// The byte after a whole character starts the next character (or is the end).
pub proof fn lemma_after_first_char(b: Seq<u8>, i: int)
    requires
        valid_utf8(b),
        0 <= i < b.len(),
        at_boundary(b, i),
    ensures
        at_boundary(b, i + length_of_first_scalar(b.subrange(i, b.len() as int))),
{
    let rest = b.subrange(i, b.len() as int);
    lemma_slice_valid(b, i);
    let n: int = length_of_first_scalar(rest);
    let tail = pop_first_scalar(rest);
    assert(valid_first_scalar(rest) && valid_utf8(tail));
    if i + n < b.len() {
        assert(tail.len() > 0);
        assert(valid_first_scalar(tail));
        assert(tail[0] == b[i + n]);
    }
}

} // verus!
