//! How the UTF-8 encoding of a text behaves where two characters meet.

use vstd::prelude::*;
use vstd::utf8::{char_is_scalar, encode_scalar, encode_utf8};

verus! {

/// The first byte of a character encoded in one byte lies below `0x80`; the
/// first byte of a longer encoding lies at or above `0xC0`.
proof fn lemma_leading_byte_ranges(s: u32)
    by (bit_vector)
    ensures
        (s & 0x7F) as u8 <= 0x7fu8,
        0xC0u8 | ((s >> 6) & 0x1F) as u8 >= 0xC0u8,
        0xE0u8 | ((s >> 12) & 0x0F) as u8 >= 0xC0u8,
        0xF0u8 | ((s >> 18) & 0x7) as u8 >= 0xC0u8,
{
}

/// The last byte of an encoding of more than one byte lies between `0x80`
/// and `0xBF`.
proof fn lemma_last_byte_range(s: u32)
    by (bit_vector)
    ensures
        0x80u8 <= 0x80u8 | (s & 0x3F) as u8 <= 0xBFu8,
{
}

/// An encoded character has at least one byte. Encoded in one byte, it is
/// that byte, below `0x80`. Encoded in more, it starts at or above `0xC0`
/// and ends between `0x80` and `0xBF`.
pub proof fn lemma_encoded_char_edges(c: char)
    ensures
        1 <= encode_scalar(c as u32).len() <= 4,
        encode_scalar(c as u32).len() == 1 ==> encode_scalar(c as u32).first() <= 0x7f,
        encode_scalar(c as u32).len() > 1 ==> encode_scalar(c as u32).first() >= 0xC0 && 0x80
            <= encode_scalar(c as u32).last() <= 0xBF,
{
    let s: u32 = c as u32;
    char_is_scalar(c);
    lemma_leading_byte_ranges(s);
    lemma_last_byte_range(s);
}

/// Two encoded characters meet in equal bytes only when both are one and
/// the same single byte, so the order in which they stand does not matter.
pub proof fn lemma_encoded_chars_meet_alike(c: char, d: char)
    ensures
        (encode_scalar(c as u32).last() == encode_scalar(d as u32).first()) == (encode_scalar(
            d as u32,
        ).last() == encode_scalar(c as u32).first()),
{
    lemma_encoded_char_edges(c);
    lemma_encoded_char_edges(d);
}

/// The encoding of a text laid after another is the first encoding followed
/// by the second.
pub proof fn lemma_encode_concat(a: Seq<char>, b: Seq<char>)
    ensures
        encode_utf8(a + b) == encode_utf8(a) + encode_utf8(b),
    decreases a.len(),
{
    if a.len() > 0 {
        assert((a + b).drop_first() =~= a.drop_first() + b);
        lemma_encode_concat(a.drop_first(), b);
    }
}

/// A text of one character is encoded as that character.
pub proof fn lemma_encode_single(c: char)
    ensures
        encode_utf8(seq![c]) == encode_scalar(c as u32),
{
    assert(encode_utf8(seq![c].drop_first()) =~= Seq::<u8>::empty());
}

/// The encoding of a text that is not empty starts with the first byte of
/// its first character and ends with the last byte of its last character.
pub proof fn lemma_encoded_text_edges(chars: Seq<char>)
    requires
        chars.len() > 0,
    ensures
        encode_utf8(chars).len() > 0,
        encode_utf8(chars).first() == encode_scalar(chars.first() as u32).first(),
        encode_utf8(chars).last() == encode_scalar(chars.last() as u32).last(),
{
    assert(chars =~= chars.drop_last() + seq![chars.last()]);
    lemma_encode_concat(chars.drop_last(), seq![chars.last()]);
    lemma_encode_single(chars.last());
}

} // verus!
