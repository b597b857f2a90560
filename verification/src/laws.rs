//! Laws of the count, stated over the model and proved once for all inputs.

use crate::doubles::{
    double_positions, doubles, lemma_doubles_bounded, lemma_doubles_concat, meet_in_double,
};
use crate::text::{
    lemma_encode_concat, lemma_encode_single, lemma_encoded_chars_meet_alike,
    lemma_encoded_text_edges,
};
use vstd::prelude::*;
use vstd::set_lib::lemma_map_size;
use vstd::string::StringSliceAdditionalSpecFns;
use vstd::utf8::{encode_scalar, encode_utf8};

verus! {

/// The count is a function of the text and of nothing else: two texts made
/// of the same characters hold the same number of doubles, whenever and
/// however often they are counted.
pub proof fn lemma_same_text_same_count(a: &str, b: &str)
    requires
        a@ == b@,
    ensures
        doubles(a.spec_bytes()) == doubles(b.spec_bytes()),
{
}

/// Reading a byte sequence backwards neither makes nor breaks a double: the
/// double at position `i` of `bytes` is the double at the mirrored position
/// of the reversed sequence.
pub proof fn lemma_doubles_reverse(bytes: Seq<u8>)
    ensures
        doubles(bytes.reverse()) == doubles(bytes),
{
    let n: int = bytes.len() as int;
    let backwards = bytes.reverse();
    let mirror = |i: int| n - 2 - i;
    let here = double_positions(bytes);
    let there = double_positions(backwards);
    lemma_doubles_bounded(bytes);
    assert forall|j: int| there.contains(j) <==> here.map(mirror).contains(j) by {
        if there.contains(j) {
            let i: int = n - 2 - j;
            assert(here.contains(i) && j == mirror(i));
        }
    }
    assert(here.map(mirror) =~= there);
    lemma_map_size(here, there, mirror);
}

/// Reading a text backwards, character by character, leaves the number of
/// doubles in its encoding unchanged, although the bytes of a character of
/// several bytes keep their order and the encoding is thus not reversed.
pub proof fn lemma_doubles_reverse_text(chars: Seq<char>)
    ensures
        doubles(encode_utf8(chars.reverse())) == doubles(encode_utf8(chars)),
    decreases chars.len(),
{
    if chars.len() > 0 {
        let c = chars.first();
        let rest = chars.drop_first();
        let head = encode_scalar(c as u32);
        assert(chars.reverse() =~= rest.reverse() + seq![c]);
        lemma_encode_single(c);
        lemma_encode_concat(rest.reverse(), seq![c]);
        lemma_doubles_concat(head, encode_utf8(rest));
        lemma_doubles_concat(encode_utf8(rest.reverse()), head);
        lemma_doubles_reverse_text(rest);
        if rest.len() > 0 {
            lemma_encoded_text_edges(rest.reverse());
            lemma_encoded_chars_meet_alike(c, rest.first());
            assert(meet_in_double(head, encode_utf8(rest)) == meet_in_double(
                encode_utf8(rest.reverse()),
                head,
            ));
        }
    }
}

} // verus!
