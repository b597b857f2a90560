//! The model: which positions of a byte sequence hold a double, and how many
//! such positions there are.

use vstd::prelude::*;
use vstd::set_lib::{lemma_int_range, lemma_len_subset, set_int_range};

verus! {

/// Position `i` holds a double when it and its right neighbour both lie in
/// `bytes` and carry the same value. The last position has no right
/// neighbour, so nothing wraps around.
pub open spec fn is_double_at(bytes: Seq<u8>, i: int) -> bool {
    0 <= i && i + 1 < bytes.len() && bytes[i] == bytes[i + 1]
}

/// The set of all positions of `bytes` that hold a double.
pub open spec fn double_positions(bytes: Seq<u8>) -> Set<int> {
    Set::new(|i: int| is_double_at(bytes, i))
}

/// The number of doubles in `bytes`.
pub open spec fn doubles(bytes: Seq<u8>) -> nat {
    double_positions(bytes).len()
}

/// The most doubles a sequence of the given length can hold: one per pair
/// of neighbours.
pub open spec fn max_doubles(len: nat) -> nat {
    if len == 0 {
        0
    } else {
        (len - 1) as nat
    }
}

/// The positions holding a double form a finite set, with at most one
/// member per pair of neighbours.
pub proof fn lemma_doubles_bounded(bytes: Seq<u8>)
    ensures
        double_positions(bytes).finite(),
        doubles(bytes) <= max_doubles(bytes.len()),
{
    let hi: int = max_doubles(bytes.len()) as int;
    let pairs = set_int_range(0, hi);
    lemma_int_range(0, hi);
    lemma_len_subset(double_positions(bytes), pairs);
}

/// Appending one byte adds one double exactly when the new byte repeats the
/// byte that was last before.
pub proof fn lemma_doubles_push(bytes: Seq<u8>, b: u8)
    ensures
        doubles(bytes.push(b)) == doubles(bytes) + (if bytes.len() > 0 && bytes.last() == b {
            1nat
        } else {
            0nat
        }),
{
    let before = double_positions(bytes);
    let after = double_positions(bytes.push(b));
    let seam: int = bytes.len() - 1;
    lemma_doubles_bounded(bytes);
    if bytes.len() > 0 && bytes.last() == b {
        assert(after =~= before.insert(seam));
    } else {
        assert(after =~= before);
    }
}

/// Whether laying `right` directly after `left` makes a double at the place
/// where the two meet.
pub open spec fn meet_in_double(left: Seq<u8>, right: Seq<u8>) -> bool {
    left.len() > 0 && right.len() > 0 && left.last() == right.first()
}

/// The doubles of a concatenation are those of its two parts, and one more
/// exactly when the parts meet in a double.
pub proof fn lemma_doubles_concat(left: Seq<u8>, right: Seq<u8>)
    ensures
        doubles(left + right) == doubles(left) + doubles(right) + (if meet_in_double(left, right) {
            1nat
        } else {
            0nat
        }),
    decreases right.len(),
{
    if right.len() == 0 {
        lemma_doubles_bounded(right);
    } else {
        let front = right.drop_last();
        let b = right.last();
        assert(right =~= front.push(b));
        lemma_doubles_concat(left, front);
        lemma_doubles_push(left + front, b);
        lemma_doubles_push(front, b);
    }
}

} // verus!
