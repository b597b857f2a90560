//! The executable counting functions.

use crate::doubles::{doubles, lemma_doubles_bounded, lemma_doubles_push, max_doubles};
use vstd::prelude::*;
use vstd::string::StringSliceAdditionalSpecFns;

verus! {

/// Counts the doubles in `bytes` in one pass from left to right, keeping
/// only the previous byte and the running total.
///
/// Every byte value is valid input; the empty sequence and a sequence of a
/// single byte hold no double.
pub fn count_doubles_bytes(bytes: &[u8]) -> (total: u64)
    ensures
        total == doubles(bytes@),
        total <= max_doubles(bytes@.len()),
{
    let n: usize = bytes.len();
    let mut total: u64 = 0;
    if n > 0 {
        let mut previous: u8 = bytes[0];
        let mut i: usize = 1;
        proof {
            lemma_doubles_bounded(bytes@.take(1));
        }
        while i < n
            invariant
                n == bytes@.len(),
                1 <= i <= n,
                previous == bytes@[i - 1],
                total == doubles(bytes@.take(i as int)),
                total < i,
            decreases n - i,
        {
            let current: u8 = bytes[i];
            proof {
                lemma_doubles_push(bytes@.take(i as int), current);
                assert(bytes@.take(i as int).push(current) =~= bytes@.take(i + 1));
            }
            if previous == current {
                total += 1;
            }
            previous = current;
            i += 1;
        }
        assert(bytes@.take(n as int) =~= bytes@);
    } else {
        proof {
            lemma_doubles_bounded(bytes@);
        }
    }
    total
}

/// Counts the doubles in the UTF-8 encoding of `val`.
///
/// The comparison is between bytes, not characters: a character encoded in
/// several bytes contributes a double wherever two of its own bytes repeat,
/// and two equal neighbouring characters of more than one byte contribute
/// none at their seam.
pub fn count_doubles(val: &str) -> (total: u64)
    ensures
        total == doubles(val.spec_bytes()),
        total <= max_doubles(val.spec_bytes().len()),
{
    count_doubles_bytes(val.as_bytes())
}

} // verus!
