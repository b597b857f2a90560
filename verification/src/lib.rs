//! Counting doubles: pairs of adjacent, equal bytes in a byte sequence.
//!
//! The mathematical model lives in [`doubles`], the executable counting
//! functions in [`count`], the laws of the count in [`laws`], and what the
//! laws need to know of encoded text in [`text`].

pub mod count;
pub mod doubles;
pub mod laws;
pub mod text;

pub use count::{count_doubles, count_doubles_bytes};
