//! The decoder's error taxonomy.

use vstd::prelude::*;

verus! {

/// Why a decode call failed.
#[derive(Debug)]
pub enum DecodeError {
    /// The received word is empty.
    InvalidInput,
    /// The generator matrix is empty, or some row's length differs from the
    /// received word's length.
    InvalidGenerator,
    /// Row reduction found a column with no usable pivot: the generator's
    /// rank is smaller than its row count.
    SingularMatrix,
    /// Row reduction found a pivot entry with no multiplicative inverse, so
    /// the modulus cannot be prime.
    NoInverseFound,
    /// More than one minimum-weight error pattern explains the syndrome; the
    /// tied candidates are carried in full.
    AmbiguousDecoding(Vec<Vec<i64>>),
    /// No error pattern of any weight up to the word length matches the
    /// syndrome.
    DecodingFailure,
}

} // verus!
