//! Syndrome decoding for linear block codes over a prime field `Z_p`.
//!
//! Given a received word, a generator matrix and the field modulus, the
//! decoder row-reduces the generator, derives a parity-check matrix,
//! computes the syndrome of the received word and searches the weight
//! classes of error vectors in increasing order for the unique
//! minimum-weight explanation of the syndrome.

pub mod algebra;
pub mod decode;
pub mod errors;
pub mod laws;
pub mod mat_utils;
pub mod primality;
pub mod rowspace;
pub mod vec_utils;
