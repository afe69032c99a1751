//! Arbitrary precision numbers: bit vectors, unsigned integers, decimals and reals.
pub mod words;
pub mod ubits;
pub mod uint;
pub mod decimal;
pub mod num;
pub mod parse;
pub mod order;
