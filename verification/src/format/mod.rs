//! Binary output: the indexed `.somabin` file and length-prefixed stream records.

pub mod somabin;
pub mod stream;
