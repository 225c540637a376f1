//! Game records to tokenized training data: notation parsers, filters,
//! a vocabulary, a chess tokenizer and the `.somabin` binary format.

pub mod text;
pub mod game;
pub mod format;
pub mod filter;
pub mod vocab;
pub mod pipeline;

pub use vstd::hash_map::StringHashMap;
