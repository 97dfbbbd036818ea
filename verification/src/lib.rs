//! A tokenizer for newline-delimited metric records in line-protocol form:
//! a measurement name, comma-separated tag pairs, comma-separated integer
//! field pairs and a trailing integer timestamp.
//!
//! Every executable function carries a contract over the bytes of its input,
//! and the contracts are proved by Verus.

pub mod classifier;
pub mod generator;
pub mod integer;
pub mod record;
pub mod tape;
pub mod token;

pub use classifier::{classify, shuffle_lookup, shuffle_lookup_avx2, Strategy};
pub use generator::gen_line;
pub use integer::parse_int;
pub use tape::{build_tape, parse_tape, parse_tape_avx2};
pub use token::{Node, Phase, TapeError};
