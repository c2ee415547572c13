//! Reads whitespace-separated tokens from an input held whole in memory, and converts them
//! into typed values: integers, characters, strings, character and byte sequences, and
//! sequences of any of these.
use vstd::prelude::*;

pub mod number;
pub mod readable;
pub mod source;

pub use readable::{read_array, read_counted, Bytes, Chars, ReadError, Readable};
pub use source::{OnceSource, Source};

verus! {

} // verus!
