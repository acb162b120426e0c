//! The error type shared by all readers and writers.

use vstd::prelude::*;

verus! {

/// What went wrong. Every variant but [`Error::Eof`] carries a message.
#[derive(Debug, Clone, Copy)]
pub enum Error {
    /// The input ended before all the bytes that were asked for had been read.
    Eof,
    /// The other side of a pipeline is gone.
    BrokenPipe(&'static str),
    /// The data does not follow its format.
    InvalidData(&'static str),
    /// An argument, or the data handed in, cannot be used.
    InvalidInput(&'static str),
    /// Anything else.
    Other(&'static str),
}

} // verus!
