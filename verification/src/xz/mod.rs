//! XZ format decoder and encoder implementation.

pub mod block;
pub mod check;
pub mod filter;
pub mod multibyte;
pub mod options;
pub mod reader;
pub mod writer;
pub mod writer_mt;
