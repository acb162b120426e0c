//! The LZIP format.

pub mod members;
pub mod reader_mt;
