//! Encoders.

pub mod lzma2_writer_mt;
