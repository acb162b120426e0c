pub mod enc;
pub mod error;
pub mod io;
pub mod lz;
pub mod lzip;
pub mod lzma2_reader;
pub mod lzma2_steps;
pub mod mt;
pub mod options;
pub mod range_dec;
pub mod xz;
