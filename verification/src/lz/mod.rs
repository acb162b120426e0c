//! The sliding window, the match finder and what they are built from.

pub mod aligned_memory;
pub mod extend;
pub mod hash234;
pub mod hash_chain;
pub mod hash_tables;
pub mod hc4;
pub mod history;
pub mod lz_decoder;
pub mod lz_encoder;
pub mod normalize;
pub mod positions;
