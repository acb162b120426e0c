//! What the multi-threaded readers and writers decide: how work is cut up and handed to workers,
//! and how the results are put back in order.

pub mod collector;
pub mod order;
pub mod splitter;
pub mod workers;
