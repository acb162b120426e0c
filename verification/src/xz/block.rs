//! The sizes of blocks.

use vstd::prelude::*;

verus! {

/// XZ Index record containing block metadata.
#[derive(Debug, Clone, Copy, PartialEq, Eq, Structural)]
pub struct IndexRecord {
    pub unpadded_size: u64,
    pub uncompressed_size: u64,
}

/// How many bytes fill up `size` bytes to a multiple of four.
pub open spec fn padding_for(size: int) -> int {
    (4 - size % 4) % 4
}

/// Padding makes the size a multiple of four, with at most three bytes.
pub proof fn lemma_padding_aligns(size: int)
    requires
        size >= 0,
    ensures
        (size + padding_for(size)) % 4 == 0,
        0 <= padding_for(size) <= 3,
{
}

/// How many bytes fill up `size` bytes to a multiple of four.
pub fn padding_needed(size: u64) -> (padding: usize)
    ensures
        padding == padding_for(size as int),
{
    ((4 - (size % 4)) % 4) as usize
}

/// The size of a block header with one filter, which is LZMA2, in whole words: the size byte, the
/// flags, the filter with its property, and the checksum.
pub fn get_block_header_size() -> (size: u64)
    ensures
        size == 12,
{
    let base_size: u64 = 9;
    (base_size + 3) / 4 * 4
}

} // verus!
