//! Configuration of XZ compression.

use vstd::prelude::*;

use super::check::CheckType;
use super::filter::{FilterConfig, FilterType};
use crate::options::LZMAOptions;

verus! {

/// No more filters than this can come before LZMA2.
pub const PRE_FILTERS_MAX: usize = 3;

/// Configuration options for XZ compression.
#[derive(Debug, Clone)]
pub struct XZOptions {
    /// LZMA compression options.
    pub lzma_options: LZMAOptions,
    /// Checksum type to use.
    pub check_type: CheckType,
    /// Maximum uncompressed size for each block (None = single block).
    /// Will get clamped to be at least the dict size to not waste memory.
    pub block_size: Option<u64>,
    /// Pre-filter to use (at most 3).
    pub filters: Vec<FilterConfig>,
}

impl Default for XZOptions {
    fn default() -> (options: Self)
        ensures
            options.lzma_options.is_preset(6),
            options.check_type == CheckType::Crc64,
            options.block_size is None,
            options.filters@ == Seq::<FilterConfig>::empty(),
    {
        XZOptions {
            lzma_options: LZMAOptions::with_preset(6),
            check_type: CheckType::Crc64,
            block_size: None,
            filters: Vec::new(),
        }
    }
}

impl XZOptions {
    /// Create options with specific preset and checksum type.
    pub fn with_preset(preset: u32) -> (options: Self)
        ensures
            options.lzma_options.is_preset(preset),
            options.check_type == CheckType::Crc64,
            options.block_size is None,
            options.filters@ == Seq::<FilterConfig>::empty(),
    {
        XZOptions {
            lzma_options: LZMAOptions::with_preset(preset),
            check_type: CheckType::Crc64,
            block_size: None,
            filters: Vec::new(),
        }
    }

    /// Set the checksum type to use (Default is CRC64).
    pub fn set_check_sum_type(&mut self, check_type: CheckType)
        ensures
            *final(self) == (XZOptions { check_type, ..*old(self) }),
    {
        self.check_type = check_type;
    }

    /// Set the maximum block size (None means a single block, which is the default).
    pub fn set_block_size(&mut self, block_size: Option<u64>)
        ensures
            *final(self) == (XZOptions { block_size, ..*old(self) }),
    {
        self.block_size = block_size;
    }

    /// Prepend a filter to the chain. You can prepend at most 3 additional filter.
    pub fn prepend_pre_filter(&mut self, filter_type: FilterType, property: u32)
        ensures
            final(self).filters@ == seq![FilterConfig { filter_type, property }] + old(
                self,
            ).filters@,
            final(self).lzma_options == old(self).lzma_options,
            final(self).check_type == old(self).check_type,
            final(self).block_size == old(self).block_size,
    {
        self.filters.insert(0, FilterConfig { filter_type, property });
        assert(self.filters@ =~= seq![FilterConfig { filter_type, property }] + old(self).filters@);
    }
}

} // verus!
