//! Filters and their configuration.

use vstd::prelude::*;

verus! {

/// The filters of the XZ format.
#[derive(Debug, Copy, Clone, Eq, PartialEq, Structural)]
pub enum FilterType {
    /// Delta filter
    Delta,
    /// BCJ x86 filter
    BcjX86,
    /// BCJ PowerPC filter
    BcjPPC,
    /// BCJ IA64 filter
    BcjIA64,
    /// BCJ ARM filter
    BcjARM,
    /// BCJ ARM Thumb
    BcjARMThumb,
    /// BCJ SPARC filter
    BcjSPARC,
    /// BCJ ARM64 filter
    BcjARM64,
    /// BCJ RISC-V filter
    BcjRISCV,
    /// LZMA2 filter
    LZMA2,
}

impl FilterType {
    /// The number by which the format knows the filter.
    pub open spec fn number(self) -> u64 {
        match self {
            FilterType::Delta => 0x03,
            FilterType::BcjX86 => 0x04,
            FilterType::BcjPPC => 0x05,
            FilterType::BcjIA64 => 0x06,
            FilterType::BcjARM => 0x07,
            FilterType::BcjARMThumb => 0x08,
            FilterType::BcjSPARC => 0x09,
            FilterType::BcjARM64 => 0x0A,
            FilterType::BcjRISCV => 0x0B,
            FilterType::LZMA2 => 0x21,
        }
    }

    /// The filter with a given number.
    pub fn try_from(value: u64) -> (result: Result<Self, ()>)
        ensures
            match result {
                Ok(filter_type) => filter_type.number() == value,
                Err(_) => forall|filter_type: FilterType| #[trigger] filter_type.number() != value,
            },
    {
        match value {
            0x03 => Ok(FilterType::Delta),
            0x04 => Ok(FilterType::BcjX86),
            0x05 => Ok(FilterType::BcjPPC),
            0x06 => Ok(FilterType::BcjIA64),
            0x07 => Ok(FilterType::BcjARM),
            0x08 => Ok(FilterType::BcjARMThumb),
            0x09 => Ok(FilterType::BcjSPARC),
            0x0A => Ok(FilterType::BcjARM64),
            0x0B => Ok(FilterType::BcjRISCV),
            0x21 => Ok(FilterType::LZMA2),
            _ => Err(()),
        }
    }

    /// No two filters have the same number.
    pub proof fn lemma_numbers_differ(a: FilterType, b: FilterType)
        requires
            a.number() == b.number(),
        ensures
            a == b,
    {
    }
}

/// Configuration for a filter in the XZ filter chain.
#[derive(Debug, Clone, Copy, PartialEq, Eq, Structural)]
pub struct FilterConfig {
    pub filter_type: FilterType,
    pub property: u32,
}

impl FilterConfig {
    /// Creates a new delta filter configuration.
    pub fn new_delta(distance: u32) -> (config: Self)
        ensures
            config == (FilterConfig { filter_type: FilterType::Delta, property: distance }),
    {
        FilterConfig { filter_type: FilterType::Delta, property: distance }
    }

    /// Creates a new BCJ x86 filter configuration.
    pub fn new_bcj_x86(start_pos: u32) -> (config: Self)
        ensures
            config == (FilterConfig { filter_type: FilterType::BcjX86, property: start_pos }),
    {
        FilterConfig { filter_type: FilterType::BcjX86, property: start_pos }
    }

    /// Creates a new BCJ ARM filter configuration.
    pub fn new_bcj_arm(start_pos: u32) -> (config: Self)
        ensures
            config == (FilterConfig { filter_type: FilterType::BcjARM, property: start_pos }),
    {
        FilterConfig { filter_type: FilterType::BcjARM, property: start_pos }
    }

    /// Creates a new BCJ ARM Thumb filter configuration.
    pub fn new_bcj_arm_thumb(start_pos: u32) -> (config: Self)
        ensures
            config == (FilterConfig { filter_type: FilterType::BcjARMThumb, property: start_pos }),
    {
        FilterConfig { filter_type: FilterType::BcjARMThumb, property: start_pos }
    }

    /// Creates a new BCJ ARM64 filter configuration.
    pub fn new_bcj_arm64(start_pos: u32) -> (config: Self)
        ensures
            config == (FilterConfig { filter_type: FilterType::BcjARM64, property: start_pos }),
    {
        FilterConfig { filter_type: FilterType::BcjARM64, property: start_pos }
    }

    /// Creates a new BCJ IA64 filter configuration.
    pub fn new_bcj_ia64(start_pos: u32) -> (config: Self)
        ensures
            config == (FilterConfig { filter_type: FilterType::BcjIA64, property: start_pos }),
    {
        FilterConfig { filter_type: FilterType::BcjIA64, property: start_pos }
    }

    /// Creates a new BCJ PPC filter configuration.
    pub fn new_bcj_ppc(start_pos: u32) -> (config: Self)
        ensures
            config == (FilterConfig { filter_type: FilterType::BcjPPC, property: start_pos }),
    {
        FilterConfig { filter_type: FilterType::BcjPPC, property: start_pos }
    }

    /// Creates a new BCJ SPARC filter configuration.
    pub fn new_bcj_sparc(start_pos: u32) -> (config: Self)
        ensures
            config == (FilterConfig { filter_type: FilterType::BcjSPARC, property: start_pos }),
    {
        FilterConfig { filter_type: FilterType::BcjSPARC, property: start_pos }
    }

    /// Creates a new BCJ RISC-V filter configuration.
    pub fn new_bcj_risc_v(start_pos: u32) -> (config: Self)
        ensures
            config == (FilterConfig { filter_type: FilterType::BcjRISCV, property: start_pos }),
    {
        FilterConfig { filter_type: FilterType::BcjRISCV, property: start_pos }
    }

    /// The stage of a filter chain that does what is configured.
    pub open spec fn as_stage(self) -> FilterStage {
        let value = self.property as usize;
        match self.filter_type {
            FilterType::Delta => FilterStage::Delta { distance: value },
            FilterType::BcjX86 => FilterStage::Bcj { arch: BcjArch::X86, start_offset: value },
            FilterType::BcjPPC => FilterStage::Bcj { arch: BcjArch::PPC, start_offset: value },
            FilterType::BcjIA64 => FilterStage::Bcj { arch: BcjArch::IA64, start_offset: value },
            FilterType::BcjARM => FilterStage::Bcj { arch: BcjArch::ARM, start_offset: value },
            FilterType::BcjARMThumb => FilterStage::Bcj {
                arch: BcjArch::ARMThumb,
                start_offset: value,
            },
            FilterType::BcjSPARC => FilterStage::Bcj { arch: BcjArch::SPARC, start_offset: value },
            FilterType::BcjARM64 => FilterStage::Bcj { arch: BcjArch::ARM64, start_offset: value },
            FilterType::BcjRISCV => FilterStage::Bcj { arch: BcjArch::RISCV, start_offset: value },
            FilterType::LZMA2 => FilterStage::Lzma2,
        }
    }

    /// A stage has the property that was configured, all of it, and no two filters have the same
    /// stage.
    pub proof fn lemma_stage_tells_config(a: FilterConfig, b: FilterConfig)
        ensures
            match a.as_stage() {
                FilterStage::Delta { distance } => {
                    &&& a.filter_type == FilterType::Delta
                    &&& distance == a.property
                },
                FilterStage::Bcj { start_offset, .. } => start_offset == a.property,
                FilterStage::Lzma2 => a.filter_type == FilterType::LZMA2,
            },
            a.as_stage() == b.as_stage() ==> a.filter_type == b.filter_type,
    {
    }

    /// The stage of a filter chain that does what is configured.
    pub fn stage(self) -> (stage: FilterStage)
        ensures
            stage == self.as_stage(),
    {
        let value: usize = self.property as usize;
        match self.filter_type {
            FilterType::Delta => FilterStage::Delta { distance: value },
            FilterType::BcjX86 => FilterStage::Bcj { arch: BcjArch::X86, start_offset: value },
            FilterType::BcjPPC => FilterStage::Bcj { arch: BcjArch::PPC, start_offset: value },
            FilterType::BcjIA64 => FilterStage::Bcj { arch: BcjArch::IA64, start_offset: value },
            FilterType::BcjARM => FilterStage::Bcj { arch: BcjArch::ARM, start_offset: value },
            FilterType::BcjARMThumb => FilterStage::Bcj {
                arch: BcjArch::ARMThumb,
                start_offset: value,
            },
            FilterType::BcjSPARC => FilterStage::Bcj { arch: BcjArch::SPARC, start_offset: value },
            FilterType::BcjARM64 => FilterStage::Bcj { arch: BcjArch::ARM64, start_offset: value },
            FilterType::BcjRISCV => FilterStage::Bcj { arch: BcjArch::RISCV, start_offset: value },
            FilterType::LZMA2 => FilterStage::Lzma2,
        }
    }
}

/// The architectures that have a branch, call and jump filter.
#[derive(Debug, Clone, Copy, PartialEq, Eq, Structural)]
pub enum BcjArch {
    X86,
    PPC,
    IA64,
    ARM,
    ARMThumb,
    SPARC,
    ARM64,
    RISCV,
}

/// A stage of a filter chain.
#[derive(Debug, Clone, Copy, PartialEq, Eq, Structural)]
pub enum FilterStage {
    /// Differences between bytes at a distance.
    Delta { distance: usize },
    /// Branch, call and jump addresses.
    Bcj { arch: BcjArch, start_offset: usize },
    /// Compression.
    Lzma2,
}

} // verus!
