//! Compression options.

use vstd::prelude::*;

use crate::lz::lz_encoder::MFType;

verus! {

/// How much effort goes into finding the best encoding.
#[derive(Debug, Clone, Copy, PartialEq, Eq, Structural)]
pub enum EncodeMode {
    Fast,
    Normal,
}

/// Options of the LZMA encoder.
#[derive(Debug, Clone)]
pub struct LZMAOptions {
    /// Dictionary size in bytes.
    pub dict_size: u32,
    /// Number of literal context bits.
    pub lc: u32,
    /// Number of literal position bits.
    pub lp: u32,
    /// Number of position bits.
    pub pb: u32,
    pub mode: EncodeMode,
    /// A match of this length is good enough.
    pub nice_len: u32,
    pub mf: MFType,
    /// How many candidates the match finder tries, or 0 for its own choice.
    pub depth_limit: i32,
    /// The dictionary to start with.
    pub preset_dict: Option<Vec<u8>>,
}

/// The dictionary size of a preset.
pub open spec fn preset_dict_size(preset: u32) -> u32 {
    if preset == 0 {
        0x40000
    } else if preset == 1 {
        0x100000
    } else if preset == 2 {
        0x200000
    } else if preset <= 4 {
        0x400000
    } else if preset <= 6 {
        0x800000
    } else if preset == 7 {
        0x1000000
    } else if preset == 8 {
        0x2000000
    } else {
        0x4000000
    }
}

/// The nice length of a preset.
pub open spec fn preset_nice_len(preset: u32) -> u32 {
    if preset <= 1 {
        128
    } else if preset <= 3 {
        273
    } else if preset == 4 {
        16
    } else if preset == 5 {
        32
    } else {
        64
    }
}

/// The depth limit of a preset.
pub open spec fn preset_depth_limit(preset: u32) -> i32 {
    if preset == 0 {
        4
    } else if preset == 1 {
        8
    } else if preset == 2 {
        24
    } else if preset == 3 {
        48
    } else {
        0
    }
}

impl LZMAOptions {
    /// The dictionary size that is used when nothing else is said.
    pub const DICT_SIZE_DEFAULT: u32 = 0x800000;

    /// The largest preset.
    pub const PRESET_MAX: u32 = 9;

    /// The preset that is used when nothing else is said.
    pub const PRESET_DEFAULT: u32 = 6;

    /// These are the options of a preset.
    pub open spec fn is_preset(&self, preset: u32) -> bool {
        let fast = preset <= 3;
        &&& self.dict_size == preset_dict_size(preset)
        &&& self.lc == 3
        &&& self.lp == 0
        &&& self.pb == 2
        &&& self.mode == if fast {
            EncodeMode::Fast
        } else {
            EncodeMode::Normal
        }
        &&& self.nice_len == preset_nice_len(preset)
        &&& self.mf == if fast {
            MFType::HC4
        } else {
            MFType::BT4
        }
        &&& self.depth_limit == preset_depth_limit(preset)
        &&& self.preset_dict is None
    }

    /// The options of a preset between 0 (fast) and 9 (small). Larger presets are the same as 9.
    pub fn with_preset(preset: u32) -> (options: Self)
        ensures
            options.is_preset(preset),
            preset > 9 ==> options.is_preset(9),
    {
        let dict_size: u32 = if preset == 0 {
            0x40000
        } else if preset == 1 {
            0x100000
        } else if preset == 2 {
            0x200000
        } else if preset <= 4 {
            0x400000
        } else if preset <= 6 {
            0x800000
        } else if preset == 7 {
            0x1000000
        } else if preset == 8 {
            0x2000000
        } else {
            0x4000000
        };
        let nice_len: u32 = if preset <= 1 {
            128
        } else if preset <= 3 {
            273
        } else if preset == 4 {
            16
        } else if preset == 5 {
            32
        } else {
            64
        };
        let depth_limit: i32 = if preset == 0 {
            4
        } else if preset == 1 {
            8
        } else if preset == 2 {
            24
        } else if preset == 3 {
            48
        } else {
            0
        };
        LZMAOptions {
            dict_size,
            lc: 3,
            lp: 0,
            pb: 2,
            mode: if preset <= 3 { EncodeMode::Fast } else { EncodeMode::Normal },
            nice_len,
            mf: if preset <= 3 { MFType::HC4 } else { MFType::BT4 },
            depth_limit,
            preset_dict: None,
        }
    }
}

impl Default for LZMAOptions {
    fn default() -> (options: Self)
        ensures
            options.is_preset(6),
    {
        LZMAOptions::with_preset(6)
    }
}

/// Options of the LZMA2 encoder.
#[derive(Debug, Clone)]
pub struct LZMA2Options {
    pub lzma_options: LZMAOptions,
    /// The size of the parts that are compressed independently of each other (None = one part).
    pub stream_size: Option<u64>,
}

/// The size of independent parts for a wanted size: at least the dictionary size, to not waste
/// memory.
pub open spec fn clamped_size(size: u64, dict_size: u32) -> u64 {
    if size < dict_size {
        dict_size as u64
    } else {
        size
    }
}

/// The size is the wanted one, or the dictionary size where that is larger.
pub proof fn lemma_clamped_size(size: u64, dict_size: u32)
    ensures
        clamped_size(size, dict_size) >= size,
        clamped_size(size, dict_size) >= dict_size,
        clamped_size(size, dict_size) == size || clamped_size(size, dict_size) == dict_size,
{
}

/// The size of independent parts for a wanted size.
pub fn clamp_size(size: u64, dict_size: u32) -> (clamped: u64)
    ensures
        clamped == clamped_size(size, dict_size),
{
    if size < dict_size as u64 {
        dict_size as u64
    } else {
        size
    }
}

/// A larger preset has a dictionary at least as large, all presets above 9 are the same as 9, and
/// the first four are the fast ones, which try more candidates the higher they are.
pub proof fn lemma_presets_grow(preset: u32, other: u32, a: LZMAOptions, b: LZMAOptions)
    requires
        preset <= other,
        call_ensures(LZMAOptions::with_preset, (preset,), a),
        call_ensures(LZMAOptions::with_preset, (other,), b),
    ensures
        a.dict_size <= b.dict_size,
        preset >= 9 ==> a.dict_size == b.dict_size && a.nice_len == b.nice_len,
        a.mf == MFType::HC4 <==> preset <= 3,
        a.mode == EncodeMode::Fast <==> preset <= 3,
        a.depth_limit > 0 <==> preset <= 3,
        preset < other <= 3 ==> a.depth_limit < b.depth_limit,
        4 <= preset ==> a.nice_len <= b.nice_len,
        a.lc == 3 && a.lp == 0 && a.pb == 2,
        a.preset_dict is None,
{
}

} // verus!
