//! Zero-initialised tables of `i32`.

use vstd::prelude::*;

verus! {

/// Tables are sized in whole blocks of this many bytes, the size of a cache line.
pub const ALIGNMENT: usize = 64;

/// The number of `i32` in one block of [`ALIGNMENT`] bytes.
pub const BLOCK_LENGTH: usize = 16;

/// A table of `i32` whose size in bytes is a multiple of [`ALIGNMENT`].
pub struct AlignedMemoryI32 {
    data: Vec<i32>,
}

impl View for AlignedMemoryI32 {
    type V = Seq<i32>;

    closed spec fn view(&self) -> Seq<i32> {
        self.data@
    }
}

impl AlignedMemoryI32 {
    /// Whether a table of at least `min_length` entries can be allocated.
    pub open spec fn allocatable(min_length: int) -> bool {
        min_length * 4 + ALIGNMENT - 1 <= isize::MAX
    }

    /// The number of entries in a table made for `min_length` entries: the smallest multiple of
    /// [`BLOCK_LENGTH`] that is not below it.
    pub open spec fn target_length(min_length: int) -> int {
        (min_length + BLOCK_LENGTH - 1) / (BLOCK_LENGTH as int) * BLOCK_LENGTH
    }

    /// Allocates a table of at least `min_length` entries, all of them zero.
    pub fn new(min_length: usize) -> (table: Self)
        requires
            Self::allocatable(min_length as int),
        ensures
            table@.len() == Self::target_length(min_length as int),
            min_length <= table@.len() < min_length + BLOCK_LENGTH,
            forall|i: int| 0 <= i < table@.len() ==> table@[i] == 0,
    {
        let required_bytes: usize = (min_length * 4 + (ALIGNMENT - 1)) / ALIGNMENT * ALIGNMENT;
        let target_length: usize = required_bytes / 4;
        AlignedMemoryI32 { data: vec![0i32; target_length] }
    }

    /// The number of entries.
    pub fn len(&self) -> (length: usize)
        ensures
            length == self@.len(),
    {
        self.data.len()
    }

    /// The entry at `index`.
    pub fn get(&self, index: usize) -> (value: i32)
        requires
            index < self@.len(),
        ensures
            value == self@[index as int],
    {
        self.data[index]
    }

    /// Replaces the entry at `index`.
    pub fn set(&mut self, index: usize, value: i32)
        requires
            index < old(self)@.len(),
        ensures
            final(self)@ == old(self)@.update(index as int, value),
    {
        self.data[index] = value;
    }

    /// The entries as a slice.
    pub fn as_ref(&self) -> (entries: &[i32])
        ensures
            entries@ == self@,
    {
        self.data.as_slice()
    }

    /// The entries as a mutable slice.
    pub fn as_mut(&mut self) -> (entries: &mut [i32])
        ensures
            entries@ == old(self)@,
            final(self)@ == final(entries)@,
    {
        self.data.as_mut_slice()
    }
}

} // verus!
