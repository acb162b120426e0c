//! Tables of the most recent position of every hash of two, three and four bytes.

use vstd::arithmetic::power2::*;
use vstd::prelude::*;

use super::aligned_memory::AlignedMemoryI32;
use super::normalize::normalize;

verus! {

pub const HASH2_SIZE: u32 = 0x400;

pub const HASH2_MASK: u32 = 0x3FF;

pub const HASH3_SIZE: u32 = 0x10000;

pub const HASH3_MASK: u32 = 0xFFFF;

/// A byte spread over 32 bits by the golden ratio.
pub open spec fn spread(byte: u8) -> u32 {
    (byte as u32).wrapping_mul(0x9E3779B9u32)
}

/// The hash of two bytes.
pub open spec fn hash2_of(b0: u8, b1: u8) -> u32 {
    (spread(b0) ^ (b1 as u32)) & HASH2_MASK
}

/// The hash of three bytes.
pub open spec fn hash3_of(b0: u8, b1: u8, b2: u8) -> u32 {
    ((spread(b0) ^ (b1 as u32)) ^ ((b2 as u32) << 8u32)) & HASH3_MASK
}

/// The hash of four bytes under a table mask.
pub open spec fn hash4_of(b0: u8, b1: u8, b2: u8, b3: u8, mask: u32) -> u32 {
    (((spread(b0) ^ (b1 as u32)) ^ ((b2 as u32) << 8u32)) ^ (spread(b3) << 5u32)) & mask
}

/// Two pairs with the same first byte have the same hash only if they are equal.
pub proof fn lemma_hash2_tells_second_byte(b0: u8, b1: u8, c1: u8)
    requires
        hash2_of(b0, b1) == hash2_of(b0, c1),
    ensures
        b1 == c1,
{
    let k = spread(b0);
    assert((k ^ (b1 as u32)) & 0x3FFu32 == (k ^ (c1 as u32)) & 0x3FFu32 ==> b1 == c1)
        by (bit_vector);
}

/// Two triples with the same first byte have the same hash only if they are equal.
pub proof fn lemma_hash3_tells_other_bytes(b0: u8, b1: u8, b2: u8, c1: u8, c2: u8)
    requires
        hash3_of(b0, b1, b2) == hash3_of(b0, c1, c2),
    ensures
        b1 == c1,
        b2 == c2,
{
    let k = spread(b0);
    assert(((k ^ (b1 as u32)) ^ ((b2 as u32) << 8u32)) & 0xFFFFu32 == ((k ^ (c1 as u32)) ^ ((
    c2 as u32) << 8u32)) & 0xFFFFu32 ==> b1 == c1 && b2 == c2) by (bit_vector);
}

/// Two runs of four bytes that differ in the second or third byte alone have different hashes.
pub proof fn lemma_hash4_tells_middle_bytes(
    b0: u8,
    b1: u8,
    b2: u8,
    b3: u8,
    c1: u8,
    c2: u8,
    mask: u32,
)
    requires
        hash4_of(b0, b1, b2, b3, mask) == hash4_of(b0, c1, c2, b3, mask),
        mask & 0xFFFF == 0xFFFF,
    ensures
        b1 == c1,
        b2 == c2,
{
    let k = spread(b0);
    let j = spread(b3);
    assert((((k ^ (b1 as u32)) ^ ((b2 as u32) << 8u32)) ^ (j << 5u32)) & mask == (((k ^ (
    c1 as u32)) ^ ((c2 as u32) << 8u32)) ^ (j << 5u32)) & mask && mask & 0xFFFFu32 == 0xFFFFu32
        ==> b1 == c1 && b2 == c2) by (bit_vector);
}

/// Spreading tells bytes apart, also by the lowest bits alone.
proof fn lemma_spread_tells_bytes(b: u8, c: u8)
    ensures
        spread(b) & 0x3FF == spread(c) & 0x3FF ==> b == c,
        spread(b) & 0xFFFF == spread(c) & 0xFFFF ==> b == c,
        (spread(b) << 5u32) & 0xFFFF == (spread(c) << 5u32) & 0xFFFF ==> b == c,
{
    let (x, y) = (spread(b), spread(c));
    assert(x == ((b as u64 * 0x9E3779B9u64) as u64) % 0x1_0000_0000u64);
    assert(y == ((c as u64 * 0x9E3779B9u64) as u64) % 0x1_0000_0000u64);
    lemma_odd_multiples(b, c, x, y);
}

proof fn lemma_odd_multiples(b: u8, c: u8, x: u32, y: u32)
    by (bit_vector)
    requires
        x == ((b as u64 * 0x9E3779B9u64) as u64) % 0x1_0000_0000u64,
        y == ((c as u64 * 0x9E3779B9u64) as u64) % 0x1_0000_0000u64,
    ensures
        x & 0x3FF == y & 0x3FF ==> b == c,
        x & 0xFFFF == y & 0xFFFF ==> b == c,
        (x << 5u32) & 0xFFFF == (y << 5u32) & 0xFFFF ==> b == c,
{
}

/// Bytes that differ in the first one alone have different hashes.
pub proof fn lemma_hashes_tell_first_byte(b0: u8, c0: u8, b1: u8, b2: u8, b3: u8, mask: u32)
    requires
        b0 != c0,
        mask & 0xFFFF == 0xFFFF,
    ensures
        hash2_of(b0, b1) != hash2_of(c0, b1),
        hash3_of(b0, b1, b2) != hash3_of(c0, b1, b2),
        hash4_of(b0, b1, b2, b3, mask) != hash4_of(c0, b1, b2, b3, mask),
{
    lemma_spread_tells_bytes(b0, c0);
    let (x, y, j) = (spread(b0), spread(c0), spread(b3) << 5u32);
    let (r, t) = (b1 as u32, (b2 as u32) << 8u32);
    assert((x ^ r) & 0x3FFu32 == (y ^ r) & 0x3FFu32 ==> x & 0x3FFu32 == y & 0x3FFu32)
        by (bit_vector);
    assert(((x ^ r) ^ t) & 0xFFFFu32 == ((y ^ r) ^ t) & 0xFFFFu32 ==> x & 0xFFFFu32 == y
        & 0xFFFFu32) by (bit_vector);
    assert((((x ^ r) ^ t) ^ j) & mask == (((y ^ r) ^ t) ^ j) & mask && mask & 0xFFFFu32 == 0xFFFFu32
        ==> x & 0xFFFFu32 == y & 0xFFFFu32) by (bit_vector);
}

/// Runs of four bytes that differ in the last one alone have different hashes.
pub proof fn lemma_hash4_tells_last_byte(b0: u8, b1: u8, b2: u8, b3: u8, c3: u8, mask: u32)
    requires
        b3 != c3,
        mask & 0xFFFF == 0xFFFF,
    ensures
        hash4_of(b0, b1, b2, b3, mask) != hash4_of(b0, b1, b2, c3, mask),
{
    lemma_spread_tells_bytes(b3, c3);
    let k = (spread(b0) ^ (b1 as u32)) ^ ((b2 as u32) << 8u32);
    let (x, y) = (spread(b3) << 5u32, spread(c3) << 5u32);
    assert((k ^ x) & mask == (k ^ y) & mask && mask & 0xFFFFu32 == 0xFFFFu32 ==> x & 0xFFFFu32 == y
        & 0xFFFFu32) by (bit_vector);
}

/// The table for four bytes has at least 2^16 slots, and so many that a dictionary has no more than
/// four times as many bytes, but no more than the dictionary has beyond 2^16. Their number is a
/// power of two.
pub proof fn lemma_hash4_size_fits(dict_size: u32)
    requires
        dict_size >= 2,
    ensures
        0x10000 <= hash4_size(dict_size),
        hash4_size(dict_size) == 0x10000 || hash4_size(dict_size) < dict_size,
        4 * hash4_size(dict_size) >= dict_size,
        dict_size <= 0x1000000 ==> 2 * hash4_size(dict_size) >= dict_size,
        exists|k: nat| hash4_size(dict_size) == #[trigger] pow2(k),
{
    let n = (dict_size - 1) as nat;
    lemma_power_below(n);
    lemma2_to64();
    let k = choose|k: nat| largest_power_of_two(n) == #[trigger] pow2(k);
    if hash4_size(dict_size) == 0x10000 {
        assert(hash4_size(dict_size) == pow2(16));
    } else if largest_power_of_two(n) > 0x1000000 {
        if k > 0 {
            lemma_pow2_unfold(k);
            assert(hash4_size(dict_size) == pow2((k - 1) as nat));
        }
    }
}

proof fn lemma_power_below(n: nat)
    requires
        n >= 1,
    ensures
        largest_power_of_two(n) <= n < 2 * largest_power_of_two(n),
        exists|k: nat| largest_power_of_two(n) == #[trigger] pow2(k),
    decreases n,
{
    lemma2_to64();
    if n < 2 {
        assert(largest_power_of_two(n) == pow2(0));
    } else {
        lemma_power_below(n / 2);
        let k = choose|k: nat| largest_power_of_two(n / 2) == #[trigger] pow2(k);
        lemma_pow2_unfold(k + 1);
        assert(largest_power_of_two(n) == pow2(k + 1));
    }
}

/// The largest power of two that is not above `n`, or 1 when `n` is 0.
pub open spec fn largest_power_of_two(n: nat) -> nat
    decreases n,
{
    if n < 2 {
        1
    } else {
        2 * largest_power_of_two(n / 2)
    }
}

proof fn lemma_largest_power_of_two(n: nat, k: nat)
    requires
        pow2(k) <= n < pow2(k + 1),
    ensures
        largest_power_of_two(n) == pow2(k),
    decreases k,
{
    lemma_pow2_unfold(k + 1);
    lemma2_to64();
    if k > 0 {
        lemma_pow2_unfold(k);
        lemma_largest_power_of_two(n / 2, (k - 1) as nat);
    }
}

/// The number of slots of the four byte table for a dictionary of `dict_size` bytes: the largest
/// power of two below `dict_size`, but at least 2^16, and halved when it is over 2^24.
pub open spec fn hash4_size(dict_size: u32) -> int {
    let power = largest_power_of_two((dict_size - 1) as nat) as int;
    if power < 0x10000 {
        0x10000
    } else if power > 0x1000000 {
        power / 2
    } else {
        power
    }
}

pub struct Hash234 {
    hash2_table: AlignedMemoryI32,
    hash3_table: AlignedMemoryI32,
    hash4_table: AlignedMemoryI32,
    hash4_size: u32,
    hash4_mask: u32,
    hash2_value: i32,
    hash3_value: i32,
    hash4_value: i32,
}

impl Hash234 {
    /// The table for two byte hashes.
    pub closed spec fn table2(&self) -> Seq<i32> {
        self.hash2_table@
    }

    /// The table for three byte hashes.
    pub closed spec fn table3(&self) -> Seq<i32> {
        self.hash3_table@
    }

    /// The table for four byte hashes.
    pub closed spec fn table4(&self) -> Seq<i32> {
        self.hash4_table@
    }

    /// The mask of four byte hashes.
    pub closed spec fn mask4(&self) -> u32 {
        self.hash4_mask
    }

    /// The two byte hash that was computed last.
    pub closed spec fn value2(&self) -> int {
        self.hash2_value as int
    }

    /// The three byte hash that was computed last.
    pub closed spec fn value3(&self) -> int {
        self.hash3_value as int
    }

    /// The four byte hash that was computed last.
    pub closed spec fn value4(&self) -> int {
        self.hash4_value as int
    }

    /// Every hash has a slot, and the current hashes are in range.
    pub closed spec fn wf(&self) -> bool {
        &&& self.hash2_table@.len() >= HASH2_SIZE
        &&& self.hash3_table@.len() >= HASH3_SIZE
        &&& self.hash4_table@.len() >= self.hash4_size
        &&& 0x10000 <= self.hash4_size <= 0x40000000
        &&& self.hash4_mask == self.hash4_size - 1
        &&& 0 <= self.hash2_value < HASH2_SIZE
        &&& 0 <= self.hash3_value < HASH3_SIZE
        &&& 0 <= self.hash4_value < self.hash4_size
    }

    /// What well-formedness says through the public views.
    pub proof fn lemma_wf(&self)
        requires
            self.wf(),
        ensures
            self.table2().len() >= HASH2_SIZE,
            self.table3().len() >= HASH3_SIZE,
            self.table4().len() > self.mask4(),
            0xFFFF <= self.mask4() <= 0x3FFFFFFF,
            0 <= self.value2() < HASH2_SIZE,
            0 <= self.value3() < HASH3_SIZE,
            0 <= self.value4() <= self.mask4(),
    {
    }

    /// The number of slots of the four byte table.
    pub fn get_hash4_size(dict_size: u32) -> (size: u32)
        requires
            dict_size >= 1,
        ensures
            size == hash4_size(dict_size),
            0x10000 <= size <= 0x40000000,
    {
        let d: u32 = dict_size - 1;
        let h1: u32 = d | (d >> 1);
        let h2: u32 = h1 | (h1 >> 2);
        let h3: u32 = h2 | (h2 >> 4);
        let h4: u32 = h3 | (h3 >> 8);
        let h5: u32 = (h4 >> 1) | 0xFFFF;
        let h6: u32 = if h5 > 0x1000000 { h5 >> 1 } else { h5 };
        proof {
            Self::lemma_smear(d, h1, h2, h3, h4, h5);
            lemma2_to64();
            lemma2_to64_rest();
            let n = d as nat;
            if d < 0x20000 {
                if d >= 1 {
                    Self::lemma_small_power(n);
                }
                assert(h5 == 0xFFFF);
            } else if d < 0x40000 { lemma_largest_power_of_two(n, 17);
            } else if d < 0x80000 { lemma_largest_power_of_two(n, 18);
            } else if d < 0x100000 { lemma_largest_power_of_two(n, 19);
            } else if d < 0x200000 { lemma_largest_power_of_two(n, 20);
            } else if d < 0x400000 { lemma_largest_power_of_two(n, 21);
            } else if d < 0x800000 { lemma_largest_power_of_two(n, 22);
            } else if d < 0x1000000 { lemma_largest_power_of_two(n, 23);
            } else if d < 0x2000000 { lemma_largest_power_of_two(n, 24);
            } else if d < 0x4000000 { lemma_largest_power_of_two(n, 25);
            } else if d < 0x8000000 { lemma_largest_power_of_two(n, 26);
            } else if d < 0x10000000 { lemma_largest_power_of_two(n, 27);
            } else if d < 0x20000000 { lemma_largest_power_of_two(n, 28);
            } else if d < 0x40000000 { lemma_largest_power_of_two(n, 29);
            } else if d < 0x80000000 { lemma_largest_power_of_two(n, 30);
            } else { lemma_largest_power_of_two(n, 31);
            }
            assert(h5 >> 1 == h5 / 2) by (bit_vector);
        }
        h6 + 1
    }

    /// The four byte table never has more than 2^30 slots, and beyond 2^16 no more than there are
    /// bytes in the dictionary.
    pub proof fn lemma_hash4_size_bound(dict_size: u32)
        requires
            dict_size >= 1,
        ensures
            0x10000 <= hash4_size(dict_size) <= 0x40000000,
            hash4_size(dict_size) <= 0x10000 || hash4_size(dict_size) <= dict_size,
    {
        let n = (dict_size - 1) as nat;
        if n >= 1 {
            Self::lemma_power_at_most(n);
            if n >= 0x80000000 {
                lemma2_to64();
                lemma2_to64_rest();
                lemma_largest_power_of_two(n, 31);
            }
        }
    }

    /// Below 2^17 the largest power of two is at most 2^16.
    proof fn lemma_small_power(n: nat)
        requires
            1 <= n < 0x20000,
        ensures
            largest_power_of_two(n) <= 0x10000,
    {
        Self::lemma_power_at_most(n);
        if n >= 0x10000 {
            lemma2_to64();
            lemma_largest_power_of_two(n, 16);
        }
    }

    proof fn lemma_power_at_most(n: nat)
        requires
            n >= 1,
        ensures
            largest_power_of_two(n) <= n,
        decreases n,
    {
        if n >= 2 {
            Self::lemma_power_at_most(n / 2);
        }
    }

    /// Copying the highest bit into all lower ones.
    proof fn lemma_smear(d: u32, h1: u32, h2: u32, h3: u32, h4: u32, h5: u32)
        by (bit_vector)
        requires
            h1 == d | (d >> 1u32),
            h2 == h1 | (h1 >> 2u32),
            h3 == h2 | (h2 >> 4u32),
            h4 == h3 | (h3 >> 8u32),
            h5 == (h4 >> 1u32) | 0xFFFFu32,
        ensures
            d < 0x20000 ==> h5 == 0xFFFF,
            0x20000 <= d < 0x40000 ==> h5 == 0x1FFFF,
            0x40000 <= d < 0x80000 ==> h5 == 0x3FFFF,
            0x80000 <= d < 0x100000 ==> h5 == 0x7FFFF,
            0x100000 <= d < 0x200000 ==> h5 == 0xFFFFF,
            0x200000 <= d < 0x400000 ==> h5 == 0x1FFFFF,
            0x400000 <= d < 0x800000 ==> h5 == 0x3FFFFF,
            0x800000 <= d < 0x1000000 ==> h5 == 0x7FFFFF,
            0x1000000 <= d < 0x2000000 ==> h5 == 0xFFFFFF,
            0x2000000 <= d < 0x4000000 ==> h5 == 0x1FFFFFF,
            0x4000000 <= d < 0x8000000 ==> h5 == 0x3FFFFFF,
            0x8000000 <= d < 0x10000000 ==> h5 == 0x7FFFFFF,
            0x10000000 <= d < 0x20000000 ==> h5 == 0xFFFFFFF,
            0x20000000 <= d < 0x40000000 ==> h5 == 0x1FFFFFFF,
            0x40000000 <= d < 0x80000000 ==> h5 == 0x3FFFFFFF,
            0x80000000 <= d ==> h5 == 0x7FFFFFFF,
    {
    }

    /// The memory that the tables are accounted with, in KiB.
    pub fn get_mem_usage(dict_size: u32) -> (kib: u32)
        requires
            dict_size >= 1,
        ensures
            kib == (HASH2_MASK + HASH2_SIZE + hash4_size(dict_size)) / 256 + 4,
    {
        let size: u32 = Self::get_hash4_size(dict_size);
        (HASH2_MASK + HASH2_SIZE + size) / (1024 / 4) + 4
    }

    /// Allocates the tables for a dictionary of `dict_size` bytes. All slots hold zero.
    pub fn new(dict_size: u32) -> (tables: Self)
        requires
            dict_size >= 1,
            AlignedMemoryI32::allocatable(hash4_size(dict_size)),
        ensures
            tables.wf(),
            tables.mask4() == hash4_size(dict_size) - 1,
            forall|i: int| 0 <= i < tables.table2().len() ==> tables.table2()[i] == 0,
            forall|i: int| 0 <= i < tables.table3().len() ==> tables.table3()[i] == 0,
            forall|i: int| 0 <= i < tables.table4().len() ==> tables.table4()[i] == 0,
    {
        let hash4_size: u32 = Self::get_hash4_size(dict_size);
        let hash2_table = AlignedMemoryI32::new(HASH2_SIZE as usize);
        let hash3_table = AlignedMemoryI32::new(HASH3_SIZE as usize);
        let hash4_table = AlignedMemoryI32::new(hash4_size as usize);
        Hash234 {
            hash2_table,
            hash3_table,
            hash4_table,
            hash4_size,
            hash4_mask: hash4_size - 1,
            hash2_value: 0,
            hash3_value: 0,
            hash4_value: 0,
        }
    }

    fn hash_byte(byte: u8) -> (hash: u32)
        ensures
            hash == spread(byte),
    {
        (byte as u32).wrapping_mul(0x9E3779B9)
    }

    /// Computes the hashes of the bytes at the start of `buf`.
    pub fn calc_hashes(&mut self, buf: &[u8])
        requires
            old(self).wf(),
            buf@.len() >= 4,
        ensures
            final(self).wf(),
            final(self).table2() == old(self).table2(),
            final(self).table3() == old(self).table3(),
            final(self).table4() == old(self).table4(),
            final(self).mask4() == old(self).mask4(),
            final(self).value2() == hash2_of(buf@[0], buf@[1]),
            final(self).value3() == hash3_of(buf@[0], buf@[1], buf@[2]),
            final(self).value4() == hash4_of(
                buf@[0],
                buf@[1],
                buf@[2],
                buf@[3],
                old(self).mask4(),
            ),
    {
        let tmp2: u32 = Self::hash_byte(buf[0]) ^ (buf[1] as u32);
        let hash2: u32 = tmp2 & HASH2_MASK;
        let tmp3: u32 = tmp2 ^ ((buf[2] as u32) << 8);
        let hash3: u32 = tmp3 & HASH3_MASK;
        let tmp4: u32 = tmp3 ^ (Self::hash_byte(buf[3]) << 5);
        let mask: u32 = self.hash4_mask;
        let hash4: u32 = tmp4 & mask;
        assert(tmp2 & 0x3FF <= 0x3FF) by (bit_vector);
        assert(tmp3 & 0xFFFF <= 0xFFFF) by (bit_vector);
        assert(tmp4 & mask <= mask) by (bit_vector);
        self.hash2_value = hash2 as i32;
        self.hash3_value = hash3 as i32;
        self.hash4_value = hash4 as i32;
    }

    /// The stored position of the current two byte hash.
    pub fn get_hash2_pos(&self) -> (pos: i32)
        requires
            self.wf(),
        ensures
            pos == self.table2()[self.value2()],
    {
        self.hash2_table.get(self.hash2_value as usize)
    }

    /// The stored position of the current three byte hash.
    pub fn get_hash3_pos(&self) -> (pos: i32)
        requires
            self.wf(),
        ensures
            pos == self.table3()[self.value3()],
    {
        self.hash3_table.get(self.hash3_value as usize)
    }

    /// The stored position of the current four byte hash.
    pub fn get_hash4_pos(&self) -> (pos: i32)
        requires
            self.wf(),
        ensures
            pos == self.table4()[self.value4()],
    {
        self.hash4_table.get(self.hash4_value as usize)
    }

    /// Stores `pos` in the slots of the current hashes.
    pub fn update_tables(&mut self, pos: i32)
        requires
            old(self).wf(),
        ensures
            final(self).wf(),
            final(self).table2() == old(self).table2().update(old(self).value2(), pos),
            final(self).table3() == old(self).table3().update(old(self).value3(), pos),
            final(self).table4() == old(self).table4().update(old(self).value4(), pos),
            final(self).mask4() == old(self).mask4(),
            final(self).value2() == old(self).value2(),
            final(self).value3() == old(self).value3(),
            final(self).value4() == old(self).value4(),
    {
        self.hash2_table.set(self.hash2_value as usize, pos);
        self.hash3_table.set(self.hash3_value as usize, pos);
        self.hash4_table.set(self.hash4_value as usize, pos);
    }

    /// Takes `offset` off every stored position.
    pub fn normalize(&mut self, offset: i32)
        requires
            old(self).wf(),
            offset >= 0,
        ensures
            final(self).wf(),
            super::normalize::all_normalized(old(self).table2(), offset, final(self).table2()),
            super::normalize::all_normalized(old(self).table3(), offset, final(self).table3()),
            super::normalize::all_normalized(old(self).table4(), offset, final(self).table4()),
            final(self).mask4() == old(self).mask4(),
            final(self).value2() == old(self).value2(),
            final(self).value3() == old(self).value3(),
            final(self).value4() == old(self).value4(),
    {
        normalize(self.hash2_table.as_mut(), offset);
        normalize(self.hash3_table.as_mut(), offset);
        normalize(self.hash4_table.as_mut(), offset);
    }
}

} // verus!
