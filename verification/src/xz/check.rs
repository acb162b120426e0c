//! Integrity checks of blocks.

use sha2::Digest;
use vstd::prelude::*;

use crate::error::Error;

verus! {

/// Supported checksum types in XZ format.
#[derive(Debug, Clone, Copy, PartialEq, Eq, Structural)]
pub enum CheckType {
    /// No checksum
    NoCheck,
    /// CRC32
    Crc32,
    /// CRC64
    Crc64,
    /// SHA-256
    Sha256,
}

impl CheckType {
    /// The number by which the format knows the type.
    pub open spec fn number(self) -> u8 {
        match self {
            CheckType::NoCheck => 0x00,
            CheckType::Crc32 => 0x01,
            CheckType::Crc64 => 0x04,
            CheckType::Sha256 => 0x0A,
        }
    }

    /// How many bytes a checksum of this type has.
    pub open spec fn size(self) -> int {
        match self {
            CheckType::NoCheck => 0,
            CheckType::Crc32 => 4,
            CheckType::Crc64 => 8,
            CheckType::Sha256 => 32,
        }
    }

    /// The checksum of `data`.
    pub open spec fn checksum(self, data: Seq<u8>) -> Seq<u8> {
        match self {
            CheckType::NoCheck => Seq::empty(),
            CheckType::Crc32 => le_bytes(crc32_of(data) as int, 4),
            CheckType::Crc64 => le_bytes(crc64_of(data) as int, 8),
            CheckType::Sha256 => sha256_of(data),
        }
    }

    /// The type with a given number.
    pub fn from_byte(byte: u8) -> (result: Result<Self, Error>)
        ensures
            match result {
                Ok(check_type) => check_type.number() == byte,
                Err(error) => {
                    &&& error == Error::InvalidData("unsupported XZ check type")
                    &&& forall|check_type: CheckType| #[trigger] check_type.number() != byte
                },
            },
    {
        match byte {
            0x00 => Ok(CheckType::NoCheck),
            0x01 => Ok(CheckType::Crc32),
            0x04 => Ok(CheckType::Crc64),
            0x0A => Ok(CheckType::Sha256),
            _ => Err(Error::InvalidData("unsupported XZ check type")),
        }
    }

    /// The number by which the format knows the type.
    pub fn to_byte(self) -> (byte: u8)
        ensures
            byte == self.number(),
    {
        match self {
            CheckType::NoCheck => 0x00,
            CheckType::Crc32 => 0x01,
            CheckType::Crc64 => 0x04,
            CheckType::Sha256 => 0x0A,
        }
    }

    /// How many bytes a checksum of this type has.
    pub fn checksum_size(self) -> (size: u64)
        ensures
            size == self.size(),
    {
        match self {
            CheckType::NoCheck => 0,
            CheckType::Crc32 => 4,
            CheckType::Crc64 => 8,
            CheckType::Sha256 => 32,
        }
    }

    /// The checksum is that of all the data, however much it is: the number of a CRC is written out
    /// with the least significant byte first, and a SHA-256 digest is taken as it is.
    pub proof fn lemma_checksum_is_of_all_data(data: Seq<u8>)
        ensures
            CheckType::NoCheck.checksum(data) == Seq::<u8>::empty(),
            ({
                let b = CheckType::Crc32.checksum(data);
                &&& b.len() == 4
                &&& b[0] + 0x100 * b[1] + 0x10000 * b[2] + 0x1000000 * b[3] == crc32_of(data)
            }),
            ({
                let b = CheckType::Crc64.checksum(data);
                let low = b[0] + 0x100 * b[1] + 0x10000 * b[2] + 0x1000000 * b[3];
                let high = b[4] + 0x100 * b[5] + 0x10000 * b[6] + 0x1000000 * b[7];
                &&& b.len() == 8
                &&& low + 0x1_0000_0000 * high == crc64_of(data)
            }),
            CheckType::Sha256.checksum(data) == sha256_of(data),
    {
        lemma_crc32_bytes(crc32_of(data));
        lemma_crc64_bytes(crc64_of(data));
    }

    /// No two types have the same number.
    pub proof fn lemma_numbers_differ(a: CheckType, b: CheckType)
        requires
            a.number() == b.number(),
        ensures
            a == b,
    {
    }
}

/// `value` in `n` bytes, the least significant first.
pub open spec fn le_bytes(value: int, n: nat) -> Seq<u8>
    decreases n,
{
    if n == 0 {
        Seq::empty()
    } else {
        seq![(value % 0x100) as u8] + le_bytes(value / 0x100, (n - 1) as nat)
    }
}

/// The four bytes stand for the number, each for 256 times as much as the one before it.
pub open spec fn is_crc32(bytes: Seq<u8>, crc: u32) -> bool {
    &&& bytes.len() == 4
    &&& bytes[0] + 0x100 * bytes[1] + 0x10000 * bytes[2] + 0x1000000 * bytes[3] == crc
}

/// The eight bytes stand for the number, each for 256 times as much as the one before it.
pub open spec fn is_crc64(bytes: Seq<u8>, crc: u64) -> bool {
    let low = bytes[0] + 0x100 * bytes[1] + 0x10000 * bytes[2] + 0x1000000 * bytes[3];
    let high = bytes[4] + 0x100 * bytes[5] + 0x10000 * bytes[6] + 0x1000000 * bytes[7];
    &&& bytes.len() == 8
    &&& low + 0x1_0000_0000 * high == crc
}

proof fn lemma_crc32_bytes(crc: u32)
    ensures
        is_crc32(le_bytes(crc as int, 4), crc),
{
    lemma_le_bytes_len(crc as int, 4);
    reveal_with_fuel(le_bytes, 5);
    let b = le_bytes(crc as int, 4);
    assert(b[0] == crc as int % 0x100);
    assert(b[1] == crc as int / 0x100 % 0x100);
    assert(b[2] == crc as int / 0x100 / 0x100 % 0x100);
    assert(b[3] == crc as int / 0x100 / 0x100 / 0x100 % 0x100);
}

#[verifier::spinoff_prover]
#[verifier::rlimit(60)]
proof fn lemma_crc64_bytes(crc: u64)
    ensures
        is_crc64(le_bytes(crc as int, 8), crc),
{
    lemma_le_bytes_len(crc as int, 8);
    let low = crc as int % 0x1_0000_0000;
    let high = crc as int / 0x1_0000_0000;
    lemma_crc32_bytes(low as u32);
    lemma_crc32_bytes(high as u32);
    reveal_with_fuel(le_bytes, 9);
    let b = le_bytes(crc as int, 8);
    let c = crc as int;
    assert(b[0] == c % 0x100);
    assert(b[1] == c / 0x100 % 0x100);
    assert(b[2] == c / 0x100 / 0x100 % 0x100);
    assert(b[3] == c / 0x100 / 0x100 / 0x100 % 0x100);
    assert(b[4] == c / 0x100 / 0x100 / 0x100 / 0x100 % 0x100);
    assert(b[5] == c / 0x100 / 0x100 / 0x100 / 0x100 / 0x100 % 0x100);
    assert(b[6] == c / 0x100 / 0x100 / 0x100 / 0x100 / 0x100 / 0x100 % 0x100);
    assert(b[7] == c / 0x100 / 0x100 / 0x100 / 0x100 / 0x100 / 0x100 / 0x100 % 0x100);
}

pub proof fn lemma_le_bytes_len(value: int, n: nat)
    ensures
        le_bytes(value, n).len() == n,
    decreases n,
{
    if n > 0 {
        lemma_le_bytes_len(value / 0x100, (n - 1) as nat);
    }
}

/// Appends `value` in `n` bytes, the least significant first.
pub fn push_le_bytes(out: &mut Vec<u8>, value: u64, n: usize)
    requires
        n <= 8,
    ensures
        final(out)@ == old(out)@ + le_bytes(value as int, n as nat),
{
    let mut left: u64 = value;
    let mut i: usize = 0;
    assert(out@ + le_bytes(value as int, n as nat) == old(out)@ + le_bytes(value as int, n as nat));
    while i < n
        invariant
            i <= n,
            out@ + le_bytes(left as int, (n - i) as nat) == old(out)@ + le_bytes(
                value as int,
                n as nat,
            ),
        decreases n - i,
    {
        let ghost before = out@;
        let ghost rest = le_bytes((left / 0x100) as int, (n - i - 1) as nat);
        out.push((left % 0x100) as u8);
        assert(out@ + rest =~= before + le_bytes(left as int, (n - i) as nat));
        left = left / 0x100;
        i += 1;
    }
    assert(out@ + Seq::<u8>::empty() =~= out@);
}

/// The CRC-32 (ISO HDLC) of the data.
pub uninterp spec fn crc32_of(data: Seq<u8>) -> u32;

/// The CRC-64 (XZ) of the data.
pub uninterp spec fn crc64_of(data: Seq<u8>) -> u64;

/// The SHA-256 digest of the data.
pub uninterp spec fn sha256_of(data: Seq<u8>) -> Seq<u8>;

/// Calls `crc::Crc::<u32, crc::Table<16>>::checksum` with the algorithm `CRC_32_ISO_HDLC`. Its
/// result depends on nothing but the bytes, and is what `crc32_of` stands for.
#[verifier::external_body]
fn crc32(data: &[u8]) -> (crc: u32)
    ensures
        crc == crc32_of(data@),
{
    crc::Crc::<u32, crc::Table<16>>::new(&crc::CRC_32_ISO_HDLC).checksum(data)
}

/// Calls `crc::Crc::<u64, crc::Table<16>>::checksum` with the algorithm `CRC_64_XZ`. Its result
/// depends on nothing but the bytes, and is what `crc64_of` stands for.
#[verifier::external_body]
fn crc64(data: &[u8]) -> (crc: u64)
    ensures
        crc == crc64_of(data@),
{
    crc::Crc::<u64, crc::Table<16>>::new(&crc::CRC_64_XZ).checksum(data)
}

/// Calls `sha2::Sha256::digest`. Its result depends on nothing but the bytes, and is what
/// `sha256_of` stands for. It always has 32 bytes.
#[verifier::external_body]
fn sha256(data: &[u8]) -> (digest: Vec<u8>)
    ensures
        digest@ == sha256_of(data@),
        digest@.len() == 32,
{
    sha2::Sha256::digest(data).to_vec()
}

/// Handles checksum calculation for different XZ check types. The bytes are kept until the
/// checksum is asked for.
pub struct ChecksumCalculator {
    check_type: CheckType,
    data: Vec<u8>,
}

impl ChecksumCalculator {
    /// The type of the checksum.
    pub closed spec fn kind(&self) -> CheckType {
        self.check_type
    }

    /// The bytes the checksum is of. Without a checksum no bytes matter.
    pub closed spec fn bytes(&self) -> Seq<u8> {
        self.data@
    }

    /// Starts a checksum.
    pub fn new(check_type: CheckType) -> (calculator: Self)
        ensures
            calculator.kind() == check_type,
            calculator.bytes() == Seq::<u8>::empty(),
    {
        ChecksumCalculator { check_type, data: Vec::new() }
    }

    /// The type of the checksum.
    pub fn check_type(&self) -> (check_type: CheckType)
        ensures
            check_type == self.kind(),
    {
        self.check_type
    }

    /// Adds bytes.
    pub fn update(&mut self, data: &[u8])
        ensures
            final(self).kind() == old(self).kind(),
            final(self).kind() != CheckType::NoCheck ==> final(self).bytes() == old(self).bytes()
                + data@,
    {
        match self.check_type {
            CheckType::NoCheck => {},
            _ => {
                self.data.extend_from_slice(data);
            },
        }
    }

    /// Whether the checksum is the expected one. Without a checksum anything is.
    pub fn verify(self, expected: &[u8]) -> (ok: bool)
        ensures
            ok == (self.kind() == CheckType::NoCheck || expected@ == self.kind().checksum(
                self.bytes(),
            )),
            match self.kind() {
                CheckType::NoCheck => ok,
                CheckType::Crc32 => ok == is_crc32(expected@, crc32_of(self.bytes())),
                CheckType::Crc64 => ok == is_crc64(expected@, crc64_of(self.bytes())),
                CheckType::Sha256 => ok == (expected@ == sha256_of(self.bytes())),
            },
    {
        match self.check_type {
            CheckType::NoCheck => true,
            _ => {
                let checksum = self.finalize_to_bytes();
                proof {
                    let (crc32, crc64) = (crc32_of(self.bytes()), crc64_of(self.bytes()));
                    if self.check_type == CheckType::Crc32 && is_crc32(expected@, crc32) {
                        lemma_same_four_bytes(checksum@, expected@, crc32);
                    }
                    if self.check_type == CheckType::Crc64 && is_crc64(expected@, crc64) {
                        lemma_same_eight_bytes(checksum@, expected@, crc64);
                    }
                }
                same_bytes(checksum.as_slice(), expected)
            },
        }
    }

    /// The checksum.
    pub fn finalize_to_bytes(self) -> (checksum: Vec<u8>)
        ensures
            checksum@ == self.kind().checksum(self.bytes()),
            checksum@.len() == self.kind().size(),
            match self.kind() {
                CheckType::NoCheck => checksum@.len() == 0,
                CheckType::Crc32 => is_crc32(checksum@, crc32_of(self.bytes())),
                CheckType::Crc64 => is_crc64(checksum@, crc64_of(self.bytes())),
                CheckType::Sha256 => checksum@ == sha256_of(self.bytes()),
            },
    {
        let mut checksum: Vec<u8> = Vec::new();
        match self.check_type {
            CheckType::NoCheck => {},
            CheckType::Crc32 => {
                let crc: u32 = crc32(self.data.as_slice());
                push_le_bytes(&mut checksum, crc as u64, 4);
                proof {
                    lemma_le_bytes_len(crc as int, 4);
                }
            },
            CheckType::Crc64 => {
                let crc: u64 = crc64(self.data.as_slice());
                push_le_bytes(&mut checksum, crc, 8);
                proof {
                    lemma_le_bytes_len(crc as int, 8);
                }
            },
            CheckType::Sha256 => {
                checksum = sha256(self.data.as_slice());
            },
        }
        assert(checksum@ =~= self.kind().checksum(self.bytes()));
        proof {
            CheckType::lemma_checksum_is_of_all_data(self.bytes());
        }
        checksum
    }
}

proof fn lemma_same_digits(a: int, b: int, more_a: int, more_b: int, base: int)
    requires
        base == 0x100 || base == 0x1_0000_0000,
        0 <= a < base,
        0 <= b < base,
        a + base * more_a == b + base * more_b,
    ensures
        a == b,
        more_a == more_b,
{
}

/// A number is written in four bytes in one way only.
pub proof fn lemma_same_four_bytes(a: Seq<u8>, b: Seq<u8>, crc: u32)
    requires
        is_crc32(a, crc),
        is_crc32(b, crc),
    ensures
        a == b,
{
    let a3 = a[2] + 0x100 * a[3];
    let b3 = b[2] + 0x100 * b[3];
    let a2 = a[1] + 0x100 * a3;
    let b2 = b[1] + 0x100 * b3;
    lemma_same_digits(a[0] as int, b[0] as int, a2, b2, 0x100);
    lemma_same_digits(a[1] as int, b[1] as int, a3, b3, 0x100);
    lemma_same_digits(a[2] as int, b[2] as int, a[3] as int, b[3] as int, 0x100);
    assert(a =~= b);
}

/// A number is written in eight bytes in one way only.
#[verifier::spinoff_prover]
#[verifier::rlimit(60)]
pub proof fn lemma_same_eight_bytes(a: Seq<u8>, b: Seq<u8>, crc: u64)
    requires
        is_crc64(a, crc),
        is_crc64(b, crc),
    ensures
        a == b,
{
    let u = a[0] + 0x100 * a[1] + 0x10000 * a[2] + 0x1000000 * a[3];
    let v = b[0] + 0x100 * b[1] + 0x10000 * b[2] + 0x1000000 * b[3];
    let x = a[4] + 0x100 * a[5] + 0x10000 * a[6] + 0x1000000 * a[7];
    let y = b[4] + 0x100 * b[5] + 0x10000 * b[6] + 0x1000000 * b[7];
    lemma_same_digits(u, v, x, y, 0x1_0000_0000);
    lemma_same_four_bytes(a.take(4), b.take(4), u as u32);
    lemma_same_four_bytes(a.skip(4), b.skip(4), x as u32);
    assert(a =~= a.take(4) + a.skip(4));
    assert(b =~= b.take(4) + b.skip(4));
}

/// Whether two runs of bytes are the same.
pub fn same_bytes(a: &[u8], b: &[u8]) -> (same: bool)
    ensures
        same == (a@ == b@),
{
    if a.len() != b.len() {
        return false;
    }
    let mut i: usize = 0;
    while i < a.len()
        invariant
            i <= a@.len(),
            a@.len() == b@.len(),
            forall|j: int| 0 <= j < i ==> a@[j] == b@[j],
        decreases a@.len() - i,
    {
        if a[i] != b[i] {
            return false;
        }
        i += 1;
    }
    assert(a@ =~= b@);
    true
}

/// The bytes that a checksum gets in two updates count as much as all of them in one: what comes
/// out in the end is the checksum of all bytes, however long they are.
pub proof fn lemma_updates_add_up(
    kind: CheckType,
    c: &mut ChecksumCalculator,
    d: &mut ChecksumCalculator,
    a: &[u8],
    b: &[u8],
    checksum: Vec<u8>,
)
    requires
        call_ensures(ChecksumCalculator::new, (kind,), *old(c)),
        call_ensures(ChecksumCalculator::update, (c, a), ()),
        *old(d) == *final(c),
        call_ensures(ChecksumCalculator::update, (d, b), ()),
        call_ensures(ChecksumCalculator::finalize_to_bytes, (*final(d),), checksum),
    ensures
        match kind {
            CheckType::NoCheck => checksum@.len() == 0,
            CheckType::Crc32 => {
                let s = checksum@;
                &&& s.len() == 4
                &&& s[0] + 0x100 * s[1] + 0x10000 * s[2] + 0x1000000 * s[3] == crc32_of(a@ + b@)
            },
            CheckType::Crc64 => {
                let s = checksum@;
                let low = s[0] + 0x100 * s[1] + 0x10000 * s[2] + 0x1000000 * s[3];
                let high = s[4] + 0x100 * s[5] + 0x10000 * s[6] + 0x1000000 * s[7];
                &&& s.len() == 8
                &&& low + 0x1_0000_0000 * high == crc64_of(a@ + b@)
            },
            CheckType::Sha256 => checksum@ == sha256_of(a@ + b@),
        },
{
    assert(Seq::<u8>::empty() + a@ + b@ =~= a@ + b@);
}

/// What one calculator puts out, another one of the same type accepts if it got the same bytes. If
/// it got others, it accepts that only if these have the same checksum.
pub proof fn lemma_own_checksum_is_accepted(
    c: ChecksumCalculator,
    d: ChecksumCalculator,
    checksum: Vec<u8>,
    expected: &[u8],
    ok: bool,
)
    requires
        c.kind() == d.kind(),
        call_ensures(ChecksumCalculator::finalize_to_bytes, (c,), checksum),
        expected@ == checksum@,
        call_ensures(ChecksumCalculator::verify, (d, expected), ok),
    ensures
        c.bytes() == d.bytes() ==> ok,
        ok ==> match c.kind() {
            CheckType::NoCheck => true,
            CheckType::Crc32 => crc32_of(c.bytes()) == crc32_of(d.bytes()),
            CheckType::Crc64 => crc64_of(c.bytes()) == crc64_of(d.bytes()),
            CheckType::Sha256 => sha256_of(c.bytes()) == sha256_of(d.bytes()),
        },
{
}

} // verus!
