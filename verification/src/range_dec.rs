//! The range decoder.

use vstd::arithmetic::power2::{
    lemma_pow2_pos, lemma_pow2_strictly_increases, lemma_pow2_unfold, pow2,
};
use vstd::prelude::*;

use crate::error::Error;
use crate::io::{read_exact, read_u32_be, read_u8, Read};

verus! {

/// How many bits a normalization brings in.
pub const SHIFT_BITS: u32 = 8;

/// Probabilities have this many bits.
pub const BIT_MODEL_TOTAL_BITS: u32 = 11;

/// A probability of one.
pub const BIT_MODEL_TOTAL: u16 = 0x800;

/// How fast probabilities adapt.
pub const MOVE_BITS: u32 = 5;

/// The state of a range decoder together with its input.
#[verifier::ext_equal]
pub struct Coder {
    pub range: int,
    pub code: int,
    /// The bytes to come.
    pub bytes: Seq<u8>,
    /// Whether zeros follow the last byte without end.
    pub padded: bool,
    /// Whether such a zero has been read.
    pub overrun: bool,
}

impl Coder {
    /// There is a next byte.
    pub open spec fn has_next(self) -> bool {
        self.bytes.len() > 0 || self.padded
    }

    /// The state after another byte has been brought in, if the range had become too small.
    pub open spec fn normalized(self) -> Coder {
        if self.range >= 0x1000000 {
            self
        } else {
            let byte = if self.bytes.len() > 0 { self.bytes[0] as int } else { 0 };
            Coder {
                range: self.range * 0x100,
                code: self.code % 0x1000000 * 0x100 + byte,
                bytes: if self.bytes.len() > 0 { self.bytes.skip(1) } else { self.bytes },
                padded: self.padded,
                overrun: self.overrun || self.bytes.len() == 0,
            }
        }
    }

    /// Normalization does not run out of input.
    pub open spec fn can_normalize(self) -> bool {
        self.range >= 0x1000000 || self.has_next()
    }

    /// The part of the range that stands for a zero bit of probability `prob`.
    pub open spec fn bound(self, prob: u16) -> int {
        self.range / 0x800 * prob
    }

    /// Whether the next bit is one.
    pub open spec fn bit(self, prob: u16) -> bool {
        self.normalized().code >= self.normalized().bound(prob)
    }

    /// The state after the next bit.
    pub open spec fn after_bit(self, prob: u16) -> Coder {
        let n = self.normalized();
        if self.bit(prob) {
            Coder { range: n.range - n.bound(prob), code: n.code - n.bound(prob), ..n }
        } else {
            Coder { range: n.bound(prob), ..n }
        }
    }

    /// Whether the next bit without a probability is one.
    pub open spec fn direct_bit(self) -> bool {
        let n = self.normalized();
        n.range / 2 <= n.code < n.range / 2 + 0x80000000
    }

    /// The state after the next bit without a probability.
    pub open spec fn after_direct_bit(self) -> Coder {
        let n = self.normalized();
        if self.direct_bit() {
            Coder { range: n.range / 2, code: n.code - n.range / 2, ..n }
        } else {
            Coder { range: n.range / 2, ..n }
        }
    }

    /// The code lies in the range, and the range is large enough to tell bits apart.
    pub open spec fn in_range(self) -> bool {
        &&& 0 <= self.code < self.range
        &&& 0x10000 <= self.range <= 0xFFFFFFFF
    }
}

/// A probability after it has been adapted to a bit.
pub open spec fn adapted(prob: u16, bit: bool) -> u16 {
    if bit {
        (prob - prob / 0x20) as u16
    } else {
        (prob + (0x800 - prob) / 0x20) as u16
    }
}

/// All probabilities are at most one.
pub open spec fn all_probs(probs: Seq<u16>) -> bool {
    forall|i: int| 0 <= i < probs.len() ==> #[trigger] probs[i] <= BIT_MODEL_TOTAL
}

/// What decoding a symbol leads to: the state, the probabilities, and the symbol. There is nothing
/// if the input runs out.
pub type Decoded = Option<(Coder, Seq<u16>, int)>;

/// Decodes the rest of a symbol, of which `symbol` are the bits so far behind a leading one.
pub open spec fn bit_tree(coder: Coder, probs: Seq<u16>, symbol: int) -> Decoded
    decreases
        if symbol < probs.len() {
            probs.len() - symbol
        } else {
            0
        },
{
    if symbol < 1 || symbol >= probs.len() {
        Some((coder, probs, symbol - probs.len()))
    } else if !coder.can_normalize() {
        None
    } else {
        let bit = coder.bit(probs[symbol]);
        bit_tree(
            coder.after_bit(probs[symbol]),
            probs.update(symbol, adapted(probs[symbol], bit)),
            2 * symbol + if bit {
                1int
            } else {
                0
            },
        )
    }
}

/// Decodes the rest of a symbol whose least significant bit comes first. The next bit counts
/// `weight`.
pub open spec fn reverse_bit_tree(
    coder: Coder,
    probs: Seq<u16>,
    symbol: int,
    weight: int,
    result: int,
) -> Decoded
    decreases
        if symbol < probs.len() {
            probs.len() - symbol
        } else {
            0
        },
{
    if symbol < 1 || symbol >= probs.len() {
        Some((coder, probs, result))
    } else if !coder.can_normalize() {
        None
    } else {
        let bit = coder.bit(probs[symbol]);
        reverse_bit_tree(
            coder.after_bit(probs[symbol]),
            probs.update(symbol, adapted(probs[symbol], bit)),
            2 * symbol + if bit {
                1int
            } else {
                0
            },
            2 * weight,
            result + if bit {
                weight
            } else {
                0
            },
        )
    }
}

/// Decodes `count` more bits without probabilities, the most significant first. Of the result only
/// the lowest 32 bits are kept.
pub open spec fn direct_bits(coder: Coder, count: nat, result: int) -> Option<(Coder, int)>
    decreases count,
{
    if count == 0 {
        Some((coder, result))
    } else if !coder.can_normalize() {
        None
    } else {
        direct_bits(
            coder.after_direct_bit(),
            (count - 1) as nat,
            result % 0x80000000 * 2 + if coder.direct_bit() {
                1int
            } else {
                0
            },
        )
    }
}

/// A probability that is neither too close to zero nor to one stays so.
pub proof fn lemma_adapted_stays_in_range(prob: u16, bit: bool)
    requires
        31 <= prob <= 2017,
    ensures
        31 <= adapted(prob, bit) <= 2017,
{
}

/// Decoding a bit keeps the code in the range.
pub proof fn lemma_bit_stays_in_range(coder: Coder, prob: u16)
    requires
        coder.in_range(),
        31 <= prob <= 2017,
    ensures
        coder.after_bit(prob).in_range(),
{
    let n = coder.normalized();
    let q = n.range / 0x800;
    assert(q * 31 <= q * prob <= q * 2017) by (nonlinear_arith)
        requires
            q >= 0,
            31 <= prob <= 2017,
    ;
}

/// Decoding a bit without a probability keeps the code in the range.
pub proof fn lemma_direct_bit_stays_in_range(coder: Coder)
    requires
        coder.in_range(),
        coder.normalized().range % 2 == 0 || coder.normalized().code < coder.normalized().range - 1,
    ensures
        coder.after_direct_bit().in_range(),
{
}

/// Bringing in a byte multiplies range and code by 256, and the byte is added to the code. This is
/// done once, when the range has less than 25 bits, and then the range has them.
pub proof fn lemma_normalized_brings_in_a_byte(coder: Coder)
    requires
        0 <= coder.code < coder.range,
        0x10000 <= coder.range <= 0xFFFFFFFF,
        coder.bytes.len() > 0,
    ensures
        0x1000000 <= coder.normalized().range <= 0xFFFFFFFF,
        0 <= coder.normalized().code < coder.normalized().range,
        coder.range >= 0x1000000 ==> coder.normalized() == coder,
        coder.range < 0x1000000 ==> {
            let n = coder.normalized();
            &&& n.range == 256 * coder.range
            &&& n.code == 256 * coder.code + coder.bytes[0]
            &&& n.bytes.len() == coder.bytes.len() - 1
            &&& n.bytes == coder.bytes.skip(1)
            &&& n.overrun == coder.overrun
        },
{
}

/// A bit splits the range in two: its lower part stands for a zero, and has `prob` of 2048 equal
/// shares of the range, a rest that cannot be shared left aside. The code tells in which part it
/// lies, and counts from the start of that part on.
pub proof fn lemma_bit_splits_range(coder: Coder, prob: u16, share: int)
    requires
        0 <= coder.normalized().code < coder.normalized().range,
        prob <= 2048,
        2048 * share <= coder.normalized().range < 2048 * share + 2048,
    ensures
        ({
            let n = coder.normalized();
            let after = coder.after_bit(prob);
            let zeros = share * prob;
            &&& coder.bit(prob) <==> n.code >= zeros
            &&& coder.bit(prob) ==> after.range == n.range - zeros && after.code == n.code - zeros
            &&& !coder.bit(prob) ==> after.range == zeros && after.code == n.code
            &&& 0 <= after.code < after.range
            &&& after.bytes == n.bytes
            &&& after.overrun == n.overrun
            &&& after.padded == n.padded
        }),
{
    let n = coder.normalized();
    assert(n.range / 2048 == share);
    assert(0 <= share * prob <= n.range) by (nonlinear_arith)
        requires
            2048 * share <= n.range,
            0 <= prob <= 2048,
            share >= 0,
    ;
}

/// Every bit can be told: wherever the code lies in the part of a bit, that bit is decoded, and
/// what is left is the place in the part.
pub proof fn lemma_bit_reads_back(coder: Coder, prob: u16, share: int, bit: bool, place: int)
    requires
        coder.range >= 0x1000000,
        2048 * share <= coder.range < 2048 * share + 2048,
        prob <= 2048,
        0 <= place,
        place < if bit {
            coder.range - share * prob
        } else {
            share * prob
        },
        coder.code == place + if bit {
            share * prob
        } else {
            0
        },
    ensures
        coder.bit(prob) == bit,
        coder.after_bit(prob).code == place,
        coder.after_bit(prob).range == if bit {
            coder.range - share * prob
        } else {
            share * prob
        },
{
    assert(0 <= share * prob <= coder.range) by (nonlinear_arith)
        requires
            2048 * share <= coder.range,
            0 <= prob <= 2048,
            share >= 0,
    ;
    lemma_bit_splits_range(coder, prob, share);
}

/// A probability moves by a thirty-second of the way, rounded down: towards 2048 after a zero, and
/// towards 0 after a one.
pub proof fn lemma_adapted_moves(prob: u16, bit: bool)
    requires
        prob <= 2048,
    ensures
        ({
            let after = adapted(prob, bit) as int;
            let moved = if bit {
                prob - after
            } else {
                after - prob
            };
            let way = if bit {
                prob as int
            } else {
                2048 - prob
            };
            32 * moved <= way < 32 * moved + 32
        }),
        adapted(prob, bit) <= 2048,
{
}

/// A bit without a probability halves the range, and is one in the upper half.
pub proof fn lemma_direct_bit_halves_range(coder: Coder)
    requires
        0 <= coder.normalized().code < coder.normalized().range <= 0xFFFFFFFF,
    ensures
        ({
            let n = coder.normalized();
            let after = coder.after_direct_bit();
            &&& 2 * after.range <= n.range < 2 * after.range + 2
            &&& coder.direct_bit() <==> n.code >= after.range
            &&& after.code == n.code - if coder.direct_bit() {
                after.range
            } else {
                0
            }
            &&& after.bytes == n.bytes
            &&& after.overrun == n.overrun
            &&& after.padded == n.padded
        }),
{
}

/// The first of `count` bits without a probability is the highest one of the result, and the others
/// are those that follow. `result` are the bits before them.
#[verifier::spinoff_prover]
#[verifier::rlimit(60)]
pub proof fn lemma_direct_bits_highest_first(coder: Coder, count: nat, result: int)
    requires
        0 <= result,
        (result + 1) * pow2(count) <= 0x1_0000_0000,
        direct_bits(coder, count, result) is Some,
    ensures
        ({
            let value = (direct_bits(coder, count, result)->0).1;
            &&& result * pow2(count) <= value < (result + 1) * pow2(count)
            &&& count > 0 ==> {
                let first = 2 * result + if coder.direct_bit() {
                    1int
                } else {
                    0
                };
                let half = pow2((count - 1) as nat);
                &&& first * half <= value < (first + 1) * half
                &&& direct_bits(coder, count, result) == direct_bits(
                    coder.after_direct_bit(),
                    (count - 1) as nat,
                    first,
                )
            }
        }),
    decreases count,
{
    vstd::arithmetic::power2::lemma2_to64();
    if count > 0 {
        lemma_pow2_unfold(count);
        let half = pow2((count - 1) as nat) as int;
        lemma_pow2_pos((count - 1) as nat);
        let first = 2 * result + if coder.direct_bit() {
            1int
        } else {
            0
        };
        let (low, high) = (2 * result * half, (2 * result + 2) * half);
        assert(result * pow2(count) == low && (result + 1) * pow2(count) == high)
            by (nonlinear_arith)
            requires
                pow2(count) == 2 * half,
                low == 2 * result * half,
                high == (2 * result + 2) * half,
        ;
        assert(2 * result + 2 <= high && low <= first * half && (first + 1) * half <= high)
            by (nonlinear_arith)
            requires
                half >= 1,
                result >= 0,
                2 * result <= first <= 2 * result + 1,
                low == 2 * result * half,
                high == (2 * result + 2) * half,
        ;
        assert(result % 0x80000000 == result);
        lemma_direct_bits_highest_first(coder.after_direct_bit(), (count - 1) as nat, first);
    } else {
        assert(result * pow2(count) == result && (result + 1) * pow2(count) == result + 1)
            by (nonlinear_arith)
            requires
                pow2(count) == 1,
        ;
    }
}

/// The bits of a symbol come with the highest one first: `symbol` are the first `depth` of `total`
/// bits, behind a leading one. The next one is decoded with the probability that belongs to
/// `symbol`, which alone is adapted to it.
#[verifier::spinoff_prover]
#[verifier::rlimit(60)]
pub proof fn lemma_tree_highest_bit_first(
    coder: Coder,
    probs: Seq<u16>,
    symbol: int,
    depth: nat,
    total: nat,
)
    requires
        depth <= total,
        probs.len() == pow2(total),
        pow2(depth) <= symbol < 2 * pow2(depth),
        bit_tree(coder, probs, symbol) is Some,
    ensures
        ({
            let value = (bit_tree(coder, probs, symbol)->0).2 + probs.len();
            &&& symbol * pow2((total - depth) as nat) <= value < (symbol + 1) * pow2(
                (total - depth) as nat,
            )
            &&& depth < total ==> {
                let bit = coder.bit(probs[symbol]);
                let next = 2 * symbol + if bit {
                    1int
                } else {
                    0
                };
                let rest = pow2((total - depth - 1) as nat);
                &&& next * rest <= value < (next + 1) * rest
                &&& bit_tree(coder, probs, symbol) == bit_tree(
                    coder.after_bit(probs[symbol]),
                    probs.update(symbol, adapted(probs[symbol], bit)),
                    next,
                )
            }
        }),
    decreases total - depth,
{
    vstd::arithmetic::power2::lemma2_to64();
    lemma_pow2_pos(depth);
    lemma_pow2_unfold(depth + 1);
    if depth < total {
        if depth + 1 < total {
            lemma_pow2_strictly_increases(depth + 1, total);
        }
        let bit = coder.bit(probs[symbol]);
        let next = 2 * symbol + if bit {
            1int
        } else {
            0
        };
        let bits = (total - depth) as nat;
        let half = pow2((bits - 1) as nat) as int;
        lemma_pow2_unfold(bits);
        lemma_tree_highest_bit_first(
            coder.after_bit(probs[symbol]),
            probs.update(symbol, adapted(probs[symbol], bit)),
            next,
            depth + 1,
            total,
        );
        lemma_pow2_pos((bits - 1) as nat);
        assert(symbol * pow2(bits) <= next * half && (next + 1) * half <= (symbol + 1) * pow2(bits))
            by (nonlinear_arith)
            requires
                pow2(bits) == 2 * half,
                half >= 1,
                2 * symbol <= next <= 2 * symbol + 1,
        ;
    } else {
        assert(symbol * pow2(0) == symbol && (symbol + 1) * pow2(0) == symbol + 1)
            by (nonlinear_arith)
            requires
                pow2(0) == 1,
        ;
    }
}

/// The lowest `count` bits of `value` in reverse order.
pub open spec fn reversed(value: int, count: nat) -> int
    decreases count,
{
    if count == 0 {
        0
    } else {
        value % 2 * pow2((count - 1) as nat) + reversed(value / 2, (count - 1) as nat)
    }
}

/// Only the entries at these places differ.
pub open spec fn differ_only_at(before: Seq<u16>, after: Seq<u16>, places: Seq<int>) -> bool {
    &&& after.len() == before.len()
    &&& forall|i: int|
        0 <= i < before.len() && !places.contains(i) ==> #[trigger] after[i] == before[i]
}

/// A plain tree and a reverse tree lead to the same, but for the order of the bits.
/// At most `changes` of the probabilities differ from what they were, and the first does not.
pub open spec fn trees_agree(
    plain: Decoded,
    reverse: Decoded,
    probs: Seq<u16>,
    bits: nat,
    changes: nat,
) -> bool {
    &&& plain is Some <==> reverse is Some
    &&& plain is Some ==> {
        let a = plain->0;
        let b = reverse->0;
        &&& a.0 == b.0
        &&& a.1 == b.1
        &&& 0 <= a.2 < pow2(bits)
        &&& b.2 == reversed(a.2, bits)
        &&& exists|places: Seq<int>|
            places.len() <= changes && !places.contains(0) && #[trigger] differ_only_at(
                probs,
                a.1,
                places,
            )
    }
}

/// If only `changes` places differ after one more has been updated, one more differs in all.
proof fn lemma_one_more_place(
    probs: Seq<u16>,
    updated: Seq<u16>,
    after: Seq<u16>,
    symbol: int,
    places: Seq<int>,
)
    requires
        0 < symbol < probs.len(),
        updated.len() == probs.len(),
        forall|i: int| 0 <= i < probs.len() && i != symbol ==> #[trigger] updated[i] == probs[i],
        !places.contains(0),
        differ_only_at(updated, after, places),
    ensures
        !places.push(symbol).contains(0),
        differ_only_at(probs, after, places.push(symbol)),
{
    let all = places.push(symbol);
    assert forall|i: int| 0 <= i < probs.len() && !all.contains(i) implies #[trigger] after[i]
        == probs[i] by {
        if places.contains(i) {
            let j = choose|j: int| 0 <= j < places.len() && places[j] == i;
            assert(all[j] == i);
        }
        assert(i != symbol) by {
            assert(all[places.len() as int] == symbol);
        }
        assert(after[i] == updated[i]);
    }
    assert(!all.contains(0)) by {
        if all.contains(0) {
            let j = choose|j: int| 0 <= j < all.len() && all[j] == 0;
            assert(places[j] == 0);
        }
    }
}

/// The trees agree from every node on: `prefix` are the first `depth` bits.
#[verifier::spinoff_prover]
#[verifier::rlimit(40)]
proof fn lemma_trees_agree_from(
    coder: Coder,
    probs: Seq<u16>,
    bits: nat,
    depth: nat,
    prefix: int,
)
    requires
        probs.len() == pow2(bits),
        depth <= bits,
        0 <= prefix < pow2(depth),
    ensures
        ({
            let symbol = pow2(depth) + prefix;
            trees_agree(
                bit_tree(coder, probs, symbol),
                reverse_bit_tree(
                    coder,
                    probs,
                    symbol,
                    pow2(depth) as int,
                    reversed(prefix, depth),
                ),
                probs,
                bits,
                (bits - depth) as nat,
            )
        }),
    decreases bits - depth,
{
    let symbol = pow2(depth) + prefix;
    lemma_pow2_pos(depth);
    if depth == bits {
        assert(differ_only_at(probs, probs, Seq::<int>::empty()));
    } else {
        lemma_pow2_unfold(depth + 1);
        if depth + 1 < bits {
            lemma_pow2_strictly_increases(depth + 1, bits);
        }
        if !coder.can_normalize() {
            assert(bit_tree(coder, probs, symbol) is None);
        } else {
            let bit = coder.bit(probs[symbol]);
            let digit = if bit { 1int } else { 0 };
            let next = 2 * prefix + digit;
            let updated = probs.update(symbol, adapted(probs[symbol], bit));
            let after = coder.after_bit(probs[symbol]);
            assert(next % 2 == digit);
            assert(next / 2 == prefix);
            lemma_trees_agree_from(after, updated, bits, depth + 1, next);
            let rest = bit_tree(after, updated, 2 * symbol + digit);
            assert(pow2(depth + 1) + next == 2 * symbol + digit);
            assert(reversed(next, depth + 1) == digit * pow2(depth) + reversed(prefix, depth));
            let weight = pow2(depth) as int;
            assert(digit * weight == if bit { weight } else { 0 }) by (nonlinear_arith)
                requires
                    digit == if bit { 1int } else { 0 },
            ;
            assert(symbol < probs.len());
            assert(2 * weight == pow2(depth + 1));
            let start = reversed(prefix, depth);
            let back = reverse_bit_tree(
                after,
                updated,
                2 * symbol + digit,
                2 * weight,
                reversed(next, depth + 1),
            );
            assert(bit_tree(coder, probs, symbol) == rest);
            assert(reverse_bit_tree(coder, probs, symbol, weight, start) == back);
            assert(trees_agree(rest, back, updated, bits, (bits - depth - 1) as nat));
            if rest is Some {
                let end = rest->0;
                let places = choose|places: Seq<int>|
                    places.len() <= bits - depth - 1 && !places.contains(0)
                        && #[trigger] differ_only_at(updated, end.1, places);
                lemma_one_more_place(probs, updated, end.1, symbol, places);
                let all = places.push(symbol);
                assert(all.len() <= bits - depth);
                assert(differ_only_at(probs, end.1, all));
            }
            assert(trees_agree(rest, back, probs, bits, (bits - depth) as nat));
        }
    }
}

/// A reverse tree gives the bits of a plain one in reverse order, and otherwise leads to the same
/// state and the same probabilities. Of these at most one a bit changes, and the first never does.
pub proof fn lemma_reverse_tree_reverses(coder: Coder, probs: Seq<u16>, bits: nat)
    requires
        probs.len() == pow2(bits),
    ensures
        trees_agree(
            bit_tree(coder, probs, 1),
            reverse_bit_tree(coder, probs, 1, 1, 0),
            probs,
            bits,
            bits,
        ),
{
    vstd::arithmetic::power2::lemma2_to64();
    lemma_trees_agree_from(coder, probs, bits, 0, 0);
}

/// Where a range decoder gets its input from.
pub trait RangeReader: Sized {
    /// The bytes to come.
    spec fn bytes(&self) -> Seq<u8>;

    /// Whether zeros follow the last byte without end.
    spec fn padded(&self) -> bool;

    /// Whether such a zero has been read.
    spec fn overrun(&self) -> bool;

    /// How many bytes can be read in advance.
    spec fn capacity(&self) -> int;

    /// The errors with which the source can fail.
    spec fn failures(&self) -> Set<Error>;

    /// Reads one byte.
    fn read_u8(&mut self) -> (result: Result<u8, Error>)
        ensures
            final(self).padded() == old(self).padded(),
            final(self).capacity() == old(self).capacity(),
            final(self).failures() == old(self).failures(),
            match result {
                Ok(byte) => if old(self).bytes().len() > 0 {
                    &&& byte == old(self).bytes()[0]
                    &&& final(self).bytes() == old(self).bytes().skip(1)
                    &&& final(self).overrun() == old(self).overrun()
                } else {
                    &&& old(self).padded()
                    &&& byte == 0
                    &&& final(self).bytes() == old(self).bytes()
                    &&& final(self).overrun()
                },
                Err(error) => old(self).failures().contains(error) || {
                    &&& error == Error::Eof
                    &&& old(self).bytes().len() == 0
                    &&& !old(self).padded()
                },
            },
    ;

    /// Reads a number of four bytes, the most significant first.
    fn read_u32_be(&mut self) -> (result: Result<u32, Error>)
        requires
            old(self).padded() ==> old(self).bytes().len() >= 4,
        ensures
            final(self).padded() == old(self).padded(),
            final(self).capacity() == old(self).capacity(),
            final(self).failures() == old(self).failures(),
            match result {
                Ok(value) => {
                    &&& old(self).bytes().len() >= 4
                    &&& value == crate::io::be32(old(self).bytes())
                    &&& final(self).bytes() == old(self).bytes().skip(4)
                    &&& final(self).overrun() == old(self).overrun()
                },
                Err(error) => old(self).failures().contains(error) || {
                    &&& error == Error::Eof
                    &&& old(self).bytes().len() < 4
                },
            },
    ;
}

impl<T: Read> RangeReader for T {
    open spec fn bytes(&self) -> Seq<u8> {
        self.remaining()
    }

    open spec fn padded(&self) -> bool {
        false
    }

    open spec fn overrun(&self) -> bool {
        false
    }

    open spec fn capacity(&self) -> int {
        0
    }

    open spec fn failures(&self) -> Set<Error> {
        self.errors()
    }

    fn read_u8(&mut self) -> (result: Result<u8, Error>) {
        read_u8(self)
    }

    fn read_u32_be(&mut self) -> (result: Result<u32, Error>) {
        read_u32_be(self)
    }
}

/// Input that has been read in advance.
pub struct RangeDecoderBuffer {
    pub buf: Vec<u8>,
    pub pos: usize,
    /// Whether more has been read than there was.
    pub past_end: bool,
}

impl RangeDecoderBuffer {
    /// A buffer for `len` bytes. There is nothing to read in it.
    pub fn new(len: usize) -> (buffer: Self)
        ensures
            buffer.buf@.len() == len,
            buffer.pos == len,
            !buffer.past_end,
    {
        RangeDecoderBuffer { buf: vec![0u8; len], pos: len, past_end: false }
    }
}

impl RangeReader for RangeDecoderBuffer {
    open spec fn bytes(&self) -> Seq<u8> {
        if self.pos <= self.buf@.len() {
            self.buf@.skip(self.pos as int)
        } else {
            Seq::empty()
        }
    }

    open spec fn padded(&self) -> bool {
        true
    }

    open spec fn overrun(&self) -> bool {
        self.past_end || self.pos > self.buf@.len()
    }

    open spec fn capacity(&self) -> int {
        self.buf@.len() as int
    }

    open spec fn failures(&self) -> Set<Error> {
        Set::empty()
    }

    fn read_u8(&mut self) -> (result: Result<u8, Error>)
        ensures
            final(self).buf@ == old(self).buf@,
            if old(self).pos < old(self).buf@.len() {
                &&& final(self).pos == old(self).pos + 1
                &&& final(self).past_end == old(self).past_end
            } else {
                &&& final(self).pos == old(self).pos
                &&& final(self).past_end
            },
    {
        // Reads past the end give zeros. A decoder that keeps to its input never makes one.
        let byte: u8 = if self.pos < self.buf.len() { self.buf[self.pos] } else { 0 };
        if self.pos < self.buf.len() {
            self.pos = self.pos + 1;
        } else {
            self.past_end = true;
        }
        assert(old(self).bytes().len() > 0 ==> self.bytes() =~= old(self).bytes().skip(1));
        assert(old(self).bytes().len() == 0 ==> self.bytes() =~= old(self).bytes());
        Ok(byte)
    }

    fn read_u32_be(&mut self) -> (result: Result<u32, Error>)
        ensures
            final(self).buf@ == old(self).buf@,
            final(self).pos == old(self).pos + 4,
            final(self).past_end == old(self).past_end,
    {
        let p: usize = self.pos;
        assert(p + 4 <= self.buf.len());
        let value: u32 = self.buf[p] as u32 * 0x1000000 + self.buf[p + 1] as u32 * 0x10000
            + self.buf[p + 2] as u32 * 0x100 + self.buf[p + 3] as u32;
        self.pos = p + 4;
        assert(self.bytes() =~= old(self).bytes().skip(4));
        Ok(value)
    }
}

/// Why the chunk of `len` bytes at the start of `bytes` cannot be decoded.
pub open spec fn chunk_error(bytes: Seq<u8>, len: int) -> Option<Error> {
    if len < 5 {
        Some(Error::InvalidInput("buffer len must >= 5"))
    } else if bytes.len() > 0 && bytes[0] != 0 {
        Some(Error::InvalidInput("first byte is 0"))
    } else if bytes.len() < len {
        Some(Error::Eof)
    } else {
        None
    }
}

/// A chunk can be decoded just if it has room for the first byte and the code, all of it is there,
/// and the first byte is zero.
pub proof fn lemma_chunk_can_be_decoded(bytes: Seq<u8>, len: int)
    ensures
        chunk_error(bytes, len) is None <==> len >= 5 && bytes.len() >= len && bytes[0] == 0,
{
}

pub struct RangeDecoder<R> {
    pub inner: R,
    pub range: u32,
    pub code: u32,
}

impl<R: RangeReader> RangeDecoder<R> {
    /// The state of the decoder together with its input.
    pub open spec fn coder(&self) -> Coder {
        Coder {
            range: self.range as int,
            code: self.code as int,
            bytes: self.inner.bytes(),
            padded: self.inner.padded(),
            overrun: self.inner.overrun(),
        }
    }

    /// The source is the same but for what has been read from it.
    pub open spec fn same_source(&self, before: &Self) -> bool {
        &&& self.inner.padded() == before.inner.padded()
        &&& self.inner.failures() == before.inner.failures()
        &&& self.inner.capacity() == before.inner.capacity()
    }

    /// Starts decoding. The first byte has to be zero, and the code follows.
    pub fn new_stream(inner: R) -> (result: Result<Self, Error>)
        requires
            inner.padded() ==> inner.bytes().len() >= 5,
        ensures
            match result {
                Ok(decoder) => {
                    &&& inner.bytes().len() >= 5
                    &&& inner.bytes()[0] == 0
                    &&& decoder.coder() == (Coder {
                        range: 0xFFFFFFFF,
                        code: crate::io::be32(inner.bytes().skip(1)),
                        bytes: inner.bytes().skip(5),
                        padded: inner.padded(),
                        overrun: inner.overrun(),
                    })
                    &&& decoder.inner.failures() == inner.failures()
                    &&& decoder.inner.capacity() == inner.capacity()
                },
                Err(error) => inner.failures().contains(error) || if inner.bytes().len() > 0
                    && inner.bytes()[0] != 0 {
                    error == Error::InvalidInput("range decoder first byte is 0")
                } else {
                    error == Error::Eof && inner.bytes().len() < 5
                },
            },
    {
        let mut inner = inner;
        let b: u8 = match inner.read_u8() {
            Ok(b) => b,
            Err(error) => {
                return Err(error);
            },
        };
        if b != 0 {
            return Err(Error::InvalidInput("range decoder first byte is 0"));
        }
        match inner.read_u32_be() {
            Ok(code) => Ok(RangeDecoder { inner, code, range: 0xFFFFFFFF }),
            Err(error) => Err(error),
        }
    }

    /// Whether the code is what it has to be at the end of a stream.
    pub fn is_stream_finished(&self) -> (finished: bool)
        ensures
            finished == (self.code == 0),
    {
        self.code == 0
    }

    /// Brings in another byte if the range has become too small.
    pub fn normalize(&mut self) -> (result: Result<(), Error>)
        ensures
            final(self).same_source(old(self)),
            match result {
                Ok(_) => {
                    &&& old(self).coder().can_normalize()
                    &&& final(self).coder() == old(self).coder().normalized()
                },
                Err(error) => old(self).inner.failures().contains(error) || {
                    &&& error == Error::Eof
                    &&& !old(self).coder().can_normalize()
                },
            },
    {
        if self.range < 0x0100_0000 {
            let b: u32 = match self.inner.read_u8() {
                Ok(b) => b as u32,
                Err(error) => {
                    return Err(error);
                },
            };
            let code: u32 = self.code;
            let range: u32 = self.range;
            assert((code << 8u32) | b == (code % 0x1000000) * 0x100 + b) by (bit_vector)
                requires
                    b < 0x100,
            ;
            assert(range << 8u32 == range * 0x100) by (bit_vector)
                requires
                    range < 0x1000000,
            ;
            self.code = (code << SHIFT_BITS) | b;
            self.range = range << SHIFT_BITS;
        }
        Ok(())
    }

    /// Decodes one bit, and adapts its probability.
    #[verifier::spinoff_prover]
    #[verifier::rlimit(60)]
    pub fn decode_bit(&mut self, prob: &mut u16) -> (result: Result<i32, Error>)
        requires
            *old(prob) <= BIT_MODEL_TOTAL,
        ensures
            final(self).same_source(old(self)),
            *final(prob) <= BIT_MODEL_TOTAL,
            match result {
                Ok(bit) => {
                    &&& old(self).coder().can_normalize()
                    &&& bit == if old(self).coder().bit(*old(prob)) {
                        1int
                    } else {
                        0
                    }
                    &&& final(self).coder() == old(self).coder().after_bit(*old(prob))
                    &&& *final(prob) == adapted(*old(prob), bit == 1)
                },
                Err(error) => {
                    &&& *final(prob) == *old(prob)
                    &&& old(self).inner.failures().contains(error) || error == Error::Eof && !old(
                        self,
                    ).coder().can_normalize()
                },
            },
    {
        match self.normalize() {
            Ok(_) => {},
            Err(error) => {
                return Err(error);
            },
        }
        let p: u16 = *prob;
        let range: u32 = self.range;
        assert(range >> 11u32 == range / 0x800) by (bit_vector);
        assert(p >> 5u16 == p / 0x20) by (bit_vector);
        let high: u32 = range >> BIT_MODEL_TOTAL_BITS;
        assert(high * p <= range) by (nonlinear_arith)
            requires
                high == range / 0x800,
                p <= 0x800,
        ;
        let bound: u32 = high * (p as u32);
        if self.code < bound {
            self.range = bound;
            let rest: u16 = BIT_MODEL_TOTAL - p;
            assert(rest >> 5u16 == rest / 0x20) by (bit_vector);
            *prob = p + (rest >> (MOVE_BITS as u16));
            Ok(0)
        } else {
            self.range = self.range - bound;
            self.code = self.code - bound;
            *prob = p - (p >> (MOVE_BITS as u16));
            Ok(1)
        }
    }

    /// Decodes a symbol, the most significant bit first, and adapts the probabilities.
    #[verifier::spinoff_prover]
    #[verifier::rlimit(60)]
    pub fn decode_bit_tree(&mut self, probs: &mut [u16]) -> (result: Result<i32, Error>)
        requires
            2 <= old(probs)@.len() <= 0x4000_0000,
            all_probs(old(probs)@),
        ensures
            final(self).same_source(old(self)),
            final(probs)@.len() == old(probs)@.len(),
            all_probs(final(probs)@),
            match result {
                Ok(symbol) => {
                    &&& bit_tree(old(self).coder(), old(probs)@, 1) == Some(
                        (final(self).coder(), final(probs)@, symbol as int),
                    )
                    &&& 0 <= symbol < old(probs)@.len()
                },
                Err(error) => old(self).inner.failures().contains(error) || {
                    &&& error == Error::Eof
                    &&& bit_tree(old(self).coder(), old(probs)@, 1) is None
                },
            },
    {
        let mut symbol: i32 = 1;
        let ghost expected = bit_tree(self.coder(), probs@, 1);
        while (symbol as usize) < probs.len()
            invariant
                1 <= symbol,
                2 <= probs@.len() <= 0x4000_0000,
                probs@.len() == old(probs)@.len(),
                symbol < 2 * probs@.len(),
                all_probs(probs@),
                self.same_source(old(self)),
                expected == bit_tree(old(self).coder(), old(probs)@, 1),
                expected == bit_tree(self.coder(), probs@, symbol as int),
            decreases
                if symbol < probs@.len() {
                    probs@.len() - symbol
                } else {
                    0
                },
        {
            let ghost before = probs@;
            let mut prob: u16 = probs[symbol as usize];
            let bit: i32 = match self.decode_bit(&mut prob) {
                Ok(bit) => bit,
                Err(error) => {
                    return Err(error);
                },
            };
            probs[symbol as usize] = prob;
            symbol = 2 * symbol + bit;
        }
        Ok(symbol - probs.len() as i32)
    }

    /// Decodes a symbol, the least significant bit first, and adapts the probabilities.
    #[verifier::spinoff_prover]
    #[verifier::rlimit(60)]
    pub fn decode_reverse_bit_tree(&mut self, probs: &mut [u16]) -> (result: Result<i32, Error>)
        requires
            2 <= old(probs)@.len() <= 0x4000_0000,
            all_probs(old(probs)@),
        ensures
            final(self).same_source(old(self)),
            final(probs)@.len() == old(probs)@.len(),
            all_probs(final(probs)@),
            match result {
                Ok(symbol) => reverse_bit_tree(old(self).coder(), old(probs)@, 1, 1, 0) == Some(
                    (final(self).coder(), final(probs)@, symbol as int),
                ),
                Err(error) => old(self).inner.failures().contains(error) || {
                    &&& error == Error::Eof
                    &&& reverse_bit_tree(old(self).coder(), old(probs)@, 1, 1, 0) is None
                },
            },
    {
        let mut symbol: i32 = 1;
        let mut weight: u32 = 1;
        let mut total: i32 = 0;
        let ghost expected = reverse_bit_tree(self.coder(), probs@, 1, 1, 0);
        while (symbol as usize) < probs.len()
            invariant
                1 <= weight <= symbol,
                0 <= total < weight,
                2 <= probs@.len() <= 0x4000_0000,
                probs@.len() == old(probs)@.len(),
                symbol < 2 * probs@.len(),
                all_probs(probs@),
                self.same_source(old(self)),
                expected == reverse_bit_tree(old(self).coder(), old(probs)@, 1, 1, 0),
                expected == reverse_bit_tree(
                    self.coder(),
                    probs@,
                    symbol as int,
                    weight as int,
                    total as int,
                ),
            decreases
                if symbol < probs@.len() {
                    probs@.len() - symbol
                } else {
                    0
                },
        {
            let mut prob: u16 = probs[symbol as usize];
            let bit: i32 = match self.decode_bit(&mut prob) {
                Ok(bit) => bit,
                Err(error) => {
                    return Err(error);
                },
            };
            probs[symbol as usize] = prob;
            symbol = 2 * symbol + bit;
            if bit == 1 {
                total = total + weight as i32;
            }
            weight = 2 * weight;
        }
        Ok(total)
    }

    /// Decodes `count` bits that have no probabilities, the most significant first.
    #[verifier::spinoff_prover]
    #[verifier::rlimit(60)]
    pub fn decode_direct_bits(&mut self, count: u32) -> (result: Result<i32, Error>)
        ensures
            final(self).same_source(old(self)),
            match result {
                Ok(bits) => direct_bits(old(self).coder(), count as nat, 0) matches Some(end) && {
                    &&& end.0 == final(self).coder()
                    &&& 0 <= end.1 <= 0xFFFFFFFF
                    &&& bits == (end.1 as u32) as i32
                },
                Err(error) => old(self).inner.failures().contains(error) || {
                    &&& error == Error::Eof
                    &&& direct_bits(old(self).coder(), count as nat, 0) is None
                },
            },
    {
        let mut total: u32 = 0;
        let mut left: u32 = count;
        let ghost expected = direct_bits(self.coder(), count as nat, 0);
        while left > 0
            invariant
                self.same_source(old(self)),
                expected == direct_bits(old(self).coder(), count as nat, 0),
                expected == direct_bits(self.coder(), left as nat, total as int),
            decreases left,
        {
            match self.normalize() {
                Ok(_) => {},
                Err(error) => {
                    return Err(error);
                },
            }
            let range: u32 = self.range;
            assert(range >> 1u32 == range / 2) by (bit_vector);
            self.range = range >> 1;
            let bit: u32 = if self.code >= self.range && self.code - self.range < 0x8000_0000 {
                self.code = self.code - self.range;
                1
            } else {
                0
            };
            assert((total << 1u32) | bit == (total % 0x80000000) * 2 + bit) by (bit_vector)
                requires
                    bit <= 1,
            ;
            total = (total << 1) | bit;
            left -= 1;
        }
        Ok(total as i32)
    }
}

impl RangeDecoder<RangeDecoderBuffer> {
    /// A decoder for chunks of up to `len` bytes. There is nothing to decode in it.
    pub fn new_buffer(len: usize) -> (decoder: Self)
        requires
            len >= 5,
        ensures
            decoder.inner.buf@.len() == len - 5,
            decoder.inner.pos == len - 5,
            !decoder.inner.past_end,
            decoder.code == 0,
            decoder.range == 0,
    {
        RangeDecoder { inner: RangeDecoderBuffer::new(len - 5), code: 0, range: 0 }
    }

    /// Reads a chunk of `len` bytes and starts decoding it. Its first byte has to be zero, and the
    /// code follows.
    #[verifier::spinoff_prover]
    #[verifier::rlimit(60)]
    pub fn prepare<R: Read>(&mut self, reader: &mut R, len: usize) -> (result: Result<(), Error>)
        requires
            len <= old(self).inner.buf@.len() + 5,
        ensures
            final(self).inner.buf@.len() == old(self).inner.buf@.len(),
            final(reader).errors() == old(reader).errors(),
            len < 5 ==> *final(self) == *old(self) && *final(reader) == *old(reader),
            match result {
                Ok(_) => {
                    let bytes = old(reader).remaining();
                    &&& chunk_error(bytes, len as int) is None
                    &&& final(self).coder() == (Coder {
                        range: 0xFFFFFFFF,
                        code: crate::io::be32(bytes.skip(1)),
                        bytes: bytes.subrange(5, len as int),
                        padded: true,
                        overrun: false,
                    })
                    &&& final(self).inner.pos <= final(self).inner.buf@.len()
                    &&& final(reader).remaining() == bytes.skip(len as int)
                },
                Err(error) => {
                    ||| len >= 5 && old(reader).errors().contains(error)
                    ||| chunk_error(old(reader).remaining(), len as int) == Some(error)
                },
            },
    {
        if len < 5 {
            return Err(Error::InvalidInput("buffer len must >= 5"));
        }
        let b: u8 = match read_u8(reader) {
            Ok(b) => b,
            Err(error) => {
                return Err(error);
            },
        };
        if b != 0 {
            return Err(Error::InvalidInput("first byte is 0"));
        }
        self.code = match read_u32_be(reader) {
            Ok(code) => code,
            Err(error) => {
                return Err(error);
            },
        };
        self.range = 0xFFFFFFFF;
        let pos: usize = self.inner.buf.len() - (len - 5);
        self.inner.pos = pos;
        self.inner.past_end = false;
        let (_, rest) = self.inner.buf.as_mut_slice().split_at_mut(pos);
        let result = read_exact(reader, rest);
        proof {
            if result is Ok {
                let bytes = old(reader).remaining();
                assert(self.inner.bytes() =~= bytes.subrange(5, len as int));
                assert(reader.remaining() =~= bytes.skip(len as int));
            }
        }
        result
    }

    /// Whether all of the chunk has been decoded.
    pub fn is_finished(&self) -> (finished: bool)
        ensures
            finished == (self.coder().bytes.len() == 0 && !self.coder().overrun
                && self.coder().code == 0),
    {
        self.inner.pos == self.inner.buf.len() && !self.inner.past_end && self.code == 0
    }
}

/// Decoding a bit brings in a byte if the range has become small, and then finds the code in one of
/// two parts of the range, of which the lower one has `prob` of 2048 shares. It goes on with that
/// part, and the probability moves a thirty-second of the way towards the bit.
#[verifier::spinoff_prover]
#[verifier::rlimit(60)]
pub proof fn lemma_decode_bit<R: RangeReader>(
    decoder: &mut RangeDecoder<R>,
    prob: &mut u16,
    result: Result<i32, Error>,
    share: int,
)
    requires
        *old(prob) <= 2048,
        call_ensures(RangeDecoder::<R>::decode_bit, (decoder, prob), result),
        old(decoder).code < old(decoder).range,
        0x10000 <= old(decoder).range,
        old(decoder).inner.bytes().len() > 0,
        ({
            let range = if old(decoder).range >= 0x1000000 {
                old(decoder).range as int
            } else {
                256 * old(decoder).range
            };
            2048 * share <= range < 2048 * share + 2048
        }),
    ensures
        result is Err ==> old(decoder).inner.failures().contains(result->Err_0),
        result is Ok ==> {
            let small = old(decoder).range < 0x1000000;
            let bytes = old(decoder).inner.bytes();
            let range = if small {
                256 * old(decoder).range
            } else {
                old(decoder).range as int
            };
            let code = if small {
                256 * old(decoder).code + bytes[0]
            } else {
                old(decoder).code as int
            };
            let zeros = share * *old(prob);
            let before = *old(prob) as int;
            let after = *final(prob) as int;
            &&& result->Ok_0 == if code >= zeros {
                1int
            } else {
                0
            }
            &&& final(decoder).inner.bytes() == if small {
                bytes.skip(1)
            } else {
                bytes
            }
            &&& code >= zeros ==> {
                &&& final(decoder).range == range - zeros
                &&& final(decoder).code == code - zeros
                &&& after <= before
                &&& 32 * (before - after) <= before < 32 * (before - after) + 32
            }
            &&& code < zeros ==> {
                &&& final(decoder).range == zeros
                &&& final(decoder).code == code
                &&& after >= before
                &&& 32 * (after - before) <= 2048 - before < 32 * (after - before) + 32
            }
        },
{
    let coder = old(decoder).coder();
    lemma_normalized_brings_in_a_byte(coder);
    lemma_bit_splits_range(coder, *old(prob), share);
    lemma_adapted_moves(*old(prob), coder.bit(*old(prob)));
}

/// The first bit of a symbol is its highest one, and is decoded with the second probability.
pub proof fn lemma_decode_tree<R: RangeReader>(
    decoder: &mut RangeDecoder<R>,
    probs: &mut [u16],
    result: Result<i32, Error>,
    bits: nat,
)
    requires
        1 <= bits <= 30,
        old(probs)@.len() == pow2(bits),
        all_probs(old(probs)@),
        call_ensures(RangeDecoder::<R>::decode_bit_tree, (decoder, probs), result),
        result is Ok,
    ensures
        0 <= result->Ok_0 < pow2(bits),
        2 * result->Ok_0 >= pow2(bits) <==> old(decoder).coder().bit(old(probs)@[1]),
        bit_tree(old(decoder).coder(), old(probs)@, 1) == Some(
            (final(decoder).coder(), final(probs)@, result->Ok_0 as int),
        ),
{
    vstd::arithmetic::power2::lemma2_to64();
    lemma_pow2_unfold(bits);
    lemma_tree_highest_bit_first(old(decoder).coder(), old(probs)@, 1, 0, bits);
    let half = pow2((bits - 1) as nat) as int;
    if old(decoder).coder().bit(old(probs)@[1]) {
        assert(3 * half <= result->Ok_0 + 2 * half);
    } else {
        assert(result->Ok_0 + 2 * half < (2 + 1) * half);
    }
}

/// Bits without a probability are decoded with the highest one first, into a number of so many
/// bits.
pub proof fn lemma_decode_direct_bits<R: RangeReader>(
    decoder: &mut RangeDecoder<R>,
    count: u32,
    result: Result<i32, Error>,
)
    requires
        1 <= count <= 31,
        call_ensures(RangeDecoder::<R>::decode_direct_bits, (decoder, count), result),
        result is Ok,
    ensures
        0 <= result->Ok_0 < pow2(count as nat),
        2 * result->Ok_0 >= pow2(count as nat) <==> old(decoder).coder().direct_bit(),
{
    vstd::arithmetic::power2::lemma2_to64();
    lemma_pow2_unfold(count as nat);
    if count < 32 {
        lemma_pow2_strictly_increases(count as nat, 32);
    }
    lemma_direct_bits_highest_first(old(decoder).coder(), count as nat, 0);
    let half = pow2((count - 1) as nat) as int;
    if old(decoder).coder().direct_bit() {
        assert(1 * half <= result->Ok_0);
    } else {
        assert(result->Ok_0 < (0 + 1) * half);
    }
}

/// Preparing a chunk takes just its bytes from the source. The first has to be zero, the next four
/// are the code, and all others are what is to be decoded.
#[verifier::spinoff_prover]
#[verifier::rlimit(60)]
pub proof fn lemma_prepare_takes_chunk<R: Read>(
    decoder: &mut RangeDecoder<RangeDecoderBuffer>,
    source: &mut R,
    len: usize,
    result: Result<(), Error>,
)
    requires
        len <= old(decoder).inner.buf@.len() + 5,
        call_ensures(
            RangeDecoder::<RangeDecoderBuffer>::prepare::<R>,
            (decoder, source, len),
            result,
        ),
        old(source).errors() == Set::<Error>::empty(),
    ensures
        ({
            let b = old(source).remaining();
            &&& result is Ok <==> len >= 5 && b.len() >= len && b[0] == 0
            &&& result is Ok ==> {
                &&& final(decoder).range == 0xFFFFFFFF
                &&& final(decoder).code == b[1] * 0x1000000 + b[2] * 0x10000 + b[3] * 0x100 + b[4]
                &&& final(decoder).inner.bytes() == b.subrange(5, len as int)
                &&& final(source).remaining() == b.skip(len as int)
            }
        }),
{
    lemma_chunk_can_be_decoded(old(source).remaining(), len as int);
    if result is Ok {
        assert(final(decoder).coder().range == 0xFFFFFFFF);
        let b = old(source).remaining().skip(1);
        assert(final(decoder).coder().code == crate::io::be32(b));
    }
}

/// A chunk is finished just if all its input has been used, no more than that, and the code is
/// zero.
pub proof fn lemma_finished_means_used_up(
    decoder: &RangeDecoder<RangeDecoderBuffer>,
    finished: bool,
)
    requires
        call_ensures(
            RangeDecoder::<RangeDecoderBuffer>::is_finished,
            (decoder,),
            finished,
        ),
    ensures
        finished <==> decoder.inner.pos == decoder.inner.buf@.len() && !decoder.inner.past_end
            && decoder.code == 0,
{
}

} // verus!
