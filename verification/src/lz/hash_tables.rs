//! How the tables of a hash chain change when positions are taken up.

use vstd::prelude::*;

use super::history::Keys;

verus! {

/// Positions are renumbered when they reach this number.
pub const LZ_POS_MAX: i32 = 0x7FFFFFFF;

/// All that a hash chain holds.
#[verifier::ext_equal]
pub struct Tables {
    pub table2: Seq<i32>,
    pub table3: Seq<i32>,
    pub table4: Seq<i32>,
    /// The hashes of the position that was taken up last.
    pub value2: int,
    pub value3: int,
    pub value4: int,
    pub mask4: u32,
    pub chain: Seq<i32>,
    pub depth_limit: int,
    pub cyclic_size: int,
    pub cyclic_pos: int,
    pub lz_pos: int,
}

/// Every position, normalized.
pub open spec fn all_less(positions: Seq<i32>, norm_offset: i32) -> Seq<i32> {
    positions.map_values(|position: i32| super::normalize::normalized(position, norm_offset))
}

/// Normalizing every position gives all of them normalized.
pub proof fn lemma_all_less(before: Seq<i32>, norm_offset: i32, after: Seq<i32>)
    requires
        super::normalize::all_normalized(before, norm_offset, after),
    ensures
        after == all_less(before, norm_offset),
{
    assert(after =~= all_less(before, norm_offset));
}

impl Tables {
    /// The next position gets its slot and its number. All numbers are normalized when it would be
    /// too large.
    pub open spec fn numbered(self) -> Tables {
        let moved = Tables {
            cyclic_pos: if self.cyclic_pos + 1 == self.cyclic_size {
                0
            } else {
                self.cyclic_pos + 1
            },
            lz_pos: self.lz_pos + 1,
            ..self
        };
        if moved.lz_pos == LZ_POS_MAX {
            let offset = (LZ_POS_MAX - self.cyclic_size) as i32;
            Tables {
                table2: all_less(self.table2, offset),
                table3: all_less(self.table3, offset),
                table4: all_less(self.table4, offset),
                chain: all_less(self.chain, offset),
                lz_pos: moved.lz_pos - offset,
                ..moved
            }
        } else {
            moved
        }
    }

    /// The current position is entered under its hashes.
    pub open spec fn entered(self, stream: Seq<u8>, pos: int) -> Tables {
        let value2 = Keys::two(stream).at(pos);
        let value3 = Keys::three(stream).at(pos);
        let value4 = Keys::four(stream, self.mask4).at(pos);
        Tables {
            table2: self.table2.update(value2, self.lz_pos as i32),
            table3: self.table3.update(value3, self.lz_pos as i32),
            table4: self.table4.update(value4, self.lz_pos as i32),
            chain: self.chain.update(self.cyclic_pos, self.table4[value4]),
            value2,
            value3,
            value4,
            ..self
        }
    }

    /// `count` positions of the stream from `pos` on are taken up.
    pub open spec fn taken_up(self, stream: Seq<u8>, pos: int, count: nat) -> Tables
        decreases count,
    {
        if count == 0 {
            self
        } else {
            self.taken_up(stream, pos, (count - 1) as nat).numbered().entered(
                stream,
                pos + count - 1,
            )
        }
    }

    /// Taking up positions in two parts is taking them up at once.
    pub proof fn lemma_taken_up_in_parts(self, stream: Seq<u8>, pos: int, first: nat, second: nat)
        ensures
            self.taken_up(stream, pos, first).taken_up(stream, pos + first, second)
                == self.taken_up(stream, pos, first + second),
        decreases second,
    {
        if second > 0 {
            self.lemma_taken_up_in_parts(stream, pos, first, (second - 1) as nat);
        }
    }
}

} // verus!
