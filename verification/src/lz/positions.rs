//! What the tables of a hash chain record: for each key the latest position, as a number that
//! counts up with positions and is normalized from time to time.

use vstd::prelude::*;

use super::history::Keys;

verus! {

/// How positions are numbered. A number that is `cyclic_size` or more below `lz_pos` is too old to
/// say more than that there is no later position.
pub struct Numbers {
    /// The number of the last position.
    pub lz_pos: int,
    /// How many positions there are.
    pub count: int,
    /// How many of the last positions are kept.
    pub cyclic_size: int,
}

impl Numbers {
    /// How many positions lie behind the one with a number.
    pub open spec fn age(self, value: int) -> int {
        self.lz_pos - value
    }

    /// The position with a number.
    pub open spec fn position(self, value: int) -> int {
        self.count - 1 - self.age(value)
    }

    /// The number `value` stands for the latest position before `before` that has the key.
    #[verifier::opaque]
    pub open spec fn records(self, keys: Keys, value: int, key: int, before: int) -> bool {
        let position = self.position(value);
        &&& 0 <= value <= self.lz_pos
        &&& position < before
        &&& forall|r: int| position < r < before && 0 <= r ==> #[trigger] keys.at(r) != key
        &&& self.age(value) < self.cyclic_size ==> 0 <= position && keys.at(position) == key
    }

    /// Every slot of a table records the latest position with its key.
    pub open spec fn table_records(
        self,
        keys: Keys,
        table: Seq<i32>,
        size: int,
        before: int,
    ) -> bool {
        forall|slot: int|
            0 <= slot < size ==> self.records(keys, #[trigger] table[slot] as int, slot, before)
    }

    /// The slot of the chain that belongs to a position, when that of the last position is
    /// `cyclic_pos`.
    pub open spec fn slot(self, cyclic_pos: int, pos: int) -> int {
        let age = self.count - 1 - pos;
        if age > cyclic_pos {
            cyclic_pos - age + self.cyclic_size
        } else {
            cyclic_pos - age
        }
    }

    /// The slot of the chain for position `pos` records the latest earlier position with its key.
    pub open spec fn chain_records_at(
        self,
        keys: Keys,
        chain: Seq<i32>,
        cyclic_pos: int,
        pos: int,
    ) -> bool {
        self.records(keys, chain[self.slot(cyclic_pos, pos)] as int, keys.at(pos), pos)
    }

    /// The chain records the predecessors of all positions before `before` that are kept.
    pub open spec fn chain_records(
        self,
        keys: Keys,
        chain: Seq<i32>,
        cyclic_pos: int,
        before: int,
    ) -> bool {
        forall|pos: int|
            0 <= pos < before && self.count - self.cyclic_size <= pos
                ==> #[trigger] self.chain_records_at(keys, chain, cyclic_pos, pos)
    }

    /// A recorded position is the latest one if it is recent enough, and otherwise there is none
    /// that is.
    pub proof fn lemma_records_latest(self, keys: Keys, value: int, key: int, before: int)
        requires
            self.records(keys, value, key, before),
            0 <= before,
        ensures
            0 <= value <= self.lz_pos,
            self.position(value) < before,
            ({
                let l = keys.latest(key, before);
                let position = self.position(value);
                if self.age(value) < self.cyclic_size {
                    0 <= position && l == position
                } else {
                    l < 0 || l <= position
                }
            }),
    {
        reveal(Numbers::records);
        keys.lemma_latest(key, before);
        let l = keys.latest(key, before);
        let position = self.position(value);
        if l >= 0 && l > position {
            assert(keys.at(l) != key);
        }
        if self.age(value) < self.cyclic_size && l < position {
            assert(keys.at(position) != key);
        }
    }

    /// What is recorded does not depend on bytes that follow.
    proof fn lemma_records_extends(
        self,
        keys: Keys,
        more: Seq<u8>,
        value: int,
        key: int,
        before: int,
    )
        requires
            self.records(keys, value, key, before),
            before > 0 ==> before + 3 <= keys.stream.len(),
        ensures
            self.records(keys.extended(more), value, key, before),
    {
        reveal(Numbers::records);
        assert forall|r: int| 0 <= r < before implies #[trigger] keys.extended(more).at(r)
            == keys.at(r) by {}
    }

    /// What a table records does not depend on bytes that follow.
    pub proof fn lemma_table_extends(
        self,
        keys: Keys,
        more: Seq<u8>,
        table: Seq<i32>,
        size: int,
        before: int,
    )
        requires
            self.table_records(keys, table, size, before),
            before > 0 ==> before + 3 <= keys.stream.len(),
        ensures
            self.table_records(keys.extended(more), table, size, before),
    {
        assert forall|slot: int| 0 <= slot < size implies self.records(
            keys.extended(more),
            #[trigger] table[slot] as int,
            slot,
            before,
        ) by {
            self.lemma_records_extends(keys, more, table[slot] as int, slot, before);
        }
    }

    /// What a chain records does not depend on bytes that follow.
    pub proof fn lemma_chain_extends(
        self,
        keys: Keys,
        more: Seq<u8>,
        chain: Seq<i32>,
        cyclic_pos: int,
        before: int,
    )
        requires
            self.chain_records(keys, chain, cyclic_pos, before),
            before > 0 ==> before + 3 <= keys.stream.len(),
        ensures
            self.chain_records(keys.extended(more), chain, cyclic_pos, before),
    {
        assert forall|pos: int|
            0 <= pos < before && self.count - self.cyclic_size
                <= pos implies #[trigger] self.chain_records_at(
            keys.extended(more),
            chain,
            cyclic_pos,
            pos,
        ) by {
            assert(self.chain_records_at(keys, chain, cyclic_pos, pos));
            assert(keys.extended(more).at(pos) == keys.at(pos));
            let value = chain[self.slot(cyclic_pos, pos)] as int;
            self.lemma_records_extends(keys, more, value, keys.at(pos), pos);
        }
    }
}

} // verus!
