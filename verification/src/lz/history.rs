//! What a match finder knows about the bytes it has passed: keys, the latest earlier occurrence of
//! a key, and the length of a match.

use vstd::prelude::*;

verus! {

/// The keys of the positions of a stream: the hashes of the `width` bytes at each of them. Only
/// those of four bytes depend on the mask.
pub struct Keys {
    pub stream: Seq<u8>,
    pub width: int,
    pub mask: u32,
}

impl Keys {
    /// The hashes of two bytes.
    pub open spec fn two(stream: Seq<u8>) -> Keys {
        Keys { stream, width: 2, mask: 0 }
    }

    /// The hashes of three bytes.
    pub open spec fn three(stream: Seq<u8>) -> Keys {
        Keys { stream, width: 3, mask: 0 }
    }

    /// The hashes of four bytes.
    pub open spec fn four(stream: Seq<u8>, mask: u32) -> Keys {
        Keys { stream, width: 4, mask }
    }

    /// The keys when more bytes follow.
    pub open spec fn extended(self, more: Seq<u8>) -> Keys {
        Keys { stream: self.stream + more, width: self.width, mask: self.mask }
    }

    /// The key at `pos`.
    pub open spec fn at(self, pos: int) -> int {
        let s = self.stream;
        if self.width == 2 {
            super::hash234::hash2_of(s[pos], s[pos + 1]) as int
        } else if self.width == 3 {
            super::hash234::hash3_of(s[pos], s[pos + 1], s[pos + 2]) as int
        } else {
            super::hash234::hash4_of(s[pos], s[pos + 1], s[pos + 2], s[pos + 3], self.mask) as int
        }
    }

    /// The latest position before `before` that has the key, or -1.
    pub open spec fn latest(self, key: int, before: int) -> int
        decreases before,
    {
        if before <= 0 {
            -1
        } else if self.at(before - 1) == key {
            before - 1
        } else {
            self.latest(key, before - 1)
        }
    }

    /// The latest earlier position with the same key, or -1.
    pub open spec fn previous(self, pos: int) -> int {
        self.latest(self.at(pos), pos)
    }

    /// How many positions from `from` on and before `before` have the key.
    pub open spec fn count(self, key: int, from: int, before: int) -> nat
        decreases before - from,
    {
        if before <= from {
            0
        } else if self.at(before - 1) == key {
            self.count(key, from, before - 1) + 1
        } else {
            self.count(key, from, before - 1)
        }
    }

    /// There are no more positions with a key than positions.
    pub proof fn lemma_count_at_most(self, key: int, from: int, before: int)
        requires
            from <= before,
        ensures
            self.count(key, from, before) <= before - from,
        decreases before - from,
    {
        if from < before {
            self.lemma_count_at_most(key, from, before - 1);
        }
    }

    /// Positions without the key do not count.
    pub proof fn lemma_count_skips(self, key: int, from: int, middle: int, before: int)
        requires
            from <= middle <= before,
            forall|r: int| middle <= r < before ==> #[trigger] self.at(r) != key,
        ensures
            self.count(key, from, before) == self.count(key, from, middle),
        decreases before - middle,
    {
        if middle < before {
            self.lemma_count_skips(key, from, middle, before - 1);
        }
    }

    /// The latest position has the key, and no later one has it.
    pub proof fn lemma_latest(self, key: int, before: int)
        ensures
            ({
                let l = self.latest(key, before);
                &&& -1 <= l
                &&& before >= 0 ==> l < before
                &&& l >= 0 ==> self.at(l) == key
                &&& forall|r: int| l < r < before && 0 <= r ==> #[trigger] self.at(r) != key
            }),
        decreases before,
    {
        if before > 0 && self.at(before - 1) != key {
            self.lemma_latest(key, before - 1);
            let l = self.latest(key, before - 1);
            assert forall|r: int| l < r < before && 0 <= r implies #[trigger] self.at(r)
                != key by {}
        }
    }

    /// Two positions whose first two or three bytes have the same hash agree in all of these bytes
    /// if they agree in the first.
    pub proof fn lemma_same_key(self, pos: int, earlier: int)
        requires
            self.width == 2 || self.width == 3,
            0 <= earlier <= pos,
            pos + self.width <= self.stream.len(),
            self.at(earlier) == self.at(pos),
            self.stream[earlier] == self.stream[pos],
        ensures
            forall|i: int|
                0 <= i < self.width ==> #[trigger] self.stream[pos + i] == self.stream[pos - (pos
                    - earlier) + i],
    {
        let s = self.stream;
        if self.width == 2 {
            super::hash234::lemma_hash2_tells_second_byte(s[pos], s[pos + 1], s[earlier + 1]);
        } else {
            super::hash234::lemma_hash3_tells_other_bytes(
                s[pos],
                s[pos + 1],
                s[pos + 2],
                s[earlier + 1],
                s[earlier + 2],
            );
        }
    }
}

/// The `n` bytes at `pos` are the same as those at an earlier position.
pub open spec fn repeats(stream: Seq<u8>, pos: int, earlier: int, n: int) -> bool {
    &&& 0 <= earlier < pos
    &&& pos + n <= stream.len()
    &&& forall|i: int| 0 <= i < n ==> #[trigger] stream[pos + i] == stream[earlier + i]
}

/// The length of the match between the bytes at `pos` and those `distance` bytes earlier, when at
/// most `limit` bytes are looked at.
pub open spec fn match_len(stream: Seq<u8>, pos: int, distance: int, limit: int) -> int {
    super::extend::common_prefix(
        stream.subrange(pos, pos + limit),
        stream.subrange(pos - distance, pos - distance + limit),
    )
}

/// A match length is the number of bytes that agree, up to the first that differs.
pub proof fn lemma_match_len(stream: Seq<u8>, pos: int, distance: int, limit: int)
    requires
        0 <= limit,
        0 <= distance <= pos,
        pos + limit <= stream.len(),
    ensures
        ({
            let n = match_len(stream, pos, distance, limit);
            &&& 0 <= n <= limit
            &&& forall|i: int|
                0 <= i < n ==> #[trigger] stream[pos + i] == stream[pos - distance + i]
            &&& n < limit ==> stream[pos + n] != stream[pos - distance + n]
        }),
{
    let a = stream.subrange(pos, pos + limit);
    let b = stream.subrange(pos - distance, pos - distance + limit);
    super::extend::lemma_common_prefix(a, b);
    let n = match_len(stream, pos, distance, limit);
    assert forall|i: int| 0 <= i < n implies #[trigger] stream[pos + i] == stream[pos - distance
        + i] by {
        assert(a[i] == b[i]);
    }
    if n < limit {
        assert(a[n] != b[n]);
    }
}

/// The only number with the properties of a match length is the match length.
pub proof fn lemma_match_len_unique(
    stream: Seq<u8>,
    pos: int,
    distance: int,
    limit: int,
    n: int,
)
    requires
        0 <= n <= limit,
        0 <= distance <= pos,
        pos + limit <= stream.len(),
        forall|i: int| 0 <= i < n ==> #[trigger] stream[pos + i] == stream[pos - distance + i],
        n < limit ==> stream[pos + n] != stream[pos - distance + n],
    ensures
        n == match_len(stream, pos, distance, limit),
{
    lemma_match_len(stream, pos, distance, limit);
    let m = match_len(stream, pos, distance, limit);
    if n < m {
        assert(stream[pos + n] == stream[pos - distance + n]);
    }
    if m < n {
        assert(stream[pos + m] == stream[pos - distance + m]);
    }
}

/// The first `n` bytes agree only if the match has at least `n` bytes.
pub proof fn lemma_match_at_least(stream: Seq<u8>, pos: int, distance: int, limit: int, n: int)
    requires
        0 <= n <= limit,
        0 <= distance <= pos,
        pos + limit <= stream.len(),
        forall|i: int| 0 <= i < n ==> #[trigger] stream[pos + i] == stream[pos - distance + i],
    ensures
        match_len(stream, pos, distance, limit) >= n,
{
    lemma_match_len(stream, pos, distance, limit);
    let m = match_len(stream, pos, distance, limit);
    if m < n {
        assert(stream[pos + m] == stream[pos - distance + m]);
    }
}

} // verus!
