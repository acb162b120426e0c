//! A match finder that keeps all positions with the same hash of four bytes in a chain.

use vstd::prelude::*;

use super::aligned_memory::AlignedMemoryI32;
use super::extend::extend_match;
use super::hash234::Hash234;
use super::hash_chain::{Search, HASHED_BYTES};
use super::hash_tables::{Tables, LZ_POS_MAX};
use super::history::Keys;
use super::lz_encoder::{LZEncoderData, Match, MatchFind, Matches};
use super::normalize::normalize;
use super::positions::Numbers;

verus! {

/// Extending a match in the window gives its length in the stream.
proof fn lemma_extended(encoder: &LZEncoderData, current_len: int, distance: int, limit: int)
    requires
        encoder.wf(),
        0 < distance <= encoder.read_pos,
        0 <= current_len <= limit <= encoder.write_pos - encoder.read_pos,
        forall|i: int|
            0 <= i < current_len ==> #[trigger] encoder.stream@[encoder.pos() + i]
                == encoder.stream@[encoder.pos() - distance + i],
    ensures
        super::extend::extended_len(
            encoder.buf@,
            encoder.read_pos as int,
            current_len,
            distance,
            limit,
        ) == super::history::match_len(encoder.stream@, encoder.pos(), distance, limit),
{
    let stream = encoder.stream@;
    let pos = encoder.pos();
    let start1 = encoder.read_pos + current_len;
    let end1 = encoder.read_pos + limit;
    let n = super::extend::extended_len(
        encoder.buf@,
        encoder.read_pos as int,
        current_len,
        distance,
        limit,
    );
    if start1 < end1 {
        let a = encoder.buf@.subrange(start1, end1);
        let b = encoder.buf@.subrange(start1 - distance, end1 - distance);
        super::extend::lemma_common_prefix(a, b);
        assert forall|i: int| 0 <= i < a.len() implies a[i] == #[trigger] stream[pos + current_len
            + i] && b[i] == stream[pos - distance + current_len + i] by {
            assert(encoder.buf@[start1 + i] == stream[encoder.dropped@ + (start1 + i)]);
            assert(encoder.buf@[start1 - distance + i] == stream[encoder.dropped@ + (start1
                - distance + i)]);
        }
        assert forall|i: int| 0 <= i < n implies #[trigger] stream[pos + i] == stream[pos - distance
            + i] by {
            if i >= current_len {
                let k = i - current_len;
                assert(a[k] == b[k]);
                assert(stream[pos + current_len + k] == a[k]);
            }
        }
        if n < limit {
            let k = n - current_len;
            assert(a[k] != b[k]);
            assert(stream[pos + current_len + k] == a[k]);
        }
    }
    super::history::lemma_match_len_unique(stream, pos, distance, limit, n);
}

/// The length of the match with the bytes `delta` bytes earlier, if it is longer than `len_best`.
fn longer_match(
    encoder: &LZEncoderData,
    delta: i32,
    len_best: i32,
    match_len_limit: i32,
) -> (longer: Option<i32>)
    requires
        encoder.wf(),
        0 < delta <= encoder.read_pos,
        1 <= len_best <= encoder.write_pos - encoder.read_pos,
        1 <= match_len_limit <= encoder.write_pos - encoder.read_pos,
    ensures
        ({
            let len = super::history::match_len(
                encoder.stream@,
                encoder.pos(),
                delta as int,
                match_len_limit as int,
            );
            match longer {
                Some(found) => found == len && len_best < len <= match_len_limit,
                None => len <= len_best,
            }
        }),
{
    let ghost stream = encoder.stream@;
    let ghost pos = encoder.pos();
    proof {
        super::history::lemma_match_len(stream, pos, delta as int, match_len_limit as int);
        encoder.lemma_window_bytes();
        let r = encoder.read_pos;
        assert(encoder.byte_at(r as int) == stream[encoder.dropped@ + r]);
        assert(encoder.byte_at(r - delta) == stream[encoder.dropped@ + (r - delta)]);
        if r + len_best < encoder.write_pos {
            assert(encoder.byte_at(r + len_best) == stream[encoder.dropped@ + (r + len_best)]);
        }
        assert(encoder.byte_at(r + len_best - delta) == stream[encoder.dropped@ + (r + len_best
            - delta)]);
        let len = super::history::match_len(stream, pos, delta as int, match_len_limit as int);
        if len > len_best {
            assert(stream[pos + len_best] == stream[pos - delta + len_best]);
            assert(stream[pos + 0] == stream[pos - delta + 0]);
        }
    }
    if encoder.get_byte(len_best, delta) == encoder.get_byte(len_best, 0) && encoder.get_byte(
        0,
        delta,
    ) == encoder.get_current_byte() {
        proof {
            lemma_extended(encoder, 1, delta as int, match_len_limit as int);
        }
        let len: i32 = extend_match(
            encoder.buf.as_slice(),
            encoder.read_pos,
            1,
            delta,
            match_len_limit,
        );
        if len > len_best {
            return Some(len);
        }
    }
    None
}

/// The memory that a hash chain is accounted with, in KiB.
pub open spec fn mem_usage(dict_size: u32) -> int {
    (super::hash234::HASH2_MASK + super::hash234::HASH2_SIZE + super::hash234::hash4_size(
        dict_size,
    )) / 256 + 4 + dict_size as int / 256 + 10
}

/// How many candidates of a chain are tried: `depth_limit` if it is positive, and otherwise a
/// number that depends on `nice_len`.
pub open spec fn depth(nice_len: u32, depth_limit: i32) -> int {
    if depth_limit > 0 {
        depth_limit as int
    } else {
        4 + nice_len as int / 4
    }
}

/// Hash Chain with 4-byte matching
pub struct HC4 {
    pub hash: Hash234,
    pub chain: AlignedMemoryI32,
    pub depth_limit: i32,
    pub cyclic_size: i32,
    pub cyclic_pos: i32,
    pub lz_pos: i32,
}

impl HC4 {
    /// The sizes fit together.
    pub open spec fn wf(&self) -> bool {
        &&& self.hash.wf()
        &&& 2 <= self.cyclic_size < LZ_POS_MAX
        &&& self.chain@.len() >= self.cyclic_size
        &&& self.depth_limit >= 1
        &&& self.cyclic_size <= self.lz_pos < LZ_POS_MAX
        &&& -1 <= self.cyclic_pos < self.cyclic_size
    }

    /// All that the finder holds.
    pub open spec fn tables(&self) -> Tables {
        Tables {
            table2: self.hash.table2(),
            table3: self.hash.table3(),
            table4: self.hash.table4(),
            value2: self.hash.value2(),
            value3: self.hash.value3(),
            value4: self.hash.value4(),
            mask4: self.hash.mask4(),
            chain: self.chain@,
            depth_limit: self.depth_limit as int,
            cyclic_size: self.cyclic_size as int,
            cyclic_pos: self.cyclic_pos as int,
            lz_pos: self.lz_pos as int,
        }
    }

    /// What the finder holds when the window moves on by `len` positions: those from which on
    /// there are enough bytes are taken up.
    pub open spec fn tables_after(&self, encoder: &LZEncoderData, len: int) -> Tables {
        self.tables().taken_up(
            encoder.stream@,
            encoder.pos() + 1,
            encoder.ready(len, HASHED_BYTES as int) as nat,
        )
    }

    /// The numbers of `count` positions.
    pub open spec fn numbers(&self, count: int) -> Numbers {
        Numbers { lz_pos: self.lz_pos as int, count, cyclic_size: self.cyclic_size as int }
    }

    /// The keys by which the chain links positions.
    pub open spec fn keys(&self, stream: Seq<u8>) -> Keys {
        Keys::four(stream, self.hash.mask4())
    }

    /// With `lz_pos` the number of position `count - 1`, the tables and the chain record the
    /// positions before `before`.
    pub open spec fn recorded(&self, stream: Seq<u8>, count: int, before: int) -> bool {
        let numbers = self.numbers(count);
        let keys2 = Keys::two(stream);
        let keys3 = Keys::three(stream);
        let keys4 = self.keys(stream);
        let size2 = super::hash234::HASH2_SIZE as int;
        let size3 = super::hash234::HASH3_SIZE as int;
        let size4 = self.hash.mask4() + 1;
        &&& 0 <= before
        &&& before > 0 ==> before + 3 <= stream.len()
        &&& numbers.table_records(keys2, self.hash.table2(), size2, before)
        &&& numbers.table_records(keys3, self.hash.table3(), size3, before)
        &&& numbers.table_records(keys4, self.hash.table4(), size4, before)
        &&& numbers.chain_records(keys4, self.chain@, self.cyclic_pos as int, before)
    }

    /// The search that starts at the current byte of a window.
    pub open spec fn search(&self, encoder: &LZEncoderData) -> Search {
        Search {
            stream: encoder.stream@,
            mask: self.hash.mask4(),
            pos: encoder.pos(),
            nice_len: encoder.nice_len as int,
            match_len_max: encoder.match_len_max as int,
            reach: self.reach(),
        }
    }

    /// The window has enough bytes on either side of the current one to search.
    pub open spec fn can_search(&self, encoder: &LZEncoderData) -> bool {
        &&& encoder.wf()
        &&& encoder.read_pos >= 0
        &&& encoder.read_pos + HASHED_BYTES <= encoder.write_pos
        &&& self.reach() <= encoder.keep_size_before
        &&& encoder.dropped@ == 0 || encoder.read_pos >= encoder.keep_size_before
    }

    /// The memory that the finder is accounted with, in KiB.
    pub fn get_mem_usage(dict_size: u32) -> (kib: u32)
        requires
            dict_size >= 1,
        ensures
            kib == mem_usage(dict_size),
    {
        let tables: u32 = Hash234::get_mem_usage(dict_size);
        proof {
            let size: int = super::hash234::hash4_size(dict_size);
            Hash234::lemma_hash4_size_bound(dict_size);
        }
        tables + dict_size / (1024 / 4) + 10
    }

    /// Makes a finder for matches up to `dict_size` bytes back. Without a positive `depth_limit`
    /// the number of candidates that are tried depends on `nice_len`.
    pub fn new(dict_size: u32, nice_len: u32, depth_limit: i32) -> (finder: Self)
        requires
            1 <= dict_size < LZ_POS_MAX - 1,
            nice_len <= i32::MAX,
            AlignedMemoryI32::allocatable(dict_size + 1),
            AlignedMemoryI32::allocatable(super::hash234::hash4_size(dict_size)),
        ensures
            finder.knows(Seq::<u8>::empty(), 0),
            finder.reach() == dict_size,
            finder.lookahead() == HASHED_BYTES,
            finder.depth_limit == depth(nice_len, depth_limit),
            depth_limit > 0 ==> finder.depth_limit == depth_limit,
            depth_limit <= 0 ==> finder.depth_limit == 4 + nice_len / 4,
            finder.hash.mask4() == super::hash234::hash4_size(dict_size) - 1,
    {
        let chain = AlignedMemoryI32::new(dict_size as usize + 1);
        let hash = Hash234::new(dict_size);
        let depth: i32 = if depth_limit > 0 { depth_limit } else { 4 + nice_len as i32 / 4 };
        proof {
            reveal(Numbers::records);
            hash.lemma_wf();
        }
        HC4 {
            hash,
            chain,
            depth_limit: depth,
            cyclic_size: dict_size as i32 + 1,
            cyclic_pos: -1,
            lz_pos: dict_size as i32 + 1,
        }
    }

    /// Moves on to the next byte. If it can be taken up, gives it its number and its slot.
    fn move_pos(&mut self, encoder: &mut LZEncoderData) -> (avail: i32)
        requires
            old(encoder).wf(),
            old(encoder).read_pos + 1 < old(encoder).write_pos,
            old(encoder).settled(HASHED_BYTES as int),
            old(self).knows(old(encoder).stream@, old(encoder).processed()),
        ensures
            final(encoder).wf(),
            final(encoder).moved_from(old(encoder), 1, HASHED_BYTES as int),
            ({
                let ahead = old(encoder).write_pos - old(encoder).read_pos - 1;
                avail == if ahead < HASHED_BYTES { 0 } else { ahead }
            }),
            avail == 0 ==> *final(self) == *old(self) && final(encoder).processed() == old(
                encoder,
            ).processed(),
            avail != 0 ==> {
                &&& old(encoder).processed() == final(encoder).pos()
                &&& final(self).wf()
                &&& final(self).cyclic_pos >= 0
                &&& final(self).cyclic_size == old(self).cyclic_size
                &&& final(self).depth_limit == old(self).depth_limit
                &&& final(self).hash.mask4() == old(self).hash.mask4()
                &&& final(self).tables() == old(self).tables().numbered()
                &&& final(self).recorded(
                    final(encoder).stream@,
                    final(encoder).pos() + 1,
                    final(encoder).pos(),
                )
            },
    {
        let avail: i32 = encoder.move_pos(HASHED_BYTES, HASHED_BYTES);
        if avail != 0 {
            let ghost before = *self;
            let ghost stream = encoder.stream@;
            let ghost pos = encoder.pos();
            self.lz_pos = self.lz_pos + 1;
            self.cyclic_pos = self.cyclic_pos + 1;
            if self.cyclic_pos == self.cyclic_size {
                self.cyclic_pos = 0;
            }
            proof {
                self.lemma_renumbered(before, stream, pos);
            }
            if self.lz_pos == LZ_POS_MAX {
                let norm_offset: i32 = LZ_POS_MAX - self.cyclic_size;
                let ghost mid = *self;
                self.hash.normalize(norm_offset);
                normalize(self.chain.as_mut(), norm_offset);
                self.lz_pos = self.lz_pos - norm_offset;
                proof {
                    self.lemma_normalized(mid, stream, pos, norm_offset);
                    super::hash_tables::lemma_all_less(
                        mid.hash.table2(),
                        norm_offset,
                        self.hash.table2(),
                    );
                    super::hash_tables::lemma_all_less(
                        mid.hash.table3(),
                        norm_offset,
                        self.hash.table3(),
                    );
                    super::hash_tables::lemma_all_less(
                        mid.hash.table4(),
                        norm_offset,
                        self.hash.table4(),
                    );
                    super::hash_tables::lemma_all_less(mid.chain@, norm_offset, self.chain@);
                }
            }
        }
        avail
    }

    /// Skipping one position leaves the finder and the window as searching there does: two finders
    /// that hold the same, one of which has searched and one of which has skipped, hold the same
    /// again, and so do their windows.
    pub proof fn lemma_skip_leaves_what_search_leaves(
        before: HC4,
        window: LZEncoderData,
        searched: (HC4, LZEncoderData),
        skipped: (HC4, LZEncoderData),
    )
        requires
            searched.0.tables() == before.tables_after(&window, 1),
            searched.1.moved_from(&window, 1, HASHED_BYTES as int),
            skipped.0.tables() == before.tables_after(&window, 1),
            skipped.1.moved_from(&window, 1, HASHED_BYTES as int),
        ensures
            skipped.0.tables() == searched.0.tables(),
            skipped.1.same_contents(&searched.1),
            skipped.1.read_pos == searched.1.read_pos,
            skipped.1.pending_size == searched.1.pending_size,
    {
    }

    /// Skipping in two parts is skipping at once.
    pub proof fn lemma_skips_add_up(
        before: HC4,
        window: LZEncoderData,
        middle: (HC4, LZEncoderData),
        end: (HC4, LZEncoderData),
        first: int,
        second: int,
    )
        requires
            first >= 0,
            second >= 0,
            middle.0.tables() == before.tables_after(&window, first),
            middle.1.moved_from(&window, first, HASHED_BYTES as int),
            end.0.tables() == middle.0.tables_after(&middle.1, second),
            end.1.moved_from(&middle.1, second, HASHED_BYTES as int),
        ensures
            end.0.tables() == before.tables_after(&window, first + second),
            end.1.moved_from(&window, first + second, HASHED_BYTES as int),
    {
        let n = window.ready(first, HASHED_BYTES as int);
        let m = middle.1.ready(second, HASHED_BYTES as int);
        if m > 0 {
            before.tables().lemma_taken_up_in_parts(
                window.stream@,
                window.pos() + 1,
                n as nat,
                m as nat,
            );
        }
    }

    /// Giving the next position a number and a slot keeps what is recorded.
    proof fn lemma_renumbered(&self, before: HC4, stream: Seq<u8>, pos: int)
        requires
            before.wf(),
            before.recorded(stream, pos, pos),
            pos == 0 <==> before.cyclic_pos == -1,
            self.hash == before.hash,
            self.chain == before.chain,
            self.cyclic_size == before.cyclic_size,
            self.lz_pos == before.lz_pos + 1,
            self.cyclic_pos == if before.cyclic_pos + 1 == before.cyclic_size {
                0
            } else {
                before.cyclic_pos + 1
            },
        ensures
            self.recorded(stream, pos + 1, pos),
    {
        reveal(Numbers::records);
        let (old_pos, new_pos) = (before.cyclic_pos as int, self.cyclic_pos as int);
        let (older, newer) = (before.numbers(pos), self.numbers(pos + 1));
        let keys = self.keys(stream);
        assert forall|p: int|
            0 <= p < pos && pos + 1 - self.cyclic_size
                <= p implies #[trigger] newer.chain_records_at(
            keys,
            self.chain@,
            new_pos,
            p,
        ) by {
            assert(older.chain_records_at(keys, before.chain@, old_pos, p));
            assert(older.slot(old_pos, p) == newer.slot(new_pos, p));
        }
    }

    /// Normalizing keeps what is recorded.
    proof fn lemma_normalized(&self, before: HC4, stream: Seq<u8>, pos: int, offset: i32)
        requires
            before.hash.wf(),
            self.hash.wf(),
            before.recorded(stream, pos + 1, pos),
            before.chain@.len() >= before.cyclic_size,
            2 <= before.cyclic_size,
            0 <= before.cyclic_pos < before.cyclic_size,
            offset >= 0,
            before.lz_pos - offset == before.cyclic_size,
            super::normalize::all_normalized(before.hash.table2(), offset, self.hash.table2()),
            super::normalize::all_normalized(before.hash.table3(), offset, self.hash.table3()),
            super::normalize::all_normalized(before.hash.table4(), offset, self.hash.table4()),
            super::normalize::all_normalized(before.chain@, offset, self.chain@),
            self.hash.mask4() == before.hash.mask4(),
            self.lz_pos == before.lz_pos - offset,
            self.cyclic_size == before.cyclic_size,
            self.cyclic_pos == before.cyclic_pos,
        ensures
            self.recorded(stream, pos + 1, pos),
    {
        reveal(Numbers::records);
        before.hash.lemma_wf();
        let cyclic_pos = self.cyclic_pos as int;
        let (older, newer) = (before.numbers(pos + 1), self.numbers(pos + 1));
        let keys = self.keys(stream);
        assert forall|p: int|
            0 <= p < pos && pos + 1 - self.cyclic_size
                <= p implies #[trigger] newer.chain_records_at(
            keys,
            self.chain@,
            cyclic_pos,
            p,
        ) by {
            assert(older.chain_records_at(keys, before.chain@, cyclic_pos, p));
        }
    }

    /// Entering a position into the tables and the chain.
    proof fn lemma_inserted(&self, before: HC4, stream: Seq<u8>, pos: int)
        requires
            before.wf(),
            before.cyclic_pos >= 0,
            before.recorded(stream, pos + 1, pos),
            pos + HASHED_BYTES <= stream.len(),
            before.hash.value2() == Keys::two(stream).at(pos),
            before.hash.value3() == Keys::three(stream).at(pos),
            before.hash.value4() == before.keys(stream).at(pos),
            self.hash.wf(),
            self.hash.mask4() == before.hash.mask4(),
            self.hash.table2() == before.hash.table2().update(
                before.hash.value2(),
                before.lz_pos,
            ),
            self.hash.table3() == before.hash.table3().update(
                before.hash.value3(),
                before.lz_pos,
            ),
            self.hash.table4() == before.hash.table4().update(
                before.hash.value4(),
                before.lz_pos,
            ),
            self.chain@ == before.chain@.update(
                before.cyclic_pos as int,
                before.hash.table4()[before.hash.value4()],
            ),
            self.depth_limit == before.depth_limit,
            self.cyclic_size == before.cyclic_size,
            self.cyclic_pos == before.cyclic_pos,
            self.lz_pos == before.lz_pos,
        ensures
            self.knows(stream, pos + 1),
    {
        reveal(Numbers::records);
        before.hash.lemma_wf();
        let cyclic_pos = self.cyclic_pos as int;
        let numbers = self.numbers(pos + 1);
        let keys = self.keys(stream);
        assert forall|p: int|
            0 <= p < pos + 1 && pos + 1 - self.cyclic_size
                <= p implies #[trigger] numbers.chain_records_at(
            keys,
            self.chain@,
            cyclic_pos,
            p,
        ) by {
            if p < pos {
                assert(numbers.chain_records_at(keys, before.chain@, cyclic_pos, p));
            }
        }
    }

    /// The earlier position `q` is among those that are tried at `pos`: fewer later ones than the
    /// depth limit allows have the same hash of four bytes.
    pub open spec fn tries(&self, stream: Seq<u8>, pos: int, q: int) -> bool {
        let keys = self.keys(stream);
        keys.count(keys.at(pos), q, pos) <= self.depth_limit
    }

    /// The finder finds the longest match: if the `n` bytes at `pos` stood at `q` before, within
    /// reach and among the positions that are tried, then the last match has `n` bytes or more, or
    /// at least the nice length. All positions are tried that lie no further back than the depth
    /// limit.
    pub proof fn lemma_longest_is_found(
        &self,
        stream: Seq<u8>,
        pos: int,
        nice_len: int,
        match_len_max: int,
        q: int,
        n: int,
    )
        requires
            self.wf(),
            0 <= q < pos,
            pos - q < self.cyclic_size,
            pos - q <= self.depth_limit || self.tries(stream, pos, q),
            4 <= n <= match_len_max,
            pos + n <= stream.len(),
            forall|i: int| 0 <= i < n ==> #[trigger] stream[pos + i] == stream[q + i],
            nice_len >= 3,
        ensures
            ({
                let found = self.matches_at(stream, pos, nice_len, match_len_max);
                &&& found.len() > 0
                &&& found.last().len >= n || found.last().len >= nice_len
            }),
    {
        let search = Search {
            stream,
            mask: self.hash.mask4(),
            pos,
            nice_len,
            match_len_max,
            reach: self.reach(),
        };
        if self.tries(stream, pos, q) {
            search.lemma_longest_is_found(self.depth_limit as nat, q, n);
        } else {
            search.lemma_near_match_is_found(self.depth_limit as nat, q, n);
        }
    }

    /// What the finder finds is there: each match repeats as many bytes as it says, from where it
    /// says, it could not be longer, and no nearer position repeats as many.
    pub proof fn lemma_matches_are_real(
        &self,
        stream: Seq<u8>,
        pos: int,
        nice_len: int,
        match_len_max: int,
        i: int,
        q: int,
    )
        requires
            self.wf(),
            0 <= pos,
            pos + 4 <= stream.len(),
            match_len_max >= 3,
            nice_len >= 3,
            0 <= i < self.matches_at(stream, pos, nice_len, match_len_max).len(),
        ensures
            ({
                let m = self.matches_at(stream, pos, nice_len, match_len_max)[i];
                let from = pos - 1 - m.dist;
                &&& 0 <= from < pos
                &&& m.dist < self.cyclic_size - 1
                &&& 2 <= m.len <= match_len_max
                &&& pos + m.len <= stream.len()
                &&& forall|k: int|
                    0 <= k < m.len ==> #[trigger] stream[pos + k] == stream[from + k]
                &&& m.len < match_len_max && pos + m.len < stream.len() ==> stream[pos + m.len]
                    != stream[from + m.len]
                &&& from < q < pos ==> exists|k: int|
                    0 <= k < m.len && #[trigger] stream[pos + k] != stream[q + k]
            }),
            i > 0 ==> {
                let found = self.matches_at(stream, pos, nice_len, match_len_max);
                found[i - 1].len < found[i].len
            },
    {
        let search = Search {
            stream,
            mask: self.hash.mask4(),
            pos,
            nice_len,
            match_len_max,
            reach: self.reach(),
        };
        search.lemma_matches_are_real(self.depth_limit as nat, i);
        let m = self.matches_at(stream, pos, nice_len, match_len_max)[i];
        if pos - 1 - m.dist < q < pos {
            search.lemma_nearest_is_found(self.depth_limit as nat, i, q);
        }
    }

    /// A repetition of two or three bytes is found, too, if no later position has the same hash of
    /// two, or of three, bytes.
    pub proof fn lemma_short_match_is_found(
        &self,
        stream: Seq<u8>,
        pos: int,
        nice_len: int,
        match_len_max: int,
        q: int,
        n: int,
    )
        requires
            self.wf(),
            0 <= q < pos,
            pos - q < self.cyclic_size,
            pos + 4 <= stream.len(),
            2 <= n <= match_len_max,
            match_len_max >= 3,
            pos + n <= stream.len(),
            forall|i: int| 0 <= i < n ==> #[trigger] stream[pos + i] == stream[q + i],
            nice_len >= 3,
            ({
                let two = Keys::two(stream);
                let three = Keys::three(stream);
                ||| forall|r: int| q < r < pos ==> #[trigger] two.at(r) != two.at(pos)
                ||| n >= 3 && forall|r: int| q < r < pos ==> #[trigger] three.at(r) != three.at(pos)
            }),
        ensures
            ({
                let found = self.matches_at(stream, pos, nice_len, match_len_max);
                &&& found.len() > 0
                &&& found.last().len >= n || found.last().len >= nice_len
            }),
    {
        let search = Search {
            stream,
            mask: self.hash.mask4(),
            pos,
            nice_len,
            match_len_max,
            reach: self.reach(),
        };
        search.lemma_short_match_is_found(self.depth_limit as nat, q, n);
    }

    /// Finds the matches that the hashes of two and three bytes lead to, and returns the length of
    /// the last one, or 0. The distances are those to the latest positions with the same hashes.
    #[verifier::spinoff_prover]
    #[verifier::rlimit(60)]
    fn find_short_matches(
        &self,
        encoder: &LZEncoderData,
        matches: &mut Matches,
        delta2: i32,
        delta3: i32,
        match_len_limit: i32,
    ) -> (len_best: i32)
        requires
            self.wf(),
            self.can_search(encoder),
            delta2 >= 1,
            delta3 >= 1,
            match_len_limit == self.search(encoder).limit(),
            old(matches).wf(),
            old(matches).count == 0,
            old(matches).room() >= 2,
            self.search(encoder).distance_to_latest(Keys::two(encoder.stream@)) == if delta2
                < self.cyclic_size {
                Some(delta2 as int)
            } else {
                None
            },
            self.search(encoder).distance_to_latest(Keys::three(encoder.stream@)) == if delta3
                < self.cyclic_size {
                Some(delta3 as int)
            } else {
                None
            },
        ensures
            final(matches).wf(),
            final(matches).room() == old(matches).room(),
            final(matches).found() == self.search(encoder).short_matches(),
            len_best == if final(matches).count == 0 {
                0
            } else {
                final(matches).found().last().len
            },
            len_best <= match_len_limit,
    {
        let ghost stream = encoder.stream@;
        let ghost pos = encoder.pos();
        let ghost keys2 = Keys::two(stream);
        let ghost keys3 = Keys::three(stream);
        proof {
            encoder.lemma_window_bytes();
            keys2.lemma_latest(keys2.at(pos), pos);
            keys3.lemma_latest(keys3.at(pos), pos);
        }
        let mut len_best: i32 = 0;
        let mut delta: i32 = delta2;
        if delta2 < self.cyclic_size && encoder.get_byte_by_pos(encoder.read_pos - delta2)
            == encoder.get_byte_by_pos(encoder.read_pos) {
            len_best = 2;
            matches.len[0] = 2;
            matches.dist[0] = delta2 - 1;
            matches.count = 1;
            proof {
                keys2.lemma_same_key(pos, pos - delta2);
            }
        }
        if delta2 != delta3 && delta3 < self.cyclic_size && encoder.get_byte(0, delta3)
            == encoder.get_current_byte() {
            len_best = 3;
            let count: usize = matches.count as usize;
            matches.dist[count] = delta3 - 1;
            matches.count = matches.count + 1;
            delta = delta3;
            proof {
                keys3.lemma_same_key(pos, pos - delta3);
            }
        }
        if matches.count > 0 {
            proof {
                lemma_extended(encoder, len_best as int, delta as int, match_len_limit as int);
            }
            len_best = extend_match(
                encoder.buf.as_slice(),
                encoder.read_pos,
                len_best,
                delta,
                match_len_limit,
            );
            let count: usize = matches.count as usize;
            matches.len[count - 1] = len_best as u32;
        }
        assert(matches.found() =~= self.search(encoder).short_matches());
        len_best
    }

    /// Follows the chain from `first_match` on and adds the matches that are longer than all
    /// before them.
    #[verifier::spinoff_prover]
    #[verifier::rlimit(60)]
    fn follow_chain(
        &self,
        encoder: &LZEncoderData,
        matches: &mut Matches,
        first_match: i32,
        first_len_best: i32,
        nice_len_limit: i32,
        match_len_limit: i32,
    )
        requires
            self.can_search(encoder),
            self.knows(encoder.stream@, encoder.pos() + 1),
            self.numbers(encoder.pos() + 1).records(
                self.keys(encoder.stream@),
                first_match as int,
                self.keys(encoder.stream@).at(encoder.pos()),
                encoder.pos(),
            ),
            3 <= first_len_best <= encoder.write_pos - encoder.read_pos,
            nice_len_limit == self.search(encoder).nice(),
            match_len_limit == self.search(encoder).limit(),
            old(matches).wf(),
            ({
                let added = self.search(encoder).chain_matches(
                    self.keys(encoder.stream@).previous(encoder.pos()),
                    first_len_best as int,
                    self.depth_limit as nat,
                );
                &&& old(matches).count + added.len() <= old(matches).room()
                &&& old(matches).count + added.len() <= u32::MAX
            }),
        ensures
            final(matches).wf(),
            final(matches).room() == old(matches).room(),
            final(matches).found() == old(matches).found() + self.search(encoder).chain_matches(
                self.keys(encoder.stream@).previous(encoder.pos()),
                first_len_best as int,
                self.depth_limit as nat,
            ),
    {
        let ghost pos = encoder.pos();
        let ghost keys = self.keys(encoder.stream@);
        let ghost numbers = self.numbers(pos + 1);
        let ghost search = self.search(encoder);
        let ghost mut linked = pos;
        let mut current_match: i32 = first_match;
        let mut len_best: i32 = first_len_best;
        let mut depth: i32 = self.depth_limit;
        let ghost expected = old(matches).found() + search.chain_matches(
            keys.previous(pos),
            len_best as int,
            depth as nat,
        );
        loop
            invariant_except_break
                self.wf(),
                self.can_search(encoder),
                pos == encoder.pos(),
                keys == self.keys(encoder.stream@),
                numbers == self.numbers(pos + 1),
                search == self.search(encoder),
                self.cyclic_pos >= 0,
                numbers.chain_records(keys, self.chain@, self.cyclic_pos as int, pos + 1),
                pos + 1 - self.cyclic_size <= linked <= pos,
                0 <= linked,
                numbers.records(keys, current_match as int, keys.at(linked), linked),
                3 <= len_best <= encoder.write_pos - encoder.read_pos,
                nice_len_limit == search.nice(),
                match_len_limit == search.limit(),
                0 <= depth,
                matches.wf(),
                matches.room() == old(matches).room(),
                expected == matches.found() + search.chain_matches(
                    keys.previous(linked),
                    len_best as int,
                    depth as nat,
                ),
                expected.len() <= matches.room(),
                expected.len() <= u32::MAX,
            ensures
                matches.wf(),
                matches.room() == old(matches).room(),
                matches.found() == expected,
            decreases depth,
        {
            proof {
                numbers.lemma_records_latest(
                    keys,
                    current_match as int,
                    keys.at(linked),
                    linked,
                );
            }
            let delta: i32 = self.lz_pos - current_match;
            if depth == 0 || delta >= self.cyclic_size {
                assert(matches.found() =~= expected);
                break;
            }
            depth = depth - 1;
            let ghost next = pos - delta;
            assert(numbers.chain_records_at(keys, self.chain@, self.cyclic_pos as int, next));
            let i: i32 = if delta > self.cyclic_pos {
                self.cyclic_pos - delta + self.cyclic_size
            } else {
                self.cyclic_pos - delta
            };
            current_match = self.chain.get(i as usize);
            proof {
                linked = next;
            }
            if let Some(len) = longer_match(encoder, delta, len_best, match_len_limit) {
                let ghost before = matches.found();
                len_best = len;
                let count: usize = matches.count as usize;
                matches.len[count] = len as u32;
                matches.dist[count] = delta - 1;
                matches.count = matches.count + 1;
                assert(matches.found() =~= before.push(
                    Match { len: len as int, dist: delta - 1 },
                ));
                // Stop if it is long enough (the nice length, or all there is).
                if len >= nice_len_limit {
                    assert(matches.found() =~= expected);
                    break;
                }
                assert(expected =~= matches.found() + search.chain_matches(
                    keys.previous(linked),
                    len_best as int,
                    depth as nat,
                ));
            }
        }
    }
}

impl MatchFind for HC4 {
    open spec fn lookahead(&self) -> int {
        HASHED_BYTES as int
    }

    open spec fn reach(&self) -> int {
        self.cyclic_size - 1
    }

    open spec fn knows(&self, stream: Seq<u8>, count: int) -> bool {
        &&& self.wf()
        &&& count == 0 <==> self.cyclic_pos == -1
        &&& self.recorded(stream, count, count)
    }

    open spec fn matches_at(
        &self,
        stream: Seq<u8>,
        pos: int,
        nice_len: int,
        match_len_max: int,
    ) -> Seq<Match> {
        let search = Search {
            stream,
            mask: self.hash.mask4(),
            pos,
            nice_len,
            match_len_max,
            reach: self.reach(),
        };
        search.matches(self.depth_limit as nat)
    }

    proof fn lemma_knows_extends(&self, stream: Seq<u8>, more: Seq<u8>, count: int) {
        let numbers = self.numbers(count);
        let keys4 = self.keys(stream);
        let cyclic_pos = self.cyclic_pos as int;
        numbers.lemma_table_extends(
            Keys::two(stream),
            more,
            self.hash.table2(),
            super::hash234::HASH2_SIZE as int,
            count,
        );
        numbers.lemma_table_extends(
            Keys::three(stream),
            more,
            self.hash.table3(),
            super::hash234::HASH3_SIZE as int,
            count,
        );
        numbers.lemma_table_extends(
            keys4,
            more,
            self.hash.table4(),
            self.hash.mask4() + 1,
            count,
        );
        numbers.lemma_chain_extends(keys4, more, self.chain@, cyclic_pos, count);
    }

    #[verifier::spinoff_prover]
    #[verifier::rlimit(60)]
    fn find_matches(&mut self, encoder: &mut LZEncoderData, matches: &mut Matches)
        ensures
            final(self).hash.mask4() == old(self).hash.mask4(),
            final(self).depth_limit == old(self).depth_limit,
            final(self).tables() == old(self).tables_after(old(encoder), 1),
            forall|q: int, n: int| #[trigger]
                super::history::repeats(final(encoder).stream@, final(encoder).pos(), q, n) && 4
                    <= n <= old(encoder).match_len_max && final(encoder).pos() - q <= old(
                    self,
                ).reach() && (final(encoder).pos() - q <= old(self).depth_limit || old(
                    self,
                ).tries(final(encoder).stream@, final(encoder).pos(), q)) ==> {
                    &&& final(matches).count > 0
                    &&& {
                        ||| final(matches).found().last().len >= n
                        ||| final(matches).found().last().len >= old(encoder).nice_len
                    }
                },
    {
        matches.count = 0;
        let mut match_len_limit: i32 = encoder.match_len_max as i32;
        let mut nice_len_limit: i32 = encoder.nice_len as i32;
        let ghost stream = encoder.stream@;
        let avail: i32 = self.move_pos(encoder);
        let ghost pos = encoder.pos();
        if avail < match_len_limit {
            if avail == 0 {
                assert(matches.found() =~= Seq::<Match>::empty());
                return;
            }
            match_len_limit = avail;
            if nice_len_limit > avail {
                nice_len_limit = avail;
            }
        }
        self.hash.calc_hashes(encoder.read_buffer());
        proof {
            encoder.lemma_window_bytes();
            self.hash.lemma_wf();
            let numbers = self.numbers(pos + 1);
            let key2 = self.hash.value2();
            let key3 = self.hash.value3();
            let v2 = self.hash.table2()[key2] as int;
            let v3 = self.hash.table3()[key3] as int;
            numbers.lemma_records_latest(Keys::two(stream), v2, key2, pos);
            numbers.lemma_records_latest(Keys::three(stream), v3, key3, pos);
        }
        let delta2: i32 = self.lz_pos - self.hash.get_hash2_pos();
        let delta3: i32 = self.lz_pos - self.hash.get_hash3_pos();
        let current_match: i32 = self.hash.get_hash4_pos();
        let ghost primed = *self;
        self.hash.update_tables(self.lz_pos);
        self.chain.set(self.cyclic_pos as usize, current_match);
        proof {
            self.lemma_inserted(primed, stream, pos);
            reveal_with_fuel(Tables::taken_up, 2);
            assert(self.tables() =~= old(self).tables_after(old(encoder), 1));
            self.search(encoder).lemma_matches_true(self.depth_limit as nat);
            assert forall|q: int, n: int| #[trigger]
                super::history::repeats(stream, pos, q, n) && 4 <= n <= encoder.match_len_max && pos
                    - q <= self.reach() && (pos - q <= self.depth_limit || self.tries(
                    stream,
                    pos,
                    q,
                )) implies {
                let found = self.search(encoder).matches(self.depth_limit as nat);
                &&& found.len() > 0
                &&& found.last().len >= n || found.last().len >= encoder.nice_len
            } by {
                if self.tries(stream, pos, q) {
                    self.search(encoder).lemma_longest_is_found(self.depth_limit as nat, q, n);
                } else {
                    self.search(encoder).lemma_near_match_is_found(self.depth_limit as nat, q, n);
                }
            }
        }
        let mut len_best: i32 = self.find_short_matches(
            encoder,
            matches,
            delta2,
            delta3,
            match_len_limit,
        );
        // Stop if it is long enough (the nice length, or all there is).
        if matches.count > 0 && len_best >= nice_len_limit {
            return;
        }
        if len_best < 3 {
            len_best = 3;
        }
        self.follow_chain(
            encoder,
            matches,
            current_match,
            len_best,
            nice_len_limit,
            match_len_limit,
        );
    }

    #[verifier::spinoff_prover]
    #[verifier::rlimit(60)]
    fn skip(&mut self, encoder: &mut LZEncoderData, len: usize)
        ensures
            final(self).hash.mask4() == old(self).hash.mask4(),
            final(self).depth_limit == old(self).depth_limit,
            final(self).tables() == old(self).tables_after(old(encoder), len as int),
    {
        let mut left: usize = len;
        let ghost stream = encoder.stream@;
        let ghost before = *encoder;
        let ghost mask = self.hash.mask4();
        while left > 0
            invariant
                left <= len,
                encoder.wf(),
                before.wf(),
                before.settled(HASHED_BYTES as int),
                before.read_pos + len < before.write_pos,
                encoder.moved_from(&before, len - left, HASHED_BYTES as int),
                stream == encoder.stream@,
                self.knows(stream, encoder.processed()),
                self.reach() == old(self).reach(),
                self.hash.mask4() == mask,
                self.depth_limit == old(self).depth_limit,
                mask == old(self).hash.mask4(),
                self.tables() == old(self).tables_after(&before, len - left),
                before == *old(encoder),
            decreases left,
        {
            left -= 1;
            let ghost taken = before.ready(len - left - 1, HASHED_BYTES as int);
            if self.move_pos(encoder) != 0 {
                let ghost pos = encoder.pos();
                self.hash.calc_hashes(encoder.read_buffer());
                let ghost primed = *self;
                proof {
                    encoder.lemma_window_bytes();
                }
                self.chain.set(self.cyclic_pos as usize, self.hash.get_hash4_pos());
                self.hash.update_tables(self.lz_pos);
                proof {
                    self.lemma_inserted(primed, stream, pos);
                    assert(pos == before.pos() + 1 + taken);
                    assert(self.tables() =~= old(self).tables_after(&before, len - left));
                }
            }
        }
    }
}

/// A finder is accounted with four bytes for each byte of the dictionary and each slot of the table
/// for four bytes, and with a few KiB more.
pub proof fn lemma_memory_is_accounted(dict_size: u32, kib: u32)
    requires
        dict_size >= 1,
        call_ensures(HC4::get_mem_usage, (dict_size,), kib),
    ensures
        4 * (dict_size + super::hash234::hash4_size(dict_size)) <= 1024 * kib,
        1024 * kib <= 4 * (dict_size + super::hash234::hash4_size(dict_size)) + 1024 * 24,
{
}

} // verus!
