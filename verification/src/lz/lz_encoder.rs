//! The sliding window of the encoder.

use vstd::prelude::*;

use super::hc4::HC4;

verus! {

/// The window has at least this much room besides the bytes that have to be kept.
pub const RESERVE_MIN: u32 = 0x40000;

/// The window has at most this much such room.
pub const RESERVE_MAX: u32 = 0x20000000;

/// A match: `len` bytes repeat what was seen `dist + 1` bytes earlier.
#[verifier::ext_equal]
pub struct Match {
    pub len: int,
    pub dist: int,
}

/// The matches found at one position, in the order of growing length. Only the first `count`
/// entries count.
pub struct Matches {
    pub len: Vec<u32>,
    pub dist: Vec<i32>,
    pub count: u32,
}

impl Matches {
    /// Room for `count_max` matches, and none of them in use.
    pub fn new(count_max: usize) -> (matches: Self)
        ensures
            matches.room() == count_max,
            matches.wf(),
            matches.found() == Seq::<Match>::empty(),
    {
        Matches { len: vec![0u32; count_max], dist: vec![0i32; count_max], count: 0 }
    }

    /// The number of matches there is room for.
    pub open spec fn room(&self) -> int {
        self.len@.len() as int
    }

    /// The matches in use fit.
    pub open spec fn wf(&self) -> bool {
        &&& self.len@.len() == self.dist@.len()
        &&& self.count <= self.len@.len()
    }

    /// The matches in use.
    pub open spec fn found(&self) -> Seq<Match> {
        Seq::new(
            self.count as nat,
            |i: int| Match { len: self.len@[i] as int, dist: self.dist@[i] as int },
        )
    }
}

/// A way of finding matches. A finder takes up the positions of the stream one by one.
pub trait MatchFind: Sized {
    /// How many bytes must be known from a position on before it can be taken up.
    spec fn lookahead(&self) -> int;

    /// How far back matches can lie.
    spec fn reach(&self) -> int;

    /// The finder has taken up the first `count` positions of the stream.
    spec fn knows(&self, stream: Seq<u8>, count: int) -> bool;

    /// The matches at position `pos`, the first one that has not been taken up.
    spec fn matches_at(
        &self,
        stream: Seq<u8>,
        pos: int,
        nice_len: int,
        match_len_max: int,
    ) -> Seq<Match>;

    /// What a finder knows stays true when more bytes follow.
    proof fn lemma_knows_extends(&self, stream: Seq<u8>, more: Seq<u8>, count: int)
        requires
            self.knows(stream, count),
        ensures
            self.knows(stream + more, count),
    ;

    /// Moves on to the next byte and finds the matches there.
    fn find_matches(&mut self, encoder: &mut LZEncoderData, matches: &mut Matches)
        requires
            old(encoder).wf(),
            old(encoder).reaches_back(),
            old(encoder).read_pos + 1 < old(encoder).write_pos,
            old(encoder).settled(old(self).lookahead()),
            old(encoder).keep_size_before >= old(self).reach(),
            old(self).knows(old(encoder).stream@, old(encoder).processed()),
            old(matches).wf(),
            old(matches).room() >= old(encoder).nice_len - 1,
        ensures
            final(encoder).wf(),
            final(encoder).moved_from(old(encoder), 1, old(self).lookahead()),
            final(self).lookahead() == old(self).lookahead(),
            final(self).reach() == old(self).reach(),
            forall|stream: Seq<u8>, pos: int, nice_len: int, match_len_max: int| #[trigger]
                final(self).matches_at(stream, pos, nice_len, match_len_max) == old(
                    self,
                ).matches_at(stream, pos, nice_len, match_len_max),
            final(self).knows(final(encoder).stream@, final(encoder).processed()),
            final(matches).wf(),
            final(matches).room() == old(matches).room(),
            final(matches).found() == old(self).matches_at(
                old(encoder).stream@,
                old(encoder).pos() + 1,
                old(encoder).nice_len as int,
                old(encoder).match_len_max as int,
            ),
            all_true(
                final(matches).found(),
                final(encoder).stream@,
                final(encoder).pos(),
                old(encoder).match_len_max as int,
                old(self).reach(),
            ),
    ;

    /// Moves on by `len` bytes without looking for matches.
    fn skip(&mut self, encoder: &mut LZEncoderData, len: usize)
        requires
            old(encoder).wf(),
            old(encoder).read_pos + len < old(encoder).write_pos,
            old(encoder).settled(old(self).lookahead()),
            old(self).knows(old(encoder).stream@, old(encoder).processed()),
        ensures
            final(encoder).wf(),
            final(encoder).moved_from(old(encoder), len as int, old(self).lookahead()),
            final(self).lookahead() == old(self).lookahead(),
            final(self).reach() == old(self).reach(),
            forall|stream: Seq<u8>, pos: int, nice_len: int, match_len_max: int| #[trigger]
                final(self).matches_at(stream, pos, nice_len, match_len_max) == old(
                    self,
                ).matches_at(stream, pos, nice_len, match_len_max),
            final(self).knows(final(encoder).stream@, final(encoder).processed()),
    ;
}

/// Both finders find the same matches in the same stream.
pub open spec fn finds_alike<M: MatchFind>(a: &M, b: &M) -> bool {
    &&& a.lookahead() == b.lookahead()
    &&& a.reach() == b.reach()
    &&& forall|stream: Seq<u8>, pos: int, nice_len: int, match_len_max: int| #[trigger]
        a.matches_at(stream, pos, nice_len, match_len_max) == b.matches_at(
            stream,
            pos,
            nice_len,
            match_len_max,
        )
}

/// The kinds of match finders.
#[derive(Debug, Clone, Copy, PartialEq, Eq, Structural)]
pub enum MFType {
    /// Hash chain with 4-byte matching.
    HC4,
    /// Binary tree with 4-byte matching.
    BT4,
}

impl Default for MFType {
    fn default() -> (mf: Self)
        ensures
            mf == MFType::HC4,
    {
        Self::HC4
    }
}

impl MFType {
    /// The memory that a match finder of this kind is accounted with, in KiB. That of a binary
    /// tree is up to its implementation.
    pub open spec fn memory_usage(self, dict_size: u32, tree_usage: u32) -> int {
        match self {
            MFType::HC4 => super::hc4::mem_usage(dict_size),
            MFType::BT4 => tree_usage as int,
        }
    }

    fn get_memory_usage(self, dict_size: u32, tree_usage: u32) -> (kib: u32)
        requires
            dict_size >= 1,
        ensures
            kib == self.memory_usage(dict_size, tree_usage),
    {
        match self {
            MFType::HC4 => HC4::get_mem_usage(dict_size),
            MFType::BT4 => tree_usage,
        }
    }
}

/// How many of `pending` positions stay pending when they are tried again: those from which on
/// there are fewer than `lookahead` bytes, or all of them when nothing may be read.
pub open spec fn still_pending(
    pending: int,
    read_pos: int,
    write_pos: int,
    read_limit: int,
    lookahead: int,
) -> int {
    let ready = write_pos - lookahead - (read_pos - pending);
    if read_pos >= read_limit || ready <= 0 {
        pending
    } else if ready < pending {
        pending - ready
    } else {
        0
    }
}

/// How many bytes a match at `pos` can have: no more than there are, and no more than the maximum.
pub open spec fn len_limit(stream: Seq<u8>, pos: int, match_len_max: int) -> int {
    if stream.len() - pos < match_len_max {
        stream.len() - pos
    } else {
        match_len_max
    }
}

/// Every match lies within reach and is exactly as long as it says, and each is longer than the
/// one before.
pub open spec fn all_true(
    found: Seq<Match>,
    stream: Seq<u8>,
    pos: int,
    match_len_max: int,
    reach: int,
) -> bool {
    &&& forall|i: int|
        0 <= i < found.len() ==> {
            &&& 0 <= (#[trigger] found[i]).dist < reach
            &&& found[i].dist < pos
            &&& found[i].len == super::history::match_len(
                stream,
                pos,
                found[i].dist + 1,
                len_limit(stream, pos, match_len_max),
            )
            &&& found[i].len >= 2
        }
    &&& forall|i: int, j: int| 0 <= i < j < found.len() ==> found[i].len < found[j].len
}

/// The window: `buf[..write_pos]` holds the bytes that were put in last, and `read_pos` is the
/// position of the byte that is being looked at.
pub struct LZEncoderData {
    pub keep_size_before: u32,
    pub keep_size_after: u32,
    pub match_len_max: u32,
    pub nice_len: u32,
    pub buf: Vec<u8>,
    pub buf_size: u32,
    pub buf_limit: usize,
    pub read_pos: i32,
    pub read_limit: i32,
    pub finishing: bool,
    pub write_pos: i32,
    pub pending_size: u32,
    /// All bytes that were ever put into the window.
    pub stream: Ghost<Seq<u8>>,
    /// How many of them have left it again.
    pub dropped: Ghost<int>,
}

impl LZEncoderData {
    /// The window holds the end of the stream, and all positions are in range.
    pub open spec fn wf(&self) -> bool {
        &&& 1 <= self.keep_size_before
        &&& self.match_len_max <= self.keep_size_after
        &&& 3 <= self.match_len_max
        &&& 3 <= self.nice_len <= i32::MAX
        &&& self.buf@.len() == self.buf_size
        &&& 1 <= self.buf_size <= i32::MAX
        &&& self.buf_limit == self.buf_size - 1
        &&& self.keep_size_before + self.keep_size_after + RESERVE_MIN <= self.buf_size
        &&& -1 <= self.read_pos < self.write_pos <= self.buf_size
        &&& self.read_limit < self.write_pos
        &&& self.write_pos >= self.keep_size_after ==> self.read_limit >= -1
        &&& self.pending_size <= self.read_pos + 1
        &&& 0 <= self.dropped@
        &&& self.stream@.len() == self.dropped@ + self.write_pos
        &&& forall|i: int|
            0 <= i < self.write_pos ==> #[trigger] self.buf@[i] == self.stream@[self.dropped@ + i]
    }

    /// Enough of the past is still in the window.
    pub open spec fn reaches_back(&self) -> bool {
        self.dropped@ == 0 || self.read_pos + 1 >= self.keep_size_before
    }

    /// Where in the stream the current byte is.
    pub open spec fn pos(&self) -> int {
        self.dropped@ + self.read_pos
    }

    /// The number of positions of the stream that have been handed to the match finder.
    pub open spec fn processed(&self) -> int {
        self.pos() - self.pending_size + 1
    }

    /// A match finder that needs `lookahead` bytes from a position on cannot take up any of the
    /// pending positions yet.
    pub open spec fn settled(&self, lookahead: int) -> bool {
        self.pending_size == 0 || self.pending_size + (self.write_pos - self.read_pos) <= lookahead
    }

    /// All that does not change when the window is read.
    pub open spec fn same_contents(&self, other: &Self) -> bool {
        &&& self.keep_size_before == other.keep_size_before
        &&& self.keep_size_after == other.keep_size_after
        &&& self.match_len_max == other.match_len_max
        &&& self.nice_len == other.nice_len
        &&& self.buf@ == other.buf@
        &&& self.buf_size == other.buf_size
        &&& self.buf_limit == other.buf_limit
        &&& self.read_limit == other.read_limit
        &&& self.finishing == other.finishing
        &&& self.write_pos == other.write_pos
        &&& self.stream@ == other.stream@
        &&& self.dropped@ == other.dropped@
    }

    /// How many of the next `len` positions can be taken up by a finder that needs `lookahead`
    /// bytes.
    pub open spec fn ready(&self, len: int, lookahead: int) -> int {
        let ready = self.write_pos - lookahead - self.read_pos;
        if ready < 0 {
            0
        } else if ready < len {
            ready
        } else {
            len
        }
    }

    /// `self` is what `before` becomes when it moves on by `len` positions.
    pub open spec fn moved_from(&self, before: &Self, len: int, lookahead: int) -> bool {
        &&& self.same_contents(before)
        &&& self.read_pos == before.read_pos + len
        &&& self.pending_size == before.pending_size + len - before.ready(len, lookahead)
    }

    /// Moves on to the next byte and returns how many bytes there are from it on, or 0 when they
    /// are too few: fewer than `required_for_flushing`, and also fewer than
    /// `required_for_finishing` unless no more are to come.
    pub fn move_pos(&mut self, required_for_flushing: i32, required_for_finishing: i32) -> (avail:
        i32)
        requires
            old(self).wf(),
            old(self).read_pos + 1 < old(self).write_pos,
            required_for_flushing >= required_for_finishing,
        ensures
            final(self).wf(),
            final(self).same_contents(old(self)),
            final(self).read_pos == old(self).read_pos + 1,
            ({
                let ahead = old(self).write_pos - old(self).read_pos - 1;
                let too_few = ahead < required_for_flushing && (ahead < required_for_finishing
                    || !old(self).finishing);
                &&& avail == if too_few { 0 } else { ahead }
                &&& final(self).pending_size == old(self).pending_size + if too_few {
                    1int
                } else {
                    0
                }
            }),
    {
        self.read_pos = self.read_pos + 1;
        let mut avail: i32 = self.write_pos - self.read_pos;
        if avail < required_for_flushing && (avail < required_for_finishing || !self.finishing) {
            self.pending_size = self.pending_size + 1;
            avail = 0;
        }
        avail
    }

    /// Whether a first byte has been looked at.
    pub fn is_started(&self) -> (started: bool)
        ensures
            started == (self.read_pos != -1),
    {
        self.read_pos != -1
    }

    /// The window from the current byte on.
    pub fn read_buffer(&self) -> (bytes: &[u8])
        requires
            self.wf(),
            self.read_pos >= 0,
        ensures
            bytes@ == self.buf@.subrange(self.read_pos as int, self.buf@.len() as int),
    {
        vstd::slice::slice_subrange(
            self.buf.as_slice(),
            self.read_pos as usize,
            self.buf.len(),
        )
    }

    /// Starts the window with the end of a preset dictionary.
    pub fn set_preset_dict<M: MatchFind>(
        &mut self,
        dict_size: u32,
        preset_dict: &[u8],
        match_finder: &mut M,
    )
        requires
            old(self).wf(),
            old(self).read_pos == -1,
            old(self).read_limit == -1,
            old(self).write_pos == 0,
            dict_size <= old(self).buf_size,
            old(self).pending_size == 0,
            old(self).stream@ == Seq::<u8>::empty(),
            old(match_finder).knows(Seq::<u8>::empty(), 0),
            old(match_finder).lookahead() >= 1,
        ensures
            final(self).wf(),
            final(self).reaches_back(),
            finds_alike(final(match_finder), old(match_finder)),
            final(match_finder).knows(final(self).stream@, final(self).processed()),
            final(self).stream@ == preset_dict@.skip(
                if preset_dict@.len() < dict_size {
                    0
                } else {
                    preset_dict@.len() - dict_size
                },
            ),
            final(self).read_pos == final(self).write_pos - 1,
            final(self).write_pos == final(self).stream@.len(),
            final(self).pending_size == if final(self).write_pos < old(match_finder).lookahead() {
                final(self).write_pos as int
            } else {
                old(match_finder).lookahead() - 1
            },
            final(self).same_settings(old(self)),
            final(self).read_limit == old(self).read_limit,
            final(self).finishing == old(self).finishing,
    {
        let copy_size: usize = if preset_dict.len() < dict_size as usize {
            preset_dict.len()
        } else {
            dict_size as usize
        };
        let offset: usize = preset_dict.len() - copy_size;
        let ghost before = *self;
        self.copy_in(preset_dict, offset, 0, copy_size);
        self.write_pos = copy_size as i32;
        proof {
            self.stream@ = preset_dict@.skip(offset as int);
            match_finder.lemma_knows_extends(Seq::<u8>::empty(), self.stream@, 0);
            assert(Seq::<u8>::empty() + self.stream@ == self.stream@);
        }
        match_finder.skip(self, copy_size);
    }

    /// Copies `len` bytes of `source` from `from` on to the window at `to`.
    fn copy_in(&mut self, source: &[u8], from: usize, to: usize, len: usize)
        requires
            from + len <= source@.len(),
            to + len <= old(self).buf@.len(),
        ensures
            final(self).buf@.len() == old(self).buf@.len(),
            forall|i: int|
                0 <= i < old(self).buf@.len() ==> #[trigger] final(self).buf@[i] == if to <= i < to
                    + len {
                    source@[from + i - to]
                } else {
                    old(self).buf@[i]
                },
            final(self).same_positions(old(self)),
            final(self).same_settings(old(self)),
            final(self).read_limit == old(self).read_limit,
            final(self).finishing == old(self).finishing,
    {
        let mut i: usize = 0;
        let ghost before = *self;
        assert(from + len <= source.len() && to + len <= self.buf.len());
        while i < len
            invariant
                i <= len,
                from + len <= source@.len() <= usize::MAX,
                to + len <= before.buf@.len() <= usize::MAX,
                self.buf@.len() == before.buf@.len(),
                forall|j: int|
                    0 <= j < before.buf@.len() ==> #[trigger] self.buf@[j] == if to <= j < to + i {
                        source@[from + j - to]
                    } else {
                        before.buf@[j]
                    },
                self.same_positions(&before),
                self.same_settings(&before),
                self.read_limit == before.read_limit,
                self.finishing == before.finishing,
            decreases len - i,
        {
            self.buf[to + i] = source[from + i];
            i += 1;
        }
    }

    /// What is fixed when the window is made.
    pub open spec fn same_settings(&self, other: &Self) -> bool {
        &&& self.keep_size_before == other.keep_size_before
        &&& self.keep_size_after == other.keep_size_after
        &&& self.match_len_max == other.match_len_max
        &&& self.nice_len == other.nice_len
        &&& self.buf_size == other.buf_size
        &&& self.buf_limit == other.buf_limit
    }

    /// Neither the read nor the write position differs, nor what they mean in the stream.
    pub open spec fn same_positions(&self, other: &Self) -> bool {
        &&& self.read_pos == other.read_pos
        &&& self.write_pos == other.write_pos
        &&& self.pending_size == other.pending_size
        &&& self.stream@ == other.stream@
        &&& self.dropped@ == other.dropped@
    }

    /// Moves the bytes that are still needed to the front of the window, by a multiple of 16.
    fn move_window(&mut self)
        requires
            old(self).wf(),
            old(self).read_pos + 1 >= old(self).keep_size_before,
            old(self).read_limit - (old(self).read_pos + 1 - old(self).keep_size_before) / 16 * 16
                >= i32::MIN,
            old(self).pending_size <= old(self).keep_size_before,
        ensures
            final(self).same_settings(old(self)),
            final(self).finishing == old(self).finishing,
            final(self).pending_size == old(self).pending_size,
            final(self).stream@ == old(self).stream@,
            ({
                let offset = (old(self).read_pos + 1 - old(self).keep_size_before) / 16 * 16;
                &&& final(self).dropped@ == old(self).dropped@ + offset
                &&& final(self).read_pos == old(self).read_pos - offset
                &&& final(self).write_pos == old(self).write_pos - offset
                &&& final(self).read_limit == old(self).read_limit - offset
            }),
            final(self).buf@.len() == old(self).buf@.len(),
            forall|i: int|
                0 <= i < final(self).write_pos ==> #[trigger] final(self).buf@[i]
                    == final(self).stream@[final(self).dropped@ + i],
            final(self).reaches_back(),
    {
        let surplus: i32 = self.read_pos + 1 - self.keep_size_before as i32;
        let move_offset: i32 = surplus & !15;
        assert(surplus >= 0 ==> surplus & !15 == surplus / 16 * 16) by (bit_vector);
        let move_size: usize = (self.write_pos - move_offset) as usize;
        let offset: usize = move_offset as usize;
        let mut i: usize = 0;
        let ghost before = *self;
        assert(offset + move_size <= self.buf.len());
        while i < move_size
            invariant
                i <= move_size,
                offset + move_size <= before.buf@.len() <= usize::MAX,
                self.buf@.len() == before.buf@.len(),
                forall|j: int| 0 <= j < i ==> #[trigger] self.buf@[j] == before.buf@[offset + j],
                forall|j: int| i <= j < before.buf@.len() ==> self.buf@[j] == before.buf@[j],
                self.same_positions(&before),
                self.same_settings(&before),
                self.read_limit == before.read_limit,
                self.finishing == before.finishing,
            decreases move_size - i,
        {
            let byte: u8 = self.buf[offset + i];
            self.buf[i] = byte;
            i += 1;
        }
        self.read_pos = self.read_pos - move_offset;
        self.read_limit = self.read_limit - move_offset;
        self.write_pos = self.write_pos - move_offset;
        proof {
            self.dropped@ = self.dropped@ + move_offset;
        }
        assert forall|j: int| 0 <= j < self.write_pos implies #[trigger] self.buf@[j]
            == self.stream@[self.dropped@ + j] by {
            assert(self.buf@[j] == before.buf@[offset + j]);
        }
    }

    /// The window and a match finder agree on what has been taken up, and nothing is left pending
    /// that could be taken up while there is more to read.
    pub open spec fn in_step<M: MatchFind>(&self, match_finder: &M) -> bool {
        &&& self.wf()
        &&& self.reaches_back()
        &&& match_finder.knows(self.stream@, self.processed())
        &&& self.pending_size < match_finder.lookahead() <= self.keep_size_before
        &&& match_finder.reach() <= self.keep_size_before
        &&& self.read_pos < self.read_limit ==> self.settled(match_finder.lookahead())
    }

    /// How far the window is moved before it is filled.
    pub open spec fn fill_offset(&self) -> int {
        if self.read_pos >= self.buf_size - self.keep_size_after {
            (self.read_pos + 1 - self.keep_size_before) / 16 * 16
        } else {
            0
        }
    }

    /// The limit for reading can be moved together with the window. It always can if the window
    /// has room for twice the bytes that are kept behind the limit; otherwise it may have moved
    /// below zero before.
    pub open spec fn limit_can_move(&self) -> bool {
        2 * self.keep_size_after <= self.buf_size || self.read_limit - self.fill_offset()
            >= i32::MIN
    }

    /// How many bytes can be put into the window at once.
    pub open spec fn fill_room(&self) -> int {
        self.buf_size - (self.write_pos - self.fill_offset())
    }

    /// An encoder that has run out of readable bytes can always be given more: once the window has
    /// been filled or flushed, there is room in it whenever `has_enough_data` says no.
    pub proof fn lemma_room_when_starved(&self, already_read_len: int)
        requires
            self.wf(),
            already_read_len >= 0,
            self.read_pos - already_read_len >= self.read_limit,
            self.write_pos >= self.keep_size_after ==> self.read_limit >= self.write_pos
                - self.keep_size_after,
        ensures
            self.fill_room() >= 1,
    {
    }

    /// `self` is what `before` becomes when `more` is put in. Where the window is not moved, the
    /// bytes behind stay as they are.
    pub open spec fn filled_from(&self, before: &Self, more: Seq<u8>, lookahead: int) -> bool {
        &&& self.same_settings(before)
        &&& self.finishing == before.finishing
        &&& self.stream@ == before.stream@ + more
        &&& self.pos() == before.pos()
        &&& self.dropped@ == before.dropped@ + before.fill_offset()
        &&& self.buf@.len() == before.buf@.len()
        &&& before.fill_offset() == 0 ==> forall|i: int|
            self.write_pos <= i < self.buf@.len() ==> #[trigger] self.buf@[i] == before.buf@[i]
        &&& self.read_limit == if self.write_pos >= before.keep_size_after {
            self.write_pos - before.keep_size_after
        } else {
            before.read_limit - before.fill_offset()
        }
        &&& self.pending_size == still_pending(
            before.pending_size as int,
            self.read_pos as int,
            self.write_pos as int,
            self.read_limit as int,
            lookahead,
        )
    }

    /// `self` is what `before` becomes when all its bytes are made readable.
    pub open spec fn flushed_from(&self, before: &Self, lookahead: int) -> bool {
        &&& self.same_settings(before)
        &&& self.buf@ == before.buf@
        &&& self.stream@ == before.stream@
        &&& self.dropped@ == before.dropped@
        &&& self.read_pos == before.read_pos
        &&& self.write_pos == before.write_pos
        &&& self.read_limit == before.write_pos - 1
        &&& self.pending_size == still_pending(
            before.pending_size as int,
            self.read_pos as int,
            self.write_pos as int,
            self.read_limit as int,
            lookahead,
        )
    }

    /// A window that has been flushed can be read up to its last byte: wherever a reader is, there
    /// is more to read just if a byte follows. No byte is lost or changed.
    pub proof fn lemma_flushed_is_readable(&self, before: &Self, lookahead: int, read_pos: int)
        requires
            self.flushed_from(before, lookahead),
        ensures
            read_pos < self.read_limit <==> read_pos + 1 < self.write_pos,
            self.stream@ == before.stream@,
            self.buf@ == before.buf@,
            self.read_pos == before.read_pos,
            self.write_pos == before.write_pos,
    {
    }

    /// A window that has been filled can be read as long as there are as many bytes ahead as have
    /// to be kept, and the bytes that were put in come right behind those before. Of the past, as
    /// much stays as has to be kept.
    pub proof fn lemma_filled_is_readable(
        &self,
        before: &Self,
        more: Seq<u8>,
        lookahead: int,
        read_pos: int,
    )
        requires
            before.wf(),
            self.wf(),
            self.filled_from(before, more, lookahead),
        ensures
            self.write_pos >= self.keep_size_after ==> (read_pos < self.read_limit <==> read_pos
                + self.keep_size_after < self.write_pos),
            self.stream@ == before.stream@ + more,
            self.dropped@ + self.read_pos == before.dropped@ + before.read_pos,
            self.dropped@ + self.write_pos == before.dropped@ + before.write_pos + more.len(),
            self.dropped@ > before.dropped@ ==> self.read_pos + 1 >= self.keep_size_before,
            forall|i: int|
                0 <= i < self.write_pos ==> #[trigger] self.buf@[i] == (before.stream@
                    + more)[self.dropped@ + i],
    {
    }

    /// Puts as much of `input` into the window as there is room for, and returns how much that is.
    #[verifier::spinoff_prover]
    #[verifier::rlimit(60)]
    pub fn fill_window<M: MatchFind>(&mut self, input: &[u8], match_finder: &mut M) -> (len: usize)
        requires
            old(self).in_step(old(match_finder)),
            !old(self).finishing,
            old(self).limit_can_move(),
        ensures
            final(self).in_step(final(match_finder)),
            finds_alike(final(match_finder), old(match_finder)),
            len == if input@.len() < old(self).fill_room() {
                input@.len() as int
            } else {
                old(self).fill_room()
            },
            final(self).filled_from(
                old(self),
                input@.take(len as int),
                old(match_finder).lookahead(),
            ),
    {
        let ghost before = *self;
        if self.read_pos >= self.buf_size as i32 - self.keep_size_after as i32 {
            self.move_window();
        }
        let room: usize = (self.buf_size as i32 - self.write_pos) as usize;
        let len: usize = if input.len() < room { input.len() } else { room };
        let ghost moved = *self;
        self.copy_in(input, 0, self.write_pos as usize, len);
        self.write_pos = self.write_pos + len as i32;
        proof {
            let more = input@.take(len as int);
            match_finder.lemma_knows_extends(self.stream@, more, self.processed());
            self.stream@ = self.stream@ + more;
            assert forall|i: int| 0 <= i < self.write_pos implies #[trigger] self.buf@[i]
                == self.stream@[self.dropped@ + i] by {
                if i < moved.write_pos {
                    assert(moved.buf@[i] == moved.stream@[moved.dropped@ + i]);
                }
            }
        }
        if self.write_pos >= self.keep_size_after as i32 {
            self.read_limit = self.write_pos - self.keep_size_after as i32;
        }
        self.process_pending_bytes(match_finder);
        len
    }

    /// Tries the pending positions again.
    fn process_pending_bytes<M: MatchFind>(&mut self, match_finder: &mut M)
        requires
            old(self).wf(),
            old(match_finder).knows(old(self).stream@, old(self).processed()),
        ensures
            final(self).wf(),
            final(self).same_contents(old(self)),
            final(self).read_pos == old(self).read_pos,
            final(self).pending_size == still_pending(
                old(self).pending_size as int,
                final(self).read_pos as int,
                final(self).write_pos as int,
                final(self).read_limit as int,
                old(match_finder).lookahead(),
            ),
            final(self).read_pos < final(self).read_limit ==> final(self).settled(
                old(match_finder).lookahead(),
            ),
            finds_alike(final(match_finder), old(match_finder)),
            final(match_finder).knows(final(self).stream@, final(self).processed()),
    {
        if self.pending_size > 0 && self.read_pos < self.read_limit {
            let old_pending: u32 = self.pending_size;
            self.read_pos = self.read_pos - old_pending as i32;
            self.pending_size = 0;
            match_finder.skip(self, old_pending as usize);
        }
    }

    /// Makes all bytes in the window readable.
    pub fn set_flushing<M: MatchFind>(&mut self, match_finder: &mut M)
        requires
            old(self).in_step(old(match_finder)),
        ensures
            final(self).in_step(final(match_finder)),
            finds_alike(final(match_finder), old(match_finder)),
            final(self).finishing == old(self).finishing,
            final(self).flushed_from(old(self), old(match_finder).lookahead()),
    {
        self.read_limit = self.write_pos - 1;
        self.process_pending_bytes(match_finder);
    }

    /// Makes all bytes in the window readable, and no more are to come.
    pub fn set_finishing<M: MatchFind>(&mut self, match_finder: &mut M)
        requires
            old(self).in_step(old(match_finder)),
        ensures
            final(self).in_step(final(match_finder)),
            finds_alike(final(match_finder), old(match_finder)),
            final(self).finishing,
            final(self).flushed_from(old(self), old(match_finder).lookahead()),
    {
        self.read_limit = self.write_pos - 1;
        self.finishing = true;
        self.process_pending_bytes(match_finder);
    }

    /// Whether there is more to read when `already_read_len` bytes were read ahead.
    pub fn has_enough_data(&self, already_read_len: i32) -> (enough: bool)
        requires
            i32::MIN <= self.read_pos - already_read_len <= i32::MAX,
        ensures
            enough == (self.read_pos - already_read_len < self.read_limit),
    {
        self.read_pos - already_read_len < self.read_limit
    }

    /// Appends `len` bytes to `out`, from `backward - 1` bytes before the current one on.
    pub fn copy_uncompressed(&self, out: &mut Vec<u8>, backward: i32, len: usize)
        requires
            0 <= self.read_pos + 1 - backward <= i32::MAX,
            self.read_pos < i32::MAX,
            self.read_pos + 1 - backward + len <= self.buf@.len(),
        ensures
            final(out)@ == old(out)@ + self.buf@.subrange(
                self.read_pos + 1 - backward,
                self.read_pos + 1 - backward + len,
            ),
    {
        let start: usize = (self.read_pos + 1 - backward) as usize;
        assert(start + len <= self.buf.len());
        let bytes = vstd::slice::slice_subrange(self.buf.as_slice(), start, start + len);
        out.extend_from_slice(bytes);
        assert(out@ == old(out)@ + bytes@);
    }

    /// How many bytes there are from the current one on.
    pub fn get_avail(&self) -> (avail: i32)
        requires
            self.wf(),
            self.read_pos != -1,
        ensures
            avail == self.write_pos - self.read_pos,
    {
        self.write_pos - self.read_pos
    }

    /// The position of the current byte in the window.
    pub fn get_pos(&self) -> (pos: i32)
        ensures
            pos == self.read_pos,
    {
        self.read_pos
    }

    /// The byte at `pos`, or the last byte of the window when there is no such position.
    pub open spec fn byte_at(&self, pos: int) -> u8 {
        if 0 <= pos <= self.buf_limit {
            self.buf@[pos]
        } else {
            self.buf@[self.buf_limit as int]
        }
    }

    /// The bytes of the window are those of the stream.
    pub proof fn lemma_window_bytes(&self)
        requires
            self.wf(),
        ensures
            forall|i: int|
                0 <= i < self.write_pos ==> #[trigger] self.byte_at(i) == self.stream@[self.dropped@
                    + i],
            forall|i: int|
                0 <= i < self.write_pos - self.read_pos && self.read_pos >= 0
                    ==> #[trigger] self.stream@[self.pos() + i] == self.buf@[self.read_pos + i],
    {
        assert forall|i: int|
            0 <= i < self.write_pos - self.read_pos && self.read_pos
                >= 0 implies #[trigger] self.stream@[self.pos()
            + i] == self.buf@[self.read_pos + i] by {
            let k = self.read_pos + i;
            assert(self.buf@[k] == self.stream@[self.dropped@ + k]);
        }
    }

    /// The byte `forward` bytes after and `backward` bytes before the current one.
    pub fn get_byte(&self, forward: i32, backward: i32) -> (byte: u8)
        requires
            self.wf(),
            i32::MIN <= self.read_pos + forward <= i32::MAX,
            i32::MIN <= self.read_pos + forward - backward <= i32::MAX,
        ensures
            byte == self.byte_at(self.read_pos + forward - backward),
    {
        self.get_byte_by_pos(self.read_pos + forward - backward)
    }

    /// The byte at a position in the window.
    pub fn get_byte_by_pos(&self, pos: i32) -> (byte: u8)
        requires
            self.wf(),
        ensures
            byte == self.byte_at(pos as int),
    {
        if pos < 0 || pos as usize > self.buf_limit {
            self.buf[self.buf_limit]
        } else {
            self.buf[pos as usize]
        }
    }

    /// The byte `backward` bytes before the current one.
    pub fn get_byte_backward(&self, backward: i32) -> (byte: u8)
        requires
            0 <= self.read_pos - backward < self.buf@.len(),
            self.read_pos - backward <= i32::MAX,
        ensures
            byte == self.buf@[self.read_pos - backward],
    {
        self.buf[(self.read_pos - backward) as usize]
    }

    /// The current byte.
    pub fn get_current_byte(&self) -> (byte: u8)
        requires
            0 <= self.read_pos < self.buf@.len(),
        ensures
            byte == self.buf@[self.read_pos as int],
    {
        self.buf[self.read_pos as usize]
    }

    /// The length of the match between the bytes `forward` bytes after the current one and those
    /// `dist + 1` bytes earlier, when at most `len_limit` bytes are looked at.
    pub open spec fn match_len_in_window(&self, forward: int, dist: int, len_limit: int) -> int {
        if len_limit <= 0 {
            0
        } else {
            super::history::match_len(self.buf@, self.read_pos + forward, dist + 1, len_limit)
        }
    }

    /// The length of a match is the number of bytes that are the same, up to the first that differs
    /// or to the limit.
    pub proof fn lemma_match_len_counts(&self, forward: int, dist: int, len_limit: int)
        requires
            0 <= dist < self.read_pos + forward,
            0 <= len_limit,
            self.read_pos + forward + len_limit <= self.buf@.len(),
        ensures
            ({
                let n = self.match_len_in_window(forward, dist, len_limit);
                let at = self.read_pos + forward;
                &&& 0 <= n <= len_limit
                &&& forall|i: int|
                    0 <= i < n ==> #[trigger] self.buf@[at + i] == self.buf@[at - (dist + 1) + i]
                &&& n < len_limit ==> self.buf@[at + n] != self.buf@[at - (dist + 1) + n]
            }),
    {
        super::history::lemma_match_len(self.buf@, self.read_pos + forward, dist + 1, len_limit);
    }

    /// The length of the match at the current byte with the bytes `dist + 1` bytes earlier.
    pub fn get_match_len(&self, dist: i32, len_limit: i32) -> (len: usize)
        requires
            0 <= dist < self.read_pos,
            self.read_pos + len_limit <= self.buf@.len(),
            self.read_pos + len_limit <= i32::MAX,
        ensures
            len == self.match_len_in_window(0, dist as int, len_limit as int),
    {
        self.get_match_len2(0, dist, len_limit) as usize
    }

    /// The length of the match `forward` bytes after the current byte with the bytes `dist + 1`
    /// bytes earlier.
    pub fn get_match_len2(&self, forward: i32, dist: i32, len_limit: i32) -> (len: u32)
        requires
            0 <= dist < self.read_pos + forward <= i32::MAX,
            self.read_pos + forward + len_limit <= self.buf@.len(),
            self.read_pos + forward + len_limit <= i32::MAX,
        ensures
            len == self.match_len_in_window(forward as int, dist as int, len_limit as int),
    {
        let cur_pos: usize = (self.read_pos + forward) as usize;
        let back_pos: usize = cur_pos - dist as usize - 1;
        let mut len: i32 = 0;
        while len < len_limit && self.buf[cur_pos + len as usize] == self.buf[back_pos
            + len as usize]
            invariant
                0 <= len,
                len <= len_limit || len == 0,
                cur_pos == self.read_pos + forward,
                0 <= dist < cur_pos,
                back_pos == cur_pos - dist - 1,
                cur_pos + len_limit <= self.buf@.len(),
                cur_pos + len_limit <= i32::MAX,
                forall|i: int|
                    0 <= i < len ==> #[trigger] self.buf@[cur_pos + i] == self.buf@[cur_pos - (dist
                        + 1) + i],
            decreases len_limit - len,
        {
            len += 1;
        }
        proof {
            if len_limit > 0 {
                super::history::lemma_match_len_unique(
                    self.buf@,
                    cur_pos as int,
                    dist + 1,
                    len_limit as int,
                    len as int,
                );
            }
        }
        len as u32
    }

    /// Every match in use has exactly the length it says.
    pub open spec fn verified(&self, matches: &Matches) -> bool {
        forall|i: int|
            0 <= i < matches.count ==> #[trigger] matches.found()[i].len
                == self.match_len_in_window(
                0,
                matches.found()[i].dist,
                len_limit(self.stream@, self.pos(), self.match_len_max as int),
            )
    }

    /// Matches that are true of the stream are true of the window.
    pub proof fn lemma_true_matches_verify(&self, matches: &Matches, reach: int)
        requires
            self.wf(),
            self.read_pos >= 0,
            self.dropped@ == 0 || self.read_pos >= self.keep_size_before,
            reach <= self.keep_size_before,
            all_true(
                matches.found(),
                self.stream@,
                self.pos(),
                self.match_len_max as int,
                reach,
            ),
        ensures
            self.verified(matches),
            forall|i: int|
                0 <= i < matches.count ==> 0 <= (#[trigger] matches.found()[i]).dist
                    < self.read_pos,
    {
        let limit = len_limit(self.stream@, self.pos(), self.match_len_max as int);
        assert forall|i: int| 0 <= i < matches.count implies {
            &&& #[trigger] matches.found()[i].len == self.match_len_in_window(
                0,
                matches.found()[i].dist,
                limit,
            )
            &&& 0 <= matches.found()[i].dist < self.read_pos
        } by {
            let d = matches.found()[i].dist + 1;
            self.lemma_match_len_in_window(d, limit);
        }
    }

    /// A match has the same length in the window as in the stream.
    pub proof fn lemma_match_len_in_window(&self, distance: int, limit: int)
        requires
            self.wf(),
            0 < distance <= self.read_pos,
            0 < limit <= self.write_pos - self.read_pos,
        ensures
            super::history::match_len(self.stream@, self.pos(), distance, limit)
                == super::history::match_len(self.buf@, self.read_pos as int, distance, limit),
    {
        let p = self.pos();
        let r = self.read_pos as int;
        assert forall|i: int, j: int|
            0 <= i <= j <= self.write_pos implies #[trigger] self.stream@.subrange(
            self.dropped@ + i,
            self.dropped@ + j,
        ) == self.buf@.subrange(i, j) by {
            assert forall|k: int| 0 <= k < j - i implies self.stream@.subrange(
                self.dropped@ + i,
                self.dropped@ + j,
            )[k] == self.buf@.subrange(i, j)[k] by {
                assert(self.buf@[i + k] == self.stream@[self.dropped@ + (i + k)]);
            }
            assert(self.stream@.subrange(self.dropped@ + i, self.dropped@ + j)
                =~= self.buf@.subrange(i, j));
        }
        assert(self.stream@.subrange(self.dropped@ + r, self.dropped@ + (r + limit))
            == self.buf@.subrange(r, r + limit));
        assert(self.stream@.subrange(
            self.dropped@ + (r - distance),
            self.dropped@ + (r - distance + limit),
        ) == self.buf@.subrange(r - distance, r - distance + limit));
    }

    /// Checks that every match has exactly the length it says.
    pub fn verify_matches(&self, matches: &Matches) -> (ok: bool)
        requires
            self.wf(),
            self.read_pos != -1,
            matches.wf(),
            forall|i: int|
                0 <= i < matches.count ==> 0 <= (#[trigger] matches.found()[i]).dist
                    < self.read_pos,
        ensures
            ok == self.verified(matches),
    {
        let avail: i32 = self.get_avail();
        let limit: i32 = if avail < self.match_len_max as i32 {
            avail
        } else {
            self.match_len_max as i32
        };
        let mut i: usize = 0;
        while i < matches.count as usize
            invariant
                i <= matches.count,
                self.wf(),
                matches.wf(),
                0 <= self.read_pos,
                limit == len_limit(self.stream@, self.pos(), self.match_len_max as int),
                self.read_pos + limit <= self.write_pos,
                forall|j: int|
                    0 <= j < matches.count ==> 0 <= (#[trigger] matches.found()[j]).dist
                        < self.read_pos,
                forall|j: int|
                    0 <= j < i ==> #[trigger] matches.found()[j].len == self.match_len_in_window(
                        0,
                        matches.found()[j].dist,
                        limit as int,
                    ),
            decreases matches.count - i,
        {
            assert(matches.found()[i as int].dist == matches.dist@[i as int]);
            let len: usize = self.get_match_len(matches.dist[i], limit);
            if len != matches.len[i] as usize {
                assert(matches.found()[i as int].len != len);
                return false;
            }
            i += 1;
        }
        true
    }
}

/// The size of the window for a dictionary of `dict_size` bytes.
pub open spec fn buf_size(
    dict_size: int,
    extra_size_before: int,
    extra_size_after: int,
    match_len_max: int,
) -> int {
    let reserve = dict_size / 2 + RESERVE_MIN;
    extra_size_before + dict_size + extra_size_after + match_len_max + if reserve < RESERVE_MAX {
        reserve
    } else {
        RESERVE_MAX as int
    }
}

/// The window has room for all the bytes that are to be kept on either side, and for 256 KiB more.
pub proof fn lemma_buf_size_is_enough(
    dict_size: int,
    extra_size_before: int,
    extra_size_after: int,
    match_len_max: int,
)
    requires
        dict_size >= 0,
    ensures
        buf_size(dict_size, extra_size_before, extra_size_after, match_len_max)
            >= extra_size_before + dict_size + extra_size_after + match_len_max + 0x40000,
{
}

fn get_buf_size(
    dict_size: u32,
    extra_size_before: u32,
    extra_size_after: u32,
    match_len_max: u32,
) -> (size: u32)
    requires
        buf_size(
            dict_size as int,
            extra_size_before as int,
            extra_size_after as int,
            match_len_max as int,
        ) <= u32::MAX,
    ensures
        size == buf_size(
            dict_size as int,
            extra_size_before as int,
            extra_size_after as int,
            match_len_max as int,
        ),
{
    let keep_size_before: u32 = extra_size_before + dict_size;
    let keep_size_after: u32 = extra_size_after + match_len_max;
    let reserve: u32 = dict_size / 2 + RESERVE_MIN;
    let reserve_size: u32 = if reserve < RESERVE_MAX { reserve } else { RESERVE_MAX };
    keep_size_before + keep_size_after + reserve_size
}

/// An encoder's window together with its match finder.
pub struct LZEncoder<M: MatchFind> {
    pub data: LZEncoderData,
    pub matches: Matches,
    pub match_finder: M,
}

impl<M: MatchFind> LZEncoder<M> {
    /// The window and the match finder are in step, and there is room for all matches.
    pub open spec fn wf(&self) -> bool {
        &&& self.data.in_step(&self.match_finder)
        &&& self.matches.wf()
        &&& self.matches.room() == self.data.nice_len - 1
    }

    /// Nothing has been put in yet.
    pub open spec fn is_new(&self) -> bool {
        &&& self.data.stream@ == Seq::<u8>::empty()
        &&& self.data.read_pos == -1
        &&& self.data.read_limit == -1
        &&& self.data.write_pos == 0
        &&& self.data.pending_size == 0
        &&& !self.data.finishing
    }

    /// Makes an encoder with an empty window.
    pub fn new(
        dict_size: u32,
        extra_size_before: u32,
        extra_size_after: u32,
        nice_len: u32,
        match_len_max: u32,
        match_finder: M,
    ) -> (encoder: Self)
        requires
            buf_size(
                dict_size as int,
                extra_size_before as int,
                extra_size_after as int,
                match_len_max as int,
            ) <= i32::MAX,
            3 <= match_len_max,
            3 <= nice_len <= i32::MAX,
            match_finder.knows(Seq::<u8>::empty(), 0),
            1 <= match_finder.lookahead() <= extra_size_before + dict_size,
            match_finder.reach() <= extra_size_before + dict_size,
        ensures
            encoder.wf(),
            encoder.is_new(),
            encoder.match_finder == match_finder,
            encoder.matches.found() == Seq::<Match>::empty(),
            encoder.data.keep_size_before == extra_size_before + dict_size,
            encoder.data.keep_size_after == extra_size_after + match_len_max,
            encoder.data.nice_len == nice_len,
            encoder.data.match_len_max == match_len_max,
            encoder.data.buf_size == buf_size(
                dict_size as int,
                extra_size_before as int,
                extra_size_after as int,
                match_len_max as int,
            ),
    {
        let buf_size: u32 = get_buf_size(
            dict_size,
            extra_size_before,
            extra_size_after,
            match_len_max,
        );
        let data = LZEncoderData {
            keep_size_before: extra_size_before + dict_size,
            keep_size_after: extra_size_after + match_len_max,
            match_len_max,
            nice_len,
            buf: vec![0u8; buf_size as usize],
            buf_size,
            buf_limit: (buf_size - 1) as usize,
            read_pos: -1,
            read_limit: -1,
            finishing: false,
            write_pos: 0,
            pending_size: 0,
            stream: Ghost(Seq::empty()),
            dropped: Ghost(0),
        };
        LZEncoder { data, matches: Matches::new(nice_len as usize - 1), match_finder }
    }

    /// Moves on to the next byte and finds the matches there.
    pub fn find_matches(&mut self)
        requires
            old(self).wf(),
            old(self).data.settled(old(self).match_finder.lookahead()),
            old(self).data.read_pos + 1 < old(self).data.write_pos,
        ensures
            final(self).wf(),
            final(self).data.moved_from(&old(self).data, 1, old(self).match_finder.lookahead()),
            finds_alike(&final(self).match_finder, &old(self).match_finder),
            final(self).matches.found() == old(self).match_finder.matches_at(
                old(self).data.stream@,
                old(self).data.pos() + 1,
                old(self).data.nice_len as int,
                old(self).data.match_len_max as int,
            ),
            final(self).data.verified(&final(self).matches),
            forall|i: int|
                0 <= i < final(self).matches.count ==> {
                    let found = #[trigger] final(self).matches.found()[i];
                    0 <= found.dist < final(self).data.read_pos
                },
    {
        self.match_finder.find_matches(&mut self.data, &mut self.matches);
        proof {
            self.data.lemma_true_matches_verify(&self.matches, self.match_finder.reach());
        }
    }

    /// The matches that were found last.
    pub fn matches(&mut self) -> (matches: &mut Matches)
        ensures
            *matches == old(self).matches,
            final(self).matches == *final(matches),
            final(self).data == old(self).data,
            final(self).match_finder == old(self).match_finder,
    {
        &mut self.matches
    }

    /// Moves on by `len` bytes without looking for matches.
    pub fn skip(&mut self, len: usize)
        requires
            old(self).wf(),
            old(self).data.settled(old(self).match_finder.lookahead()),
            old(self).data.read_pos + len < old(self).data.write_pos,
        ensures
            final(self).wf(),
            final(self).data.moved_from(
                &old(self).data,
                len as int,
                old(self).match_finder.lookahead(),
            ),
            finds_alike(&final(self).match_finder, &old(self).match_finder),
            final(self).matches == old(self).matches,
    {
        self.match_finder.skip(&mut self.data, len);
    }

    /// Starts the window with the end of a preset dictionary.
    pub fn set_preset_dict(&mut self, dict_size: u32, preset_dict: &[u8])
        requires
            old(self).wf(),
            old(self).is_new(),
            dict_size <= old(self).data.buf_size,
        ensures
            final(self).wf(),
            final(self).data.stream@ == preset_dict@.skip(
                if preset_dict@.len() < dict_size {
                    0
                } else {
                    preset_dict@.len() - dict_size
                },
            ),
            final(self).data.read_pos == final(self).data.write_pos - 1,
            final(self).data.dropped@ == 0,
            final(self).data.pending_size == if final(self).data.write_pos < old(
                self,
            ).match_finder.lookahead() {
                final(self).data.write_pos as int
            } else {
                old(self).match_finder.lookahead() - 1
            },
            final(self).data.same_settings(&old(self).data),
            final(self).data.read_limit == -1,
            !final(self).data.finishing,
            final(self).matches == old(self).matches,
            finds_alike(&final(self).match_finder, &old(self).match_finder),
    {
        self.data.set_preset_dict(dict_size, preset_dict, &mut self.match_finder);
    }

    /// Makes all bytes in the window readable, and no more are to come.
    pub fn set_finishing(&mut self)
        requires
            old(self).wf(),
        ensures
            final(self).wf(),
            final(self).data.finishing,
            final(self).data.flushed_from(&old(self).data, old(self).match_finder.lookahead()),
            final(self).matches == old(self).matches,
            finds_alike(&final(self).match_finder, &old(self).match_finder),
    {
        self.data.set_finishing(&mut self.match_finder);
    }

    /// Puts as much of `input` into the window as there is room for, and returns how much that is.
    pub fn fill_window(&mut self, input: &[u8]) -> (len: usize)
        requires
            old(self).wf(),
            !old(self).data.finishing,
            old(self).data.limit_can_move(),
        ensures
            final(self).wf(),
            len == if input@.len() < old(self).data.fill_room() {
                input@.len() as int
            } else {
                old(self).data.fill_room()
            },
            final(self).data.filled_from(
                &old(self).data,
                input@.take(len as int),
                old(self).match_finder.lookahead(),
            ),
            final(self).matches == old(self).matches,
            finds_alike(&final(self).match_finder, &old(self).match_finder),
    {
        self.data.fill_window(input, &mut self.match_finder)
    }

    /// Makes all bytes in the window readable.
    pub fn set_flushing(&mut self)
        requires
            old(self).wf(),
        ensures
            final(self).wf(),
            final(self).data.finishing == old(self).data.finishing,
            final(self).data.flushed_from(&old(self).data, old(self).match_finder.lookahead()),
            final(self).matches == old(self).matches,
            finds_alike(&final(self).match_finder, &old(self).match_finder),
    {
        self.data.set_flushing(&mut self.match_finder);
    }

    /// Checks that every match has exactly the length it says.
    pub fn verify_matches(&self) -> (ok: bool)
        requires
            self.wf(),
            self.data.read_pos != -1,
            forall|i: int|
                0 <= i < self.matches.count ==> 0 <= (#[trigger] self.matches.found()[i]).dist
                    < self.data.read_pos,
        ensures
            ok == self.data.verified(&self.matches),
    {
        self.data.verify_matches(&self.matches)
    }
}

impl LZEncoder<HC4> {
    /// The memory that an encoder's window and match finder are accounted with.
    pub fn get_memory_usage(
        dict_size: u32,
        extra_size_before: u32,
        extra_size_after: u32,
        match_len_max: u32,
        mf: MFType,
        tree_usage: u32,
    ) -> (usage: u32)
        requires
            dict_size >= 1,
            buf_size(
                dict_size as int,
                extra_size_before as int,
                extra_size_after as int,
                match_len_max as int,
            ) + mf.memory_usage(dict_size, tree_usage) <= u32::MAX,
        ensures
            usage == buf_size(
                dict_size as int,
                extra_size_before as int,
                extra_size_after as int,
                match_len_max as int,
            ) + mf.memory_usage(dict_size, tree_usage),
    {
        let finder: u32 = mf.get_memory_usage(dict_size, tree_usage);
        get_buf_size(dict_size, extra_size_before, extra_size_after, match_len_max) + finder
    }

    /// Makes an encoder with an empty window whose matches are found by a hash chain.
    pub fn new_hc4(
        dict_size: u32,
        extra_size_before: u32,
        extra_size_after: u32,
        nice_len: u32,
        match_len_max: u32,
        depth_limit: i32,
    ) -> (encoder: Self)
        requires
            dict_size >= 1,
            extra_size_before + dict_size >= super::hash_chain::HASHED_BYTES,
            buf_size(
                dict_size as int,
                extra_size_before as int,
                extra_size_after as int,
                match_len_max as int,
            ) <= i32::MAX,
            3 <= match_len_max,
            3 <= nice_len <= i32::MAX,
            super::aligned_memory::AlignedMemoryI32::allocatable(dict_size + 1),
            super::aligned_memory::AlignedMemoryI32::allocatable(
                super::hash234::hash4_size(dict_size),
            ),
        ensures
            encoder.wf(),
            encoder.is_new(),
            encoder.matches.found() == Seq::<Match>::empty(),
            encoder.data.keep_size_before == extra_size_before + dict_size,
            encoder.data.keep_size_after == extra_size_after + match_len_max,
            encoder.data.nice_len == nice_len,
            encoder.data.match_len_max == match_len_max,
            encoder.data.buf_size == buf_size(
                dict_size as int,
                extra_size_before as int,
                extra_size_after as int,
                match_len_max as int,
            ),
            encoder.match_finder.reach() == dict_size,
            encoder.match_finder.lookahead() == super::hash_chain::HASHED_BYTES,
            encoder.match_finder.depth_limit == super::hc4::depth(nice_len, depth_limit),
            depth_limit > 0 ==> encoder.match_finder.depth_limit == depth_limit,
            depth_limit <= 0 ==> encoder.match_finder.depth_limit == 4 + nice_len / 4,
            encoder.match_finder.hash.mask4() == super::hash234::hash4_size(dict_size) - 1,
    {
        Self::new(
            dict_size,
            extra_size_before,
            extra_size_after,
            nice_len,
            match_len_max,
            HC4::new(dict_size, nice_len, depth_limit),
        )
    }
}

/// A search of an encoder with a hash chain finds the longest match: if the `n` bytes at the new
/// position stood at `q` before, within reach and among the positions that are tried, then the last
/// match has `n` bytes or more, or at least the nice length.
pub proof fn lemma_search_finds_longest(encoder: &mut LZEncoder<HC4>, q: int, n: int)
    requires
        old(encoder).wf(),
        call_ensures(LZEncoder::<HC4>::find_matches, (encoder,), ()),
        ({
            let stream = old(encoder).data.stream@;
            let pos = old(encoder).data.pos() + 1;
            let finder = old(encoder).match_finder;
            &&& finder.wf()
            &&& 0 <= q < pos
            &&& pos - q < finder.cyclic_size
            &&& pos - q <= finder.depth_limit || finder.tries(stream, pos, q)
            &&& 4 <= n <= old(encoder).data.match_len_max
            &&& pos + n <= stream.len()
            &&& forall|i: int| 0 <= i < n ==> #[trigger] stream[pos + i] == stream[q + i]
        }),
    ensures
        final(encoder).matches.count > 0,
        ({
            let m = final(encoder).matches;
            m.len@[m.count - 1] >= n || m.len@[m.count - 1] >= old(encoder).data.nice_len
        }),
{
    let data = old(encoder).data;
    old(encoder).match_finder.lemma_longest_is_found(
        data.stream@,
        data.pos() + 1,
        data.nice_len as int,
        data.match_len_max as int,
        q,
        n,
    );
    let m = final(encoder).matches;
    assert(m.found().len() == m.count);
    assert(m.found().last().len == m.len@[m.count - 1]);
}

/// What a search of an encoder with a hash chain finds is there: each match repeats as many bytes
/// as it says, from where it says, it could not be longer, and no nearer position repeats as many.
/// A later match is longer.
#[verifier::spinoff_prover]
#[verifier::rlimit(60)]
pub proof fn lemma_search_finds_real_matches(encoder: &mut LZEncoder<HC4>, i: int, q: int)
    requires
        old(encoder).wf(),
        call_ensures(LZEncoder::<HC4>::find_matches, (encoder,), ()),
        old(encoder).match_finder.wf(),
        0 <= i < final(encoder).matches.count,
    ensures
        ({
            let stream = old(encoder).data.stream@;
            let pos = old(encoder).data.pos() + 1;
            let len = final(encoder).matches.len@[i] as int;
            let from = pos - 1 - final(encoder).matches.dist@[i];
            let max = old(encoder).data.match_len_max;
            &&& 0 <= from < pos
            &&& pos - from < old(encoder).match_finder.cyclic_size
            &&& 2 <= len <= max
            &&& pos + len <= stream.len()
            &&& forall|k: int| 0 <= k < len ==> #[trigger] stream[pos + k] == stream[from + k]
            &&& len < max && pos + len < stream.len() ==> stream[pos + len] != stream[from + len]
            &&& from < q < pos ==> exists|k: int|
                0 <= k < len && #[trigger] stream[pos + k] != stream[q + k]
        }),
        i > 0 ==> final(encoder).matches.len@[i - 1] < final(encoder).matches.len@[i],
{
    let data = old(encoder).data;
    let m = final(encoder).matches;
    assert(m.found().len() == m.count);
    assert(m.found()[i] == Match { len: m.len@[i] as int, dist: m.dist@[i] as int });
    old(encoder).match_finder.lemma_matches_are_real(
        data.stream@,
        data.pos() + 1,
        data.nice_len as int,
        data.match_len_max as int,
        i,
        q,
    );
    if i > 0 {
        assert(m.found()[i - 1].len == m.len@[i - 1]);
    }
}

/// What a search finds does not depend on how its position was reached: behind skipped bytes it
/// finds what the finder would find there in the first place.
pub proof fn lemma_search_after_skip<M: MatchFind>(
    encoder: &mut LZEncoder<M>,
    len: usize,
    next: &mut LZEncoder<M>,
)
    requires
        old(encoder).wf(),
        call_ensures(LZEncoder::<M>::skip, (encoder, len), ()),
        *old(next) == *final(encoder),
        call_ensures(LZEncoder::<M>::find_matches, (next,), ()),
    ensures
        final(next).data.read_pos == old(encoder).data.read_pos + len + 1,
        final(next).data.stream@ == old(encoder).data.stream@,
        final(next).matches.found() == old(encoder).match_finder.matches_at(
            old(encoder).data.stream@,
            old(encoder).data.pos() + len + 1,
            old(encoder).data.nice_len as int,
            old(encoder).data.match_len_max as int,
        ),
{
}

/// What is put into a window stands behind all that was put in before, and once it is finished, all
/// of it can be read.
pub proof fn lemma_fill_then_finish<M: MatchFind>(
    encoder: &mut LZEncoder<M>,
    input: &[u8],
    len: usize,
    next: &mut LZEncoder<M>,
    already_read_len: i32,
    enough: bool,
)
    requires
        old(encoder).wf(),
        call_ensures(LZEncoder::<M>::fill_window, (encoder, input), len),
        *old(next) == *final(encoder),
        call_ensures(LZEncoder::<M>::set_finishing, (next,), ()),
        call_ensures(
            LZEncoderData::has_enough_data,
            (&final(next).data, already_read_len),
            enough,
        ),
    ensures
        len <= input@.len(),
        final(next).data.stream@ == old(encoder).data.stream@ + input@.take(len as int),
        final(next).data.finishing,
        final(next).data.pos() == old(encoder).data.pos(),
        enough <==> final(next).data.read_pos - already_read_len + 1 < final(next).data.write_pos,
        forall|i: int|
            0 <= i < final(next).data.write_pos ==> #[trigger] final(next).data.buf@[i]
                == final(next).data.stream@[final(next).data.dropped@ + i],
{
}

/// The length of a match is the number of bytes that are the same as those `dist + 1` bytes before,
/// up to the first that differs or to the limit.
pub proof fn lemma_match_len_is_counted(
    data: &LZEncoderData,
    dist: i32,
    len_limit: i32,
    len: usize,
)
    requires
        0 <= dist < data.read_pos,
        0 <= len_limit,
        data.read_pos + len_limit <= data.buf@.len(),
        call_ensures(LZEncoderData::get_match_len, (data, dist, len_limit), len),
    ensures
        len <= len_limit,
        forall|i: int|
            0 <= i < len ==> #[trigger] data.buf@[data.read_pos + i] == data.buf@[data.read_pos - (
            dist + 1) + i],
        len < len_limit ==> data.buf@[data.read_pos + len] != data.buf@[data.read_pos - (dist + 1)
            + len],
{
    data.lemma_match_len_counts(0, dist as int, len_limit as int);
}

} // verus!
