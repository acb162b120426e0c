//! The sliding dictionary of the decoder.

use vstd::prelude::*;

use crate::error::Error;
use crate::io::{read_exact, Read};

verus! {

/// The last `limit` bytes of `bytes`, or all of them if they are fewer.
pub open spec fn last_bytes(bytes: Seq<u8>, limit: int) -> Seq<u8> {
    if bytes.len() <= limit {
        bytes
    } else {
        bytes.skip(bytes.len() - limit)
    }
}

/// The last bytes are the end of the bytes, as much of it as fits.
pub proof fn lemma_last_bytes(bytes: Seq<u8>, limit: int)
    requires
        limit >= 0,
    ensures
        last_bytes(bytes, limit).len() <= limit,
        last_bytes(bytes, limit).len() == limit || last_bytes(bytes, limit) == bytes,
        forall|i: int|
            1 <= i <= last_bytes(bytes, limit).len() ==> #[trigger] last_bytes(
                bytes,
                limit,
            )[last_bytes(bytes, limit).len() - i] == bytes[bytes.len() - i],
{
}

/// `dict` after `len` bytes have been appended, each a copy of the byte `dist + 1` bytes before it.
/// Only the last `capacity` bytes are kept.
pub open spec fn repeated(dict: Seq<u8>, dist: int, len: nat, capacity: int) -> Seq<u8>
    decreases len,
{
    if len == 0 {
        dict
    } else {
        repeated(
            last_bytes(dict.push(dict[dict.len() - 1 - dist]), capacity),
            dist,
            (len - 1) as nat,
            capacity,
        )
    }
}

/// `all` are the bytes of `dict` and `len` more, each the same as the one `dist + 1` bytes before
/// it, be that an old one or a new one.
pub open spec fn goes_on(all: Seq<u8>, dict: Seq<u8>, dist: int, len: nat) -> bool {
    &&& all.len() == dict.len() + len
    &&& forall|i: int| 0 <= i < dict.len() ==> #[trigger] all[i] == dict[i]
    &&& forall|i: int| dict.len() <= i < all.len() ==> #[trigger] all[i] == all[i - 1 - dist]
}

/// Repeating makes the dictionary go on with what it had `dist + 1` bytes before. The oldest bytes
/// give way when there is no more room.
#[verifier::spinoff_prover]
#[verifier::rlimit(60)]
pub proof fn lemma_repeated_goes_on(dict: Seq<u8>, dist: int, len: nat, capacity: int)
    requires
        0 <= dist < dict.len() <= capacity,
    ensures
        ({
            let end = repeated(dict, dist, len, capacity);
            exists|all: Seq<u8>|
                {
                    &&& #[trigger] goes_on(all, dict, dist, len)
                    &&& end.len() <= all.len()
                    &&& end == all.skip(all.len() - end.len())
                    &&& end.len() == capacity || end.len() == all.len()
                    &&& end.len() <= capacity
                }
        }),
    decreases len,
{
    let end = repeated(dict, dist, len, capacity);
    if len == 0 {
        assert(goes_on(dict, dict, dist, len));
        assert(dict.skip(0) =~= dict);
    } else {
        let byte = dict[dict.len() - 1 - dist];
        let pushed = dict.push(byte);
        let next = last_bytes(pushed, capacity);
        let less = (len - 1) as nat;
        lemma_repeated_goes_on(next, dist, less, capacity);
        let rest = choose|all: Seq<u8>|
            {
                &&& #[trigger] goes_on(all, next, dist, less)
                &&& end.len() <= all.len()
                &&& end == all.skip(all.len() - end.len())
                &&& end.len() == capacity || end.len() == all.len()
                &&& end.len() <= capacity
            };
        let lost = pushed.len() - next.len();
        let all = pushed.take(lost) + rest;
        assert forall|i: int| 0 <= i < pushed.len() implies #[trigger] all[i] == pushed[i] by {
            if i >= lost {
                assert(rest[i - lost] == next[i - lost]);
            }
        }
        assert forall|i: int| dict.len() <= i < all.len() implies #[trigger] all[i] == all[i - 1
            - dist] by {
            if i == dict.len() {
                assert(all[i] == pushed[i]);
                assert(all[i - 1 - dist] == pushed[i - 1 - dist]);
            } else {
                assert(rest[i - lost] == rest[i - lost - 1 - dist]);
            }
        }
        assert(goes_on(all, dict, dist, len));
        assert(all.skip(all.len() - end.len()) =~= rest.skip(rest.len() - end.len()));
    }
}

/// A ring buffer of the bytes that were decoded last. Those from `start` to `pos` have not been
/// handed out yet. Behind `pos` are the oldest bytes, once `wrapped`.
pub struct LZDecoder {
    buf: Vec<u8>,
    start: usize,
    pos: usize,
    wrapped: bool,
    limit: usize,
    pending_len: usize,
    pending_dist: usize,
}

impl LZDecoder {
    /// All positions are in range. This holds of every dictionary.
    #[verifier::type_invariant]
    pub closed spec fn wf(&self) -> bool {
        &&& 1 <= self.buf@.len()
        &&& self.start <= self.pos <= self.buf@.len()
        &&& self.limit <= self.buf@.len()
    }

    /// How many bytes the dictionary can hold.
    pub closed spec fn capacity(&self) -> int {
        self.buf@.len() as int
    }

    /// The bytes in the dictionary, the latest one last.
    pub closed spec fn dict(&self) -> Seq<u8> {
        if self.wrapped {
            self.buf@.skip(self.pos as int) + self.buf@.take(self.pos as int)
        } else {
            self.buf@.take(self.pos as int)
        }
    }

    /// The bytes that have not been handed out yet.
    pub closed spec fn unflushed(&self) -> Seq<u8> {
        self.buf@.subrange(self.start as int, self.pos as int)
    }

    /// Room for bytes before they have to be handed out.
    pub closed spec fn space(&self) -> int {
        self.buf@.len() - self.pos
    }

    /// Room for bytes up to the limit.
    pub closed spec fn space_to_limit(&self) -> int {
        if self.pos < self.limit {
            self.limit - self.pos
        } else {
            0
        }
    }

    /// How many bytes of a match are still to be repeated.
    pub closed spec fn pending(&self) -> int {
        self.pending_len as int
    }

    /// The distance at which they are repeated.
    pub closed spec fn pending_distance(&self) -> int {
        self.pending_dist as int
    }

    /// How the views of a dictionary relate to each other.
    pub proof fn lemma_views(&self)
        requires
            self.wf(),
        ensures
            self.capacity() >= 1,
            0 <= self.space() <= self.capacity(),
            self.unflushed().len() + self.space() <= self.capacity(),
            0 <= self.space_to_limit() <= self.space(),
            0 <= self.pending(),
            self.dict().len() <= self.capacity(),
            self.unflushed().len() <= self.dict().len(),
            self.unflushed() == self.dict().skip(self.dict().len() - self.unflushed().len()),
    {
        assert(self.unflushed() =~= self.dict().skip(self.dict().len() - self.unflushed().len()));
    }

    /// Makes a dictionary of `dict_size` bytes, but at least one, that starts with the end of a
    /// preset dictionary.
    pub fn new(dict_size: usize, preset_dict: Option<&[u8]>) -> (decoder: Self)
        ensures
            decoder.wf(),
            decoder.capacity() == if dict_size < 1 {
                1
            } else {
                dict_size as int
            },
            decoder.dict() == match preset_dict {
                Some(preset) => last_bytes(preset@, decoder.capacity()),
                None => Seq::<u8>::empty(),
            },
            decoder.unflushed() == Seq::<u8>::empty(),
            decoder.space_to_limit() == 0,
            decoder.pending() == 0,
    {
        let capacity: usize = if dict_size < 1 { 1 } else { dict_size };
        let mut buf: Vec<u8> = vec![0u8; capacity];
        let mut pos: usize = 0;
        if let Some(preset) = preset_dict {
            pos = if preset.len() < capacity { preset.len() } else { capacity };
            let from: usize = preset.len() - pos;
            let mut i: usize = 0;
            while i < pos
                invariant
                    i <= pos,
                    pos <= buf@.len(),
                    buf@.len() == capacity,
                    from + pos == preset.len(),
                    forall|j: int| 0 <= j < i ==> buf@[j] == preset@[from + j],
                decreases pos - i,
            {
                buf[i] = preset[from + i];
                i += 1;
            }
            assert(buf@.take(pos as int) =~= last_bytes(preset@, capacity as int));
        }
        let decoder = LZDecoder {
            buf,
            start: pos,
            pos,
            wrapped: false,
            limit: 0,
            pending_len: 0,
            pending_dist: 0,
        };
        assert(decoder.unflushed() =~= Seq::<u8>::empty());
        assert(preset_dict is None ==> decoder.dict() =~= Seq::<u8>::empty());
        decoder
    }

    /// Empties the dictionary.
    pub fn reset(&mut self)
        ensures
            final(self).wf(),
            final(self).capacity() == old(self).capacity(),
            final(self).dict() == Seq::<u8>::empty(),
            final(self).unflushed() == Seq::<u8>::empty(),
            final(self).space() == final(self).capacity(),
            final(self).space_to_limit() == 0,
            final(self).pending() == old(self).pending(),
            final(self).pending_distance() == old(self).pending_distance(),
    {
        proof {
            use_type_invariant(&*self);
        }
        self.start = 0;
        self.pos = 0;
        self.wrapped = false;
        self.limit = 0;
        assert(self.dict() =~= Seq::<u8>::empty());
        assert(self.unflushed() =~= Seq::<u8>::empty());
    }

    /// Allows `out_max` more bytes, or as many as there is room for.
    pub fn set_limit(&mut self, out_max: usize)
        ensures
            final(self).wf(),
            final(self).same_bytes(old(self)),
            final(self).space_to_limit() == if out_max < old(self).space() {
                out_max as int
            } else {
                old(self).space()
            },
    {
        proof {
            use_type_invariant(&*self);
        }
        let space: usize = self.buf.len() - self.pos;
        self.limit = if out_max < space { self.pos + out_max } else { self.buf.len() };
    }

    /// All but the limit is the same.
    pub open spec fn same_bytes(&self, other: &Self) -> bool {
        &&& self.capacity() == other.capacity()
        &&& self.dict() == other.dict()
        &&& self.unflushed() == other.unflushed()
        &&& self.space() == other.space()
        &&& self.pending() == other.pending()
        &&& self.pending_distance() == other.pending_distance()
    }

    /// Whether there is room up to the limit.
    pub fn has_space(&self) -> (space: bool)
        ensures
            space == (self.space_to_limit() > 0),
    {
        self.pos < self.limit
    }

    /// Whether a part of a match is still to be repeated.
    pub fn has_pending(&self) -> (pending: bool)
        ensures
            pending == (self.pending() > 0),
    {
        self.pending_len > 0
    }

    /// How many bytes have not been handed out yet.
    pub fn unflushed_len(&self) -> (len: usize)
        ensures
            len == self.unflushed().len(),
            self.wf(),
    {
        proof {
            use_type_invariant(self);
        }
        self.pos - self.start
    }

    /// The byte `dist + 1` bytes back, or zero if the dictionary does not reach that far.
    pub fn get_byte(&self, dist: usize) -> (byte: u8)
        ensures
            byte == if dist < self.dict().len() {
                self.dict()[self.dict().len() - 1 - dist]
            } else {
                0
            },
    {
        proof {
            use_type_invariant(self);
        }
        if dist < self.pos {
            self.buf[self.pos - dist - 1]
        } else if self.wrapped && dist < self.buf.len() {
            self.buf[self.buf.len() - (dist - self.pos) - 1]
        } else {
            0
        }
    }

    /// Appends one byte.
    pub fn put_byte(&mut self, byte: u8)
        requires
            old(self).space() > 0,
        ensures
            final(self).wf(),
            final(self).capacity() == old(self).capacity(),
            final(self).dict() == last_bytes(old(self).dict().push(byte), old(self).capacity()),
            final(self).unflushed() == old(self).unflushed().push(byte),
            final(self).space() == old(self).space() - 1,
            final(self).space_to_limit() == if old(self).space_to_limit() > 0 {
                old(self).space_to_limit() - 1
            } else {
                0
            },
            final(self).pending() == old(self).pending(),
            final(self).pending_distance() == old(self).pending_distance(),
    {
        proof {
            use_type_invariant(&*self);
        }
        self.buf[self.pos] = byte;
        assert(self.pos < self.buf.len());
        self.pos = self.pos + 1;
        assert(self.dict() =~= last_bytes(old(self).dict().push(byte), old(self).capacity()));
        assert(self.unflushed() =~= old(self).unflushed().push(byte));
    }

    /// Appends a match: `len` bytes, each a copy of the byte `dist + 1` bytes before it. What does
    /// not fit before the limit is left pending.
    pub fn repeat(&mut self, dist: usize, len: usize) -> (result: Result<(), Error>)
        ensures
            final(self).wf(),
            match result {
                Ok(_) => {
                    let room = old(self).space_to_limit();
                    let now = if len < room {
                        len as int
                    } else {
                        room
                    };
                    &&& dist < old(self).dict().len()
                    &&& final(self).capacity() == old(self).capacity()
                    &&& final(self).dict() == repeated(
                        old(self).dict(),
                        dist as int,
                        now as nat,
                        old(self).capacity(),
                    )
                    &&& final(self).unflushed().len() == old(self).unflushed().len() + now
                    &&& final(self).space() == old(self).space() - now
                    &&& final(self).space_to_limit() == room - now
                    &&& final(self).pending() == len - now
                    &&& final(self).pending_distance() == dist
                },
                Err(error) => {
                    &&& error == Error::InvalidInput("dist overflow")
                    &&& dist >= old(self).dict().len()
                    &&& *final(self) == *old(self)
                },
            },
    {
        proof {
            use_type_invariant(&*self);
        }
        let full: usize = if self.wrapped { self.buf.len() } else { self.pos };
        if dist >= full {
            return Err(Error::InvalidInput("dist overflow"));
        }
        let room: usize = if self.pos < self.limit { self.limit - self.pos } else { 0 };
        let now: usize = if len < room { len } else { room };
        self.pending_len = len - now;
        self.pending_dist = dist;
        let mut left: usize = now;
        let ghost expected = repeated(
            self.dict(),
            dist as int,
            now as nat,
            self.capacity(),
        );
        while left > 0
            invariant
                self.wf(),
                left <= now,
                now <= room,
                room == old(self).space_to_limit(),
                left <= self.space_to_limit() <= self.space(),
                self.capacity() == old(self).capacity(),
                dist < self.dict().len() <= self.capacity(),
                expected == repeated(self.dict(), dist as int, left as nat, self.capacity()),
                self.unflushed().len() == old(self).unflushed().len() + now - left,
                self.space() == old(self).space() - (now - left),
                self.space_to_limit() == room - (now - left),
                self.pending() == len - now,
                self.pending_distance() == dist,
            decreases left,
        {
            let byte: u8 = self.get_byte(dist);
            self.put_byte(byte);
            left -= 1;
        }
        Ok(())
    }

    /// Appends what is left of a match that did not fit before.
    pub fn repeat_pending(&mut self) -> (result: Result<(), Error>)
        ensures
            final(self).wf(),
            match result {
                Ok(_) => if old(self).pending() == 0 {
                    *final(self) == *old(self)
                } else {
                    let room = old(self).space_to_limit();
                    let now = if old(self).pending() < room {
                        old(self).pending()
                    } else {
                        room
                    };
                    &&& old(self).pending_distance() < old(self).dict().len()
                    &&& final(self).capacity() == old(self).capacity()
                    &&& final(self).dict() == repeated(
                        old(self).dict(),
                        old(self).pending_distance(),
                        now as nat,
                        old(self).capacity(),
                    )
                    &&& final(self).unflushed().len() == old(self).unflushed().len() + now
                    &&& final(self).pending() == old(self).pending() - now
                },
                Err(error) => {
                    &&& error == Error::InvalidInput("dist overflow")
                    &&& old(self).pending() > 0
                    &&& old(self).pending_distance() >= old(self).dict().len()
                    &&& *final(self) == *old(self)
                },
            },
    {
        proof {
            use_type_invariant(&*self);
        }
        if self.pending_len > 0 {
            let dist: usize = self.pending_dist;
            let len: usize = self.pending_len;
            self.repeat(dist, len)
        } else {
            Ok(())
        }
    }

    /// Appends bytes from a reader: `len`, or as many as there is room for.
    pub fn copy_uncompressed<R: Read>(&mut self, reader: &mut R, len: usize) -> (result: Result<
        (),
        Error,
    >)
        ensures
            final(self).wf(),
            final(reader).errors() == old(reader).errors(),
            ({
                let size = if len < old(self).space() {
                    len as int
                } else {
                    old(self).space()
                };
                match result {
                    Ok(_) => {
                        let bytes = old(reader).remaining().take(size);
                        &&& size <= old(reader).remaining().len()
                        &&& final(reader).remaining() == old(reader).remaining().skip(size)
                        &&& final(self).capacity() == old(self).capacity()
                        &&& final(self).dict() == last_bytes(
                            old(self).dict() + bytes,
                            old(self).capacity(),
                        )
                        &&& final(self).unflushed() == old(self).unflushed() + bytes
                        &&& final(self).space() == old(self).space() - size
                        &&& final(self).pending() == old(self).pending()
                        &&& final(self).pending_distance() == old(self).pending_distance()
                    },
                    Err(error) => {
                        &&& *final(self) == *old(self)
                        &&& old(reader).errors().contains(error) || error == Error::Eof && old(
                            reader,
                        ).remaining().len() < size
                    },
                }
            }),
    {
        proof {
            use_type_invariant(&*self);
        }
        let space: usize = self.buf.len() - self.pos;
        let size: usize = if len < space { len } else { space };
        let mut bytes: Vec<u8> = vec![0u8; size];
        match read_exact(reader, bytes.as_mut_slice()) {
            Ok(_) => {},
            Err(error) => {
                return Err(error);
            },
        }
        let mut i: usize = 0;
        assert(self.dict() =~= last_bytes(self.dict() + bytes@.take(0), self.capacity()));
        assert(self.unflushed() =~= self.unflushed() + bytes@.take(0));
        while i < size
            invariant
                self.wf(),
                i <= size,
                size == bytes@.len(),
                size <= old(self).space(),
                self.capacity() == old(self).capacity(),
                self.capacity() >= 1,
                self.dict() == last_bytes(
                    old(self).dict() + bytes@.take(i as int),
                    self.capacity(),
                ),
                self.unflushed() == old(self).unflushed() + bytes@.take(i as int),
                self.space() == old(self).space() - i,
                self.pending() == old(self).pending(),
                self.pending_distance() == old(self).pending_distance(),
            decreases size - i,
        {
            self.put_byte(bytes[i]);
            i += 1;
            assert(self.dict() =~= last_bytes(
                old(self).dict() + bytes@.take(i as int),
                self.capacity(),
            ));
            assert(self.unflushed() =~= old(self).unflushed() + bytes@.take(i as int));
        }
        assert(bytes@.take(size as int) =~= bytes@);
        Ok(())
    }

    /// Hands out all bytes that have not been handed out yet: writes them to `out` from `out_off`
    /// on, and returns how many there are.
    pub fn flush(&mut self, out: &mut [u8], out_off: usize) -> (copied: usize)
        requires
            out_off + old(self).unflushed().len() <= old(out)@.len(),
        ensures
            final(self).wf(),
            copied == old(self).unflushed().len(),
            final(out)@ == old(out)@.take(out_off as int) + old(self).unflushed() + old(out)@.skip(
                out_off + copied,
            ),
            final(self).capacity() == old(self).capacity(),
            final(self).dict() == old(self).dict(),
            final(self).unflushed() == Seq::<u8>::empty(),
            final(self).space() == if old(self).space() == 0 {
                old(self).capacity()
            } else {
                old(self).space()
            },
            final(self).pending() == old(self).pending(),
            final(self).pending_distance() == old(self).pending_distance(),
    {
        proof {
            use_type_invariant(&*self);
        }
        let copy_size: usize = self.pos - self.start;
        assert(out_off + copy_size <= out.len());
        let mut i: usize = 0;
        while i < copy_size
            invariant
                i <= copy_size,
                copy_size == self.pos - self.start,
                self.pos <= self.buf.len(),
                *self == *old(self),
                out_off + copy_size <= out.len(),
                out@.len() == old(out)@.len(),
                forall|j: int|
                    0 <= j < out@.len() ==> #[trigger] out@[j] == if out_off <= j < out_off + i {
                        self.buf@[self.start + j - out_off]
                    } else {
                        old(out)@[j]
                    },
            decreases copy_size - i,
        {
            out[out_off + i] = self.buf[self.start + i];
            i += 1;
        }
        assert(out@ =~= old(out)@.take(out_off as int) + old(self).unflushed() + old(out)@.skip(
            out_off + copy_size,
        ));
        if self.pos == self.buf.len() {
            self.wrapped = true;
            self.start = 0;
            self.pos = 0;
        } else {
            self.start = self.pos;
        }
        assert(self.dict() =~= old(self).dict());
        assert(self.unflushed() =~= Seq::<u8>::empty());
        copy_size
    }
}

/// A match that lies in the dictionary is repeated: the dictionary goes on with copies of the bytes
/// `dist + 1` bytes before, up to the limit, and the rest is left pending. Only a match from before
/// the dictionary is refused.
#[verifier::spinoff_prover]
#[verifier::rlimit(60)]
pub proof fn lemma_repeat_goes_on(
    lz: &mut LZDecoder,
    dist: usize,
    len: usize,
    result: Result<(), Error>,
    now: nat,
)
    requires
        old(lz).wf(),
        call_ensures(LZDecoder::repeat, (lz, dist, len), result),
        now <= len && now <= old(lz).space_to_limit(),
        now == len || now == old(lz).space_to_limit(),
    ensures
        result is Ok <==> dist < old(lz).dict().len(),
        result is Ok ==> {
            let end = final(lz).dict();
            &&& final(lz).pending() == len - now
            &&& final(lz).pending_distance() == dist
            &&& exists|all: Seq<u8>|
                {
                    &&& #[trigger] goes_on(all, old(lz).dict(), dist as int, now)
                    &&& end.len() <= all.len()
                    &&& end == all.skip(all.len() - end.len())
                    &&& end.len() == old(lz).capacity() || end.len() == all.len()
                    &&& final(lz).unflushed() == all.skip(
                        all.len() - (old(lz).unflushed().len() + now),
                    )
                }
        },
{
    old(lz).lemma_views();
    if result is Ok {
        final(lz).lemma_views();
        let (dict, capacity) = (old(lz).dict(), old(lz).capacity());
        lemma_repeated_goes_on(dict, dist as int, now, capacity);
        let end = final(lz).dict();
        let all = choose|all: Seq<u8>|
            {
                &&& #[trigger] goes_on(all, dict, dist as int, now)
                &&& end.len() <= all.len()
                &&& end == all.skip(all.len() - end.len())
                &&& end.len() == capacity || end.len() == all.len()
                &&& end.len() <= capacity
            };
        let n = old(lz).unflushed().len() + now;
        assert(final(lz).unflushed() =~= all.skip(all.len() - n));
    }
}

/// What is put into the dictionary can be looked up there, and is handed out by the next flush, in
/// the order in which it was put in.
pub proof fn lemma_put_then_flush(
    lz: &mut LZDecoder,
    byte: u8,
    next: &mut LZDecoder,
    out: &mut [u8],
    looked_up: u8,
    copied: usize,
)
    requires
        old(lz).wf(),
        old(lz).space() > 0,
        call_ensures(LZDecoder::put_byte, (lz, byte), ()),
        *old(next) == *final(lz),
        call_ensures(LZDecoder::get_byte, (final(lz), 0), looked_up),
        old(lz).unflushed().len() + 1 <= old(out)@.len(),
        call_ensures(LZDecoder::flush, (next, out, 0), copied),
    ensures
        looked_up == byte,
        copied == old(lz).unflushed().len() + 1,
        final(out)@.take(copied - 1) == old(lz).unflushed(),
        final(out)@[copied - 1] == byte,
        final(out)@.skip(copied as int) == old(out)@.skip(copied as int),
        final(next).unflushed().len() == 0,
        final(next).dict() == final(lz).dict(),
{
    old(lz).lemma_views();
    assert(final(out)@.take(copied - 1) =~= old(lz).unflushed());
    assert(final(out)@.skip(copied as int) =~= old(out)@.skip(copied as int));
}

} // verus!
