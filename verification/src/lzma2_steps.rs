//! The steps in which an LZMA2 reader goes through its stream, compressed chunks included.

use vstd::prelude::*;

use crate::error::Error;
use crate::lz::lz_decoder::LZDecoder;
use crate::lzma2_reader::{Decoded, Head, LZMADecoder, Place, Props, Run, COMPRESSED_SIZE_MAX};
use crate::range_dec::{Coder, RangeDecoder, RangeDecoderBuffer};

verus! {

/// `decoder` is what `D` makes for these properties.
pub open spec fn made_for<D: LZMADecoder>(decoder: D, props: Props) -> bool {
    call_ensures(D::new, (props.lc, props.lp, props.pb), decoder)
}

/// `after` is what `D` makes of `before` when it is reset.
pub open spec fn reset_from<D: LZMADecoder>(before: D, after: D) -> bool {
    call_ensures(D::reset, (before,), after)
}

/// `decoded` is what `D` leaves when it decodes with this decoder, dictionary and range decoder.
pub open spec fn decodes<D: LZMADecoder>(
    decoder: D,
    lz: LZDecoder,
    rc: RangeDecoder<RangeDecoderBuffer>,
    decoded: Decoded<D>,
) -> bool {
    call_ensures(D::decode, (decoder, lz, rc), decoded)
}

/// The size of the buffer for compressed chunks, where it was `len` before: it is not changed
/// unless it is too small for some chunk.
pub open spec fn room_for_chunk(len: int) -> int {
    let most = COMPRESSED_SIZE_MAX - 5;
    if len < most {
        most
    } else {
        len
    }
}

/// The range decoder has come to its end, and no match is left over.
pub open spec fn is_clean(lz: LZDecoder, rc: RangeDecoder<RangeDecoderBuffer>) -> bool {
    &&& rc.coder().bytes.len() == 0
    &&& !rc.coder().overrun
    &&& rc.coder().code == 0
    &&& lz.pending() == 0
}

/// All that a reader holds.
pub struct Stage<D> {
    pub place: Place,
    pub lz: LZDecoder,
    pub rc: RangeDecoder<RangeDecoderBuffer>,
    pub decoder: Option<D>,
    /// The bytes that are still to come from the source.
    pub bytes: Seq<u8>,
}

/// `after` is `before` without its bytes.
pub open spec fn emptied(before: LZDecoder, after: LZDecoder) -> bool {
    &&& after.wf()
    &&& after.capacity() == before.capacity()
    &&& after.dict() == Seq::<u8>::empty()
    &&& after.unflushed() == Seq::<u8>::empty()
    &&& after.space() == after.capacity()
    &&& after.pending() == before.pending()
    &&& after.pending_distance() == before.pending_distance()
}

/// `after` is `before` with room for `most` bytes up to its limit, or all there is.
pub open spec fn limited(before: LZDecoder, most: int, after: LZDecoder) -> bool {
    &&& after.wf()
    &&& after.same_bytes(&before)
    &&& after.space_to_limit() == if most < before.space() {
        most
    } else {
        before.space()
    }
}

/// `after` is `before` once its bytes have been handed out.
pub open spec fn flushed(before: LZDecoder, after: LZDecoder) -> bool {
    &&& after.wf()
    &&& after.capacity() == before.capacity()
    &&& after.dict() == before.dict()
    &&& after.unflushed() == Seq::<u8>::empty()
    &&& after.space() == if before.space() == 0 {
        before.capacity()
    } else {
        before.space()
    }
    &&& after.pending() == before.pending()
    &&& after.pending_distance() == before.pending_distance()
}

/// `after` is `before` once these bytes have passed through it.
pub open spec fn passed(before: LZDecoder, bytes: Seq<u8>, after: LZDecoder) -> bool {
    &&& after.wf()
    &&& after.capacity() == before.capacity()
    &&& after.dict() == crate::lz::lz_decoder::last_bytes(
        before.dict() + bytes,
        before.capacity(),
    )
    &&& after.unflushed() == Seq::<u8>::empty()
    &&& after.space() == if before.space() == bytes.len() {
        before.capacity()
    } else {
        before.space() - bytes.len()
    }
    &&& after.pending() == before.pending()
    &&& after.pending_distance() == before.pending_distance()
}

/// The most bytes that are asked of a chunk of which `left` bytes are left.
pub open spec fn most_of(left: int, want: int) -> int {
    if left < want {
        left
    } else {
        want
    }
}

/// The error of a chunk that has come to its end with something left over.
pub open spec fn left_over() -> Error {
    Error::InvalidInput("rc not finished or lz has pending")
}

/// The decoder has put out more than it was allowed to, or nothing though it could.
pub open spec fn ignores_limit(lz: LZDecoder, most: int, out: Seq<u8>) -> bool {
    out.len() > most || out.len() == 0 && lz.space_to_limit() > 0
}

impl<D: LZMADecoder> Stage<D> {
    /// The dictionary after the head of a chunk.
    pub open spec fn dict_for(self, control: u8, after: LZDecoder) -> bool {
        if crate::lzma2_reader::resets_dict(control) {
            emptied(self.lz, after)
        } else {
            after == self.lz
        }
    }

    /// The head of a chunk leads from `self` to `next`.
    #[verifier::opaque]
    pub open spec fn starts(self, next: Stage<D>) -> bool {
        let control = self.bytes[0];
        let needs = crate::lzma2_reader::needs_after(control, self.place.needs);
        &&& !self.place.ended
        &&& self.place.left == 0
        &&& match crate::lzma2_reader::head(self.bytes, self.place.needs) {
            Err(_) => false,
            Ok((Head::End, len)) => {
                &&& next == (Stage {
                    place: Place { ended: true, ..self.place },
                    bytes: self.bytes.skip(len),
                    ..self
                })
            },
            Ok((Head::Stored { size }, len)) => {
                &&& next.place == (Place { needs, left: size, lzma: false, ..self.place })
                &&& self.dict_for(control, next.lz)
                &&& next.rc == self.rc
                &&& next.decoder == self.decoder
                &&& next.bytes == self.bytes.skip(len)
            },
            Ok((Head::Lzma { size, compressed, props, state_reset }, len)) => {
                &&& crate::range_dec::chunk_error(self.bytes.skip(len), compressed) is None
                &&& next.place == (Place {
                    needs,
                    left: size,
                    lzma: true,
                    ended: false,
                    clean: is_clean(next.lz, next.rc),
                })
                &&& self.dict_for(control, next.lz)
                &&& next.rc.coder() == (Coder {
                    range: 0xFFFFFFFF,
                    code: crate::io::be32(self.bytes.skip(len + 1)),
                    bytes: self.bytes.subrange(len + 5, len + compressed),
                    padded: true,
                    overrun: false,
                })
                &&& next.rc.inner.pos <= next.rc.inner.buf@.len()
                &&& next.rc.inner.buf@.len() == room_for_chunk(self.rc.inner.buf@.len() as int)
                &&& next.decoder is Some
                &&& match props {
                    Some(props) => made_for(next.decoder->0, props),
                    None => if state_reset {
                        reset_from(self.decoder->0, next.decoder->0)
                    } else {
                        next.decoder == self.decoder
                    },
                }
                &&& next.bytes == self.bytes.skip(len + compressed)
            },
        }
    }

    /// A piece `out` of a stored chunk leads from `self` to `next`.
    pub open spec fn copies(self, want: int, out: Seq<u8>, next: Stage<D>) -> bool {
        let n = most_of(most_of(self.place.left, want), self.lz.space());
        &&& n <= self.bytes.len()
        &&& out == self.bytes.take(n)
        &&& passed(self.lz, out, next.lz)
        &&& next.rc == self.rc
        &&& next.decoder == self.decoder
        &&& next.bytes == self.bytes.skip(n)
    }

    /// A piece `out` of a compressed chunk leads from `self` to `next`: it is what the decoder
    /// put into the dictionary, which had room for no more than was wanted. `lz` is the dictionary
    /// that the decoder was given, and `decoded` is what it left.
    pub open spec fn decompresses(
        self,
        want: int,
        out: Seq<u8>,
        next: Stage<D>,
        lz: LZDecoder,
        decoded: Decoded<D>,
    ) -> bool {
        let most = most_of(self.place.left, want);
        &&& self.decoder is Some
        &&& limited(self.lz, most, lz)
        &&& decodes(self.decoder->0, lz, self.rc, decoded)
        &&& decoded.result is Ok
        &&& decoded.lz.wf()
        &&& out == decoded.lz.unflushed()
        &&& !ignores_limit(lz, most, out)
        &&& flushed(decoded.lz, next.lz)
        &&& next.rc == decoded.rc
        &&& next.decoder == Some(decoded.lzma)
        &&& next.bytes == self.bytes
    }

    /// A piece `out` of the current chunk leads from `self` to `next`. At the end of the chunk
    /// nothing is left over.
    #[verifier::opaque]
    pub open spec fn gives(self, want: int, out: Seq<u8>, next: Stage<D>) -> bool {
        &&& !self.place.ended
        &&& self.place.left > 0
        &&& next.place == (Place {
            left: self.place.left - out.len(),
            clean: is_clean(next.lz, next.rc),
            ..self.place
        })
        &&& next.place.left == 0 ==> next.place.clean
        &&& if self.place.lzma {
            exists|lz: LZDecoder, decoded: Decoded<D>| #[trigger]
                self.decompresses(want, out, next, lz, decoded)
        } else {
            self.copies(want, out, next)
        }
    }

    /// The decoder makes the reader fail. `lz` is the dictionary that the decoder was given, and
    /// `decoded` is what it left.
    pub open spec fn fails_in_decoder(
        self,
        want: int,
        error: Error,
        lz: LZDecoder,
        decoded: Decoded<D>,
    ) -> bool {
        let most = most_of(self.place.left, want);
        let out = decoded.lz.unflushed();
        &&& self.decoder is Some
        &&& limited(self.lz, most, lz)
        &&& decodes(self.decoder->0, lz, self.rc, decoded)
        &&& match decoded.result {
            Err(failure) => error == failure,
            Ok(_) => if ignores_limit(lz, most, out) {
                error == Error::Other("LZMA decoder ignored its limit")
            } else {
                &&& out.len() == self.place.left
                &&& !is_clean(decoded.lz, decoded.rc)
                &&& error == left_over()
            },
        }
    }

    /// Reading on from here takes bytes from the source.
    pub open spec fn needs_source(self, want: int) -> bool {
        &&& !self.place.ended
        &&& want > 0
        &&& self.place.left == 0 || !self.place.lzma
    }

    /// Reading on from here fails, when the source itself does not.
    #[verifier::opaque]
    pub open spec fn fails(self, want: int, error: Error) -> bool {
        &&& !self.place.ended
        &&& want > 0
        &&& if self.place.left == 0 {
            match crate::lzma2_reader::head(self.bytes, self.place.needs) {
                Err(failure) => error == failure,
                Ok((Head::Lzma { compressed, .. }, len)) => crate::range_dec::chunk_error(
                    self.bytes.skip(len),
                    compressed,
                ) == Some(error),
                Ok(_) => false,
            }
        } else if self.place.lzma {
            exists|lz: LZDecoder, decoded: Decoded<D>| #[trigger]
                self.fails_in_decoder(want, error, lz, decoded)
        } else {
            let n = most_of(most_of(self.place.left, want), self.lz.space());
            if self.bytes.len() < n {
                error == Error::Eof
            } else {
                &&& n == self.place.left
                &&& !self.place.clean
                &&& error == left_over()
            }
        }
    }
}

/// How far a reader has come with a number of bytes that it was asked for.
pub struct Progress<D> {
    pub stage: Stage<D>,
    /// The bytes that were handed out last.
    pub piece: Seq<u8>,
    /// All bytes that were handed out.
    pub out: Seq<u8>,
}

impl<D: LZMADecoder> Progress<D> {
    /// One step leads from `self` to `next`, when `want` bytes were asked for.
    pub open spec fn advances(self, want: int, next: Progress<D>) -> bool {
        let left = want - self.out.len();
        &&& left > 0
        &&& next.out == self.out + next.piece
        &&& if self.stage.place.left == 0 {
            next.piece.len() == 0 && self.stage.starts(next.stage)
        } else {
            self.stage.gives(left, next.piece, next.stage)
        }
    }
}

/// Every step of the path leads to the next one.
pub open spec fn is_path<D: LZMADecoder>(path: Seq<Progress<D>>, want: int) -> bool {
    &&& path.len() > 0
    &&& forall|i: int| 1 <= i < path.len() ==> path[i - 1].advances(want, #[trigger] path[i])
}

/// The path starts at this stage, and its end has handed out `out` and holds `end`.
pub open spec fn path_from<D: LZMADecoder>(
    path: Seq<Progress<D>>,
    start: Stage<D>,
    want: int,
    out: Seq<u8>,
    end: Stage<D>,
) -> bool {
    &&& is_path(path, want)
    &&& path[0].stage == start
    &&& path[0].out == Seq::<u8>::empty()
    &&& path.last().out == out
    &&& path.last().stage == end
}

/// A reader that is asked for `want` bytes can come from `start` to `end`, and hands out `out` on
/// its way.
pub open spec fn leads_to<D: LZMADecoder>(
    start: Stage<D>,
    want: int,
    out: Seq<u8>,
    end: Stage<D>,
) -> bool {
    exists|path: Seq<Progress<D>>| #[trigger] path_from(path, start, want, out, end)
}

/// Somewhere on its way a reader that is asked for `want` bytes fails.
pub open spec fn leads_to_failure<D: LZMADecoder>(
    start: Stage<D>,
    want: int,
    error: Error,
) -> bool {
    exists|out: Seq<u8>, end: Stage<D>| #[trigger]
        leads_to(start, want, out, end) && end.fails(want - out.len(), error)
}

/// Somewhere on its way a reader that is asked for `want` bytes takes bytes from its source.
pub open spec fn leads_to_source<D: LZMADecoder>(start: Stage<D>, want: int) -> bool {
    exists|out: Seq<u8>, end: Stage<D>| #[trigger]
        leads_to(start, want, out, end) && end.needs_source(want - out.len())
}

/// A reader that has done nothing has come nowhere.
pub proof fn lemma_stays<D: LZMADecoder>(start: Stage<D>, want: int)
    ensures
        leads_to(start, want, Seq::<u8>::empty(), start),
{
    let path = seq![Progress { stage: start, piece: Seq::empty(), out: Seq::empty() }];
    assert(path_from(path, start, want, Seq::<u8>::empty(), start));
}

/// One more step.
pub proof fn lemma_step<D: LZMADecoder>(
    start: Stage<D>,
    want: int,
    out: Seq<u8>,
    middle: Stage<D>,
    piece: Seq<u8>,
    end: Stage<D>,
)
    requires
        leads_to(start, want, out, middle),
        out.len() < want,
        if middle.place.left == 0 {
            piece.len() == 0 && middle.starts(end)
        } else {
            middle.gives(want - out.len(), piece, end)
        },
    ensures
        leads_to(start, want, out + piece, end),
{
    let path = choose|path: Seq<Progress<D>>| #[trigger]
        path_from(path, start, want, out, middle);
    let next = Progress { stage: end, piece, out: out + piece };
    let longer = path.push(next);
    assert forall|i: int| 1 <= i < longer.len() implies longer[i - 1].advances(
        want,
        #[trigger] longer[i],
    ) by {
        if i < path.len() {
            assert(path[i - 1].advances(want, path[i]));
        }
    }
    assert(path_from(longer, start, want, out + piece, end));
}

/// A reader that has reached the end of its stream stays there and hands out nothing.
pub proof fn lemma_end_is_final<D: LZMADecoder>(
    start: Stage<D>,
    want: int,
    out: Seq<u8>,
    end: Stage<D>,
)
    requires
        start.place.ended,
        leads_to(start, want, out, end),
    ensures
        end == start,
        out == Seq::<u8>::empty(),
{
    let path = choose|path: Seq<Progress<D>>| #[trigger] path_from(path, start, want, out, end);
    if path.len() > 1 {
        reveal(Stage::starts);
        reveal(Stage::gives);
        assert(path[0].advances(want, path[1]));
    }
}

impl<D: LZMADecoder> Stage<D> {
    /// What the place says of the range decoder and the dictionary is so.
    pub open spec fn consistent(self) -> bool {
        &&& self.lz.wf()
        &&& self.place.left >= 0
        &&& self.place.clean == is_clean(self.lz, self.rc)
    }

    /// What reading `want` bytes leads to, as far as no compressed chunk matters.
    pub open spec fn run(self, want: int) -> Run {
        crate::lzma2_reader::run(self.place, self.bytes, want)
    }
}

/// A step does not change what reading leads to.
proof fn lemma_run_step<D: LZMADecoder>(before: Progress<D>, want: int, after: Progress<D>)
    requires
        before.advances(want, after),
        before.stage.consistent(),
    ensures
        after.stage.consistent(),
        ({
            let first = before.stage.run(want - before.out.len());
            let rest = after.stage.run(want - after.out.len());
            first is Lzma || first == rest.after(after.piece)
        }),
{
    reveal(Stage::starts);
    reveal(Stage::gives);
    let stage = before.stage;
    let next = after.stage;
    stage.lz.lemma_views();
    let left = want - before.out.len();
    crate::lzma2_reader::lemma_after_nothing(next.run(want - after.out.len()));
    if stage.place.left == 0 {
        assert(after.piece =~= Seq::<u8>::empty());
    } else if !stage.place.lzma {
        let n = after.piece.len() as int;
        if n == 0 {
            assert(after.piece =~= Seq::<u8>::empty());
            assert(stage.bytes.skip(0) =~= stage.bytes);
        } else {
            crate::lzma2_reader::lemma_run_piece(stage.place, stage.bytes, left, n);
        }
    }
}

/// No number of steps changes what reading leads to.
proof fn lemma_run_path<D: LZMADecoder>(path: Seq<Progress<D>>, want: int, i: int)
    requires
        is_path(path, want),
        path[0].stage.consistent(),
        path[0].out == Seq::<u8>::empty(),
        0 <= i < path.len(),
    ensures
        path[i].stage.consistent(),
        ({
            let first = path[0].stage.run(want);
            let rest = path[i].stage.run(want - path[i].out.len());
            first is Lzma || first == rest.after(path[i].out)
        }),
    decreases i,
{
    let rest = path[i].stage.run(want - path[i].out.len());
    if i == 0 {
        crate::lzma2_reader::lemma_after_nothing(rest);
    } else {
        lemma_run_path(path, want, i - 1);
        assert(path[i - 1].advances(want, path[i]));
        lemma_run_step(path[i - 1], want, path[i]);
        crate::lzma2_reader::lemma_after_twice(rest, path[i].piece, path[i - 1].out);
    }
}

/// A reader that has handed out all that was asked for, or has reached the end, has done what its
/// stream says, as far as no compressed chunk matters.
pub proof fn lemma_run_done<D: LZMADecoder>(
    start: Stage<D>,
    want: int,
    out: Seq<u8>,
    end: Stage<D>,
)
    requires
        start.consistent(),
        leads_to(start, want, out, end),
        out.len() == want || end.place.ended,
    ensures
        end.consistent(),
        start.run(want) is Lzma || start.run(want) == (Run::Done {
            out,
            place: end.place,
            bytes: end.bytes,
        }),
{
    let path = choose|path: Seq<Progress<D>>| #[trigger] path_from(path, start, want, out, end);
    lemma_run_path(path, want, path.len() - 1);
    assert(out + Seq::<u8>::empty() =~= out);
}

/// A reader that fails has found what is wrong with its stream, as far as no compressed chunk
/// matters.
pub proof fn lemma_run_fails<D: LZMADecoder>(start: Stage<D>, want: int, error: Error)
    requires
        start.consistent(),
        leads_to_failure(start, want, error),
    ensures
        start.run(want) is Lzma || start.run(want) == Run::Fail(error),
{
    reveal(Stage::fails);
    let (out, end) = choose|out: Seq<u8>, end: Stage<D>| #[trigger]
        leads_to(start, want, out, end) && end.fails(want - out.len(), error);
    let path = choose|path: Seq<Progress<D>>| #[trigger] path_from(path, start, want, out, end);
    lemma_run_path(path, want, path.len() - 1);
}

/// An LZMA chunk is begun as its head says: it has `size` bytes, the decoder gets just its
/// compressed data, and the stream goes on behind them. The dictionary is emptied only by a chunk
/// that resets everything. Such a chunk is no reason to fail.
#[verifier::spinoff_prover]
#[verifier::rlimit(60)]
pub proof fn lemma_lzma_chunk_is_begun<D: LZMADecoder>(
    start: Stage<D>,
    level: int,
    size: int,
    lc: u32,
    lp: u32,
    pb: u32,
    data: Seq<u8>,
    rest: Seq<u8>,
    next: Stage<D>,
)
    requires
        0 <= level <= 3,
        1 <= size <= 0x200000,
        5 <= data.len() <= 0x10000,
        data[0] == 0,
        lc + lp <= 4,
        pb <= 4,
        start.place.needs.dict_reset ==> level == 3,
        start.place.needs.props ==> level >= 2,
        !start.place.ended,
        start.place.left == 0,
        start.bytes == seq![
            (0x80 + 0x20 * level + (size - 1) / 0x10000) as u8,
            ((size - 1) / 0x100 % 0x100) as u8,
            ((size - 1) % 0x100) as u8,
            ((data.len() - 1) / 0x100) as u8,
            ((data.len() - 1) % 0x100) as u8,
        ] + (if level >= 2 {
            seq![((pb * 5 + lp) * 9 + lc) as u8]
        } else {
            Seq::<u8>::empty()
        }) + data + rest,
    ensures
        forall|want: int, error: Error| !#[trigger] start.fails(want, error),
        start.starts(next) ==> {
            &&& next.place.left == size
            &&& next.place.lzma
            &&& !next.place.ended
            &&& !next.place.needs.dict_reset
            &&& !next.place.needs.props
            &&& next.bytes == rest
            &&& next.rc.coder().bytes == data.skip(5)
            &&& next.rc.coder().code == data[1] * 0x1000000 + data[2] * 0x10000 + data[3] * 0x100
                + data[4]
            &&& next.rc.coder().range == 0xFFFFFFFF
            &&& !next.rc.coder().overrun
            &&& if level == 3 {
                next.lz.dict() == Seq::<u8>::empty() && next.lz.capacity() == start.lz.capacity()
            } else {
                next.lz == start.lz
            }
            &&& if level >= 2 {
                call_ensures(D::new, (lc, lp, pb), next.decoder->0)
            } else if level == 1 {
                call_ensures(D::reset, (start.decoder->0,), next.decoder->0)
            } else {
                next.decoder == start.decoder
            }
        },
{
    reveal(Stage::starts);
    reveal(Stage::fails);
    let bytes = start.bytes;
    let props = seq![((pb * 5 + lp) * 9 + lc) as u8];
    let head = seq![
        (0x80 + 0x20 * level + (size - 1) / 0x10000) as u8,
        ((size - 1) / 0x100 % 0x100) as u8,
        ((size - 1) % 0x100) as u8,
        ((data.len() - 1) / 0x100) as u8,
        ((data.len() - 1) % 0x100) as u8,
    ];
    let compressed = data.len() as int;
    crate::lzma2_reader::lemma_lzma_head_reads_back(
        level,
        size,
        compressed,
        lc,
        lp,
        pb,
        data + rest,
        start.place.needs,
    );
    let len: int = if level >= 2 {
        6
    } else {
        5
    };
    if level >= 2 {
        assert(bytes =~= head + props + (data + rest));
    } else {
        assert(bytes =~= head + (data + rest));
    }
    assert(bytes[0] == 0x80 + 0x20 * level + (size - 1) / 0x10000);
    assert(bytes.skip(len) =~= data + rest);
    assert(bytes.skip(len + compressed) =~= rest);
    assert(bytes.subrange(len + 5, len + compressed) =~= data.skip(5));
    let code = bytes.skip(len + 1);
    assert(code[0] == data[1] && code[1] == data[2] && code[2] == data[3] && code[3] == data[4]);
    assert(crate::range_dec::chunk_error(data + rest, compressed) is None);
}

/// A stored chunk is begun as its head says: it has `size` bytes, and the stream goes on with them.
/// The dictionary is emptied if the control byte is 0x01. Such a chunk is no reason to fail.
#[verifier::spinoff_prover]
#[verifier::rlimit(60)]
pub proof fn lemma_stored_chunk_is_begun<D: LZMADecoder>(
    start: Stage<D>,
    control: u8,
    size: int,
    rest: Seq<u8>,
    next: Stage<D>,
)
    requires
        control == 1 || control == 2,
        start.place.needs.dict_reset ==> control == 1,
        1 <= size <= 0x10000,
        !start.place.ended,
        start.place.left == 0,
        start.bytes == seq![
            control,
            ((size - 1) / 0x100) as u8,
            ((size - 1) % 0x100) as u8,
        ] + rest,
    ensures
        forall|want: int, error: Error| !#[trigger] start.fails(want, error),
        start.starts(next) ==> {
            &&& next.place.left == size
            &&& !next.place.lzma
            &&& !next.place.ended
            &&& !next.place.needs.dict_reset
            &&& next.place.needs.props <==> start.place.needs.props || control == 1
            &&& next.bytes == rest
            &&& next.rc == start.rc
            &&& next.decoder == start.decoder
            &&& if control == 1 {
                next.lz.dict() == Seq::<u8>::empty() && next.lz.capacity() == start.lz.capacity()
            } else {
                next.lz == start.lz
            }
        },
{
    reveal(Stage::starts);
    reveal(Stage::fails);
    let bytes = start.bytes;
    assert(bytes[0] == control);
    assert(bytes.skip(1)[0] == (size - 1) / 0x100);
    assert(bytes.skip(1)[1] == (size - 1) % 0x100);
    assert(bytes.skip(3) =~= rest);
}

/// A piece of a compressed chunk is what the decoder makes of it: it gets the dictionary as it is,
/// with room for as many bytes as are wanted, are left in the chunk, and fit. All that it puts in
/// is handed out, and the reader goes on with all that it leaves.
pub proof fn lemma_decoder_gets_room<D: LZMADecoder>(
    start: Stage<D>,
    want: int,
    out: Seq<u8>,
    next: Stage<D>,
) -> (handed: (LZDecoder, Decoded<D>))
    requires
        start.gives(want, out, next),
        start.place.lzma,
    ensures
        ({
            let (lz, decoded) = handed;
            let room = lz.space_to_limit();
            &&& call_ensures(D::decode, (start.decoder->0, lz, start.rc), decoded)
            &&& decoded.result is Ok
            &&& lz.dict() == start.lz.dict()
            &&& lz.capacity() == start.lz.capacity()
            &&& lz.pending() == start.lz.pending()
            &&& lz.pending_distance() == start.lz.pending_distance()
            &&& room <= want && room <= start.place.left && room <= start.lz.space()
            &&& room == want || room == start.place.left || room == start.lz.space()
            &&& out == decoded.lz.unflushed()
            &&& out.len() <= want
            &&& out.len() <= start.place.left
            &&& next.lz.dict() == decoded.lz.dict()
            &&& next.lz.pending() == decoded.lz.pending()
            &&& next.rc == decoded.rc
            &&& next.decoder == Some(decoded.lzma)
            &&& next.bytes == start.bytes
            &&& next.place.left == start.place.left - out.len()
        }),
{
    reveal(Stage::gives);
    choose|lz: LZDecoder, decoded: Decoded<D>| #[trigger]
        start.decompresses(want, out, next, lz, decoded)
}

/// What is handed out is what the dictionary got last.
pub proof fn lemma_output_is_in_dictionary<D: LZMADecoder>(
    start: Stage<D>,
    want: int,
    out: Seq<u8>,
    next: Stage<D>,
)
    requires
        start.lz.wf(),
        start.gives(want, out, next),
    ensures
        out.len() <= next.lz.dict().len(),
        next.lz.dict().skip(next.lz.dict().len() - out.len()) == out,
{
    reveal(Stage::gives);
    start.lz.lemma_views();
    next.lz.lemma_views();
    if start.place.lzma {
        let (lz, decoded) = choose|lz: LZDecoder, decoded: Decoded<D>| #[trigger]
            start.decompresses(want, out, next, lz, decoded);
        lemma_unflushed_is_end(decoded.lz, next.lz);
    } else {
        let all = start.lz.dict() + out;
        let dict = next.lz.dict();
        assert(dict.skip(dict.len() - out.len()) =~= out);
    }
}

proof fn lemma_unflushed_is_end(before: LZDecoder, after: LZDecoder)
    requires
        flushed(before, after),
        before.wf(),
    ensures
        before.unflushed().len() <= after.dict().len(),
        after.dict().skip(after.dict().len() - before.unflushed().len()) == before.unflushed(),
{
    before.lemma_views();
}

/// Once all bytes of a compressed chunk have been handed out, the range decoder has used up its
/// input and no more, and nothing is pending.
pub proof fn lemma_chunk_ends_clean<D: LZMADecoder>(
    start: Stage<D>,
    want: int,
    out: Seq<u8>,
    next: Stage<D>,
)
    requires
        start.gives(want, out, next),
        out.len() == start.place.left,
    ensures
        next.rc.coder().bytes.len() == 0,
        !next.rc.coder().overrun,
        next.rc.coder().code == 0,
        next.lz.pending() == 0,
{
    reveal(Stage::gives);
}

/// A chunk gives as many bytes as its head says before the next one is begun: as long as fewer have
/// been handed out, the rest of it is still to come.
pub proof fn lemma_chunk_gives_its_size<D: LZMADecoder>(
    start: Stage<D>,
    want: int,
    out: Seq<u8>,
    end: Stage<D>,
)
    requires
        start.lz.wf(),
        leads_to(start, want, out, end),
        out.len() < start.place.left,
    ensures
        end.place.left == start.place.left - out.len(),
        end.place.lzma == start.place.lzma,
        !end.place.ended || start.place.ended,
        end.place.needs == start.place.needs,
        start.place.lzma ==> end.bytes == start.bytes,
        !start.place.lzma ==> {
            &&& out.len() <= start.bytes.len()
            &&& out == start.bytes.take(out.len() as int)
            &&& end.bytes == start.bytes.skip(out.len() as int)
        },
{
    let path = choose|path: Seq<Progress<D>>| #[trigger] path_from(path, start, want, out, end);
    lemma_path_stays_in_chunk(path, want, path.len() - 1);
}

#[verifier::spinoff_prover]
#[verifier::rlimit(60)]
proof fn lemma_path_stays_in_chunk<D: LZMADecoder>(path: Seq<Progress<D>>, want: int, i: int)
    requires
        is_path(path, want),
        path[0].out == Seq::<u8>::empty(),
        0 <= i < path.len(),
        path[i].out.len() < path[0].stage.place.left,
        path[0].stage.lz.wf(),
    ensures
        path[i].stage.lz.wf(),
        ({
            let (start, end, out) = (path[0].stage, path[i].stage, path[i].out);
            &&& end.place.left == start.place.left - out.len()
            &&& end.place.lzma == start.place.lzma
            &&& end.place.ended ==> start.place.ended
            &&& end.place.needs == start.place.needs
            &&& start.place.lzma ==> end.bytes == start.bytes
            &&& !start.place.lzma ==> {
                &&& out.len() <= start.bytes.len()
                &&& out == start.bytes.take(out.len() as int)
                &&& end.bytes == start.bytes.skip(out.len() as int)
            }
        }),
    decreases i,
{
    let start = path[0].stage;
    if i > 0 {
        let (before, after) = (path[i - 1], path[i]);
        assert(before.advances(want, after));
        lemma_path_stays_in_chunk(path, want, i - 1);
        reveal(Stage::gives);
        before.stage.lz.lemma_views();
        if !start.place.lzma {
            let k = before.out.len() as int;
            let n = after.piece.len() as int;
            assert(after.out =~= start.bytes.take(k + n));
            assert(start.bytes.skip(k).skip(n) =~= start.bytes.skip(k + n));
        }
    } else {
        assert(start.bytes.take(0) =~= path[0].out);
        assert(start.bytes.skip(0) =~= start.bytes);
    }
}

/// On its way through an LZMA chunk a reader has taken all of it from its source, and as many bytes
/// are left as the head says, but for those that were handed out.
#[verifier::spinoff_prover]
#[verifier::rlimit(60)]
pub proof fn lemma_lzma_chunk_is_read<D: LZMADecoder>(
    start: Stage<D>,
    level: int,
    size: int,
    lc: u32,
    lp: u32,
    pb: u32,
    data: Seq<u8>,
    rest: Seq<u8>,
    want: int,
    out: Seq<u8>,
    end: Stage<D>,
)
    requires
        0 <= level <= 3,
        1 <= size <= 0x200000,
        5 <= data.len() <= 0x10000,
        data[0] == 0,
        lc + lp <= 4,
        pb <= 4,
        start.place.needs.dict_reset ==> level == 3,
        start.place.needs.props ==> level >= 2,
        !start.place.ended,
        start.place.left == 0,
        start.lz.wf(),
        start.bytes == seq![
            (0x80 + 0x20 * level + (size - 1) / 0x10000) as u8,
            ((size - 1) / 0x100 % 0x100) as u8,
            ((size - 1) % 0x100) as u8,
            ((data.len() - 1) / 0x100) as u8,
            ((data.len() - 1) % 0x100) as u8,
        ] + (if level >= 2 {
            seq![((pb * 5 + lp) * 9 + lc) as u8]
        } else {
            Seq::<u8>::empty()
        }) + data + rest,
        leads_to(start, want, out, end),
        0 < out.len() < size,
    ensures
        end.place.left == size - out.len(),
        end.place.lzma,
        !end.place.ended,
        end.bytes == rest,
{
    let path = choose|path: Seq<Progress<D>>| #[trigger] path_from(path, start, want, out, end);
    assert(path.len() > 1);
    assert(path[0].advances(want, path[1]));
    let middle = path[1].stage;
    lemma_lzma_chunk_is_begun(start, level, size, lc, lp, pb, data, rest, middle);
    let tail = path.skip(1);
    assert forall|i: int| 1 <= i < tail.len() implies tail[i - 1].advances(
        want,
        #[trigger] tail[i],
    ) by {
        assert(path[i].advances(want, path[i + 1]));
    }
    assert(path[1].out =~= Seq::<u8>::empty());
    assert(middle.lz.wf()) by {
        reveal(Stage::starts);
    }
    assert(tail.last() == path.last());
    lemma_path_stays_in_chunk(tail, want, tail.len() - 1);
}

} // verus!
