//! The LZMA2 decompressor.
//!
//! An LZMA2 stream is a sequence of chunks, each of which starts with a control byte:
//!
//!  Control Byte    | Chunk Type      | Formal Action
//!  --------------- | --------------- | ----------------------------
//!  0x00            | End of Stream   | Terminates the LZMA2 stream.
//!  0x01            | Uncompressed    | Resets Dictionary.
//!  0x02            | Uncompressed    | Preserves Dictionary.
//!  0x03 - 0x7F     | Reserved        | Invalid stream.
//!  0x80 - 0x9F     | LZMA Compressed | Resets nothing.
//!  0xA0 - 0xBF     | LZMA Compressed | Resets State.
//!  0xC0 - 0xDF     | LZMA Compressed | Resets State and Props.
//!  0xE0 - 0xFF     | LZMA Compressed | Resets Everything.

use vstd::prelude::*;

use crate::error::Error;
use crate::io::{read_u16_be, read_u8, Read};
use crate::lz::lz_decoder::LZDecoder;
use crate::lzma2_steps::Stage;
use crate::range_dec::{RangeDecoder, RangeDecoderBuffer};

verus! {

/// The largest size of the compressed data of a chunk.
pub const COMPRESSED_SIZE_MAX: u32 = 0x10000;

/// The largest byte that can hold properties.
pub const PROPS_MAX: u8 = 224;

/// The size of the dictionary for a wanted size: the next multiple of 16.
pub open spec fn dict_size_for(dict_size: int) -> int {
    (dict_size + 15) / 16 * 16
}

/// The dictionary has at least the wanted size, less than 16 bytes more, and a multiple of 16.
pub proof fn lemma_dict_size_for(dict_size: int)
    requires
        dict_size >= 0,
    ensures
        dict_size <= dict_size_for(dict_size) < dict_size + 16,
        dict_size_for(dict_size) % 16 == 0,
{
}

fn get_dict_size(dict_size: u32) -> (size: u32)
    requires
        dict_size <= u32::MAX - 15,
    ensures
        size == dict_size_for(dict_size as int),
{
    let padded: u32 = dict_size + 15;
    assert(padded & !15u32 == padded / 16 * 16) by (bit_vector);
    padded & !15
}

/// Calculates the memory usage in KiB required for LZMA2 decompression.
pub fn get_memory_usage(dict_size: u32) -> (kib: u32)
    requires
        dict_size <= u32::MAX - 15,
    ensures
        kib == 40 + 64 + dict_size_for(dict_size as int) / 1024,
{
    40 + COMPRESSED_SIZE_MAX / 1024 + get_dict_size(dict_size) / 1024
}

/// What a decoder leaves when it has decoded.
pub struct Decoded<D> {
    pub lzma: D,
    pub lz: LZDecoder,
    pub rc: RangeDecoder<RangeDecoderBuffer>,
    pub result: Result<(), Error>,
}

/// Decodes the symbols of LZMA chunks.
pub trait LZMADecoder: Sized {
    /// A decoder in its initial state, for the given numbers of literal context bits, literal
    /// position bits and position bits.
    fn new(lc: u32, lp: u32, pb: u32) -> Self;

    /// The decoder in its initial state, with the same properties.
    fn reset(self) -> Self;

    /// Decodes until the limit of the dictionary is reached, and gives everything back.
    fn decode(self, lz: LZDecoder, rc: RangeDecoder<RangeDecoderBuffer>) -> Decoded<Self>;
}

/// The properties of an LZMA chunk.
#[derive(Debug, Clone, Copy, PartialEq, Eq, Structural)]
pub struct Props {
    pub lc: u32,
    pub lp: u32,
    pub pb: u32,
}

/// The properties that a byte stands for: it is `(pb * 5 + lp) * 9 + lc`.
pub open spec fn props_of(byte: u8) -> Result<Props, Error> {
    let pb = byte / 45;
    let lp = byte % 45 / 9;
    let lc = byte % 9;
    if byte > PROPS_MAX {
        Err(Error::InvalidInput("corrupted input data (LZMA2:3)"))
    } else if lc + lp > 4 {
        Err(Error::InvalidInput("corrupted input data (LZMA2:4)"))
    } else {
        Ok(Props { lc: lc as u32, lp: lp as u32, pb: pb as u32 })
    }
}

/// Every allowed combination of properties has a byte that stands for it.
pub proof fn lemma_props_of(lc: u32, lp: u32, pb: u32)
    requires
        lc <= 8,
        lp <= 4,
        pb <= 4,
        lc + lp <= 4,
    ensures
        props_of(((pb * 5 + lp) * 9 + lc) as u8) == Ok::<Props, Error>(Props { lc, lp, pb }),
{
    let b = 45 * pb + 9 * lp + lc;
    assert((pb * 5 + lp) * 9 + lc == b);
    let byte = b as u8;
    assert(byte == b);
    assert(byte / 45 == pb);
    assert(byte % 45 == 9 * lp + lc);
    assert(byte % 45 / 9 == lp);
    assert(byte == 9 * (5 * pb + lp) + lc);
    assert(byte % 9 == lc);
}

/// The properties that a byte stands for are allowed, and the byte can be made from them. A byte
/// that stands for none is too large, or its literal bits are too many.
pub proof fn lemma_props_tell_byte(byte: u8)
    ensures
        match props_of(byte) {
            Ok(props) => {
                &&& props.lc + props.lp <= 4
                &&& props.pb <= 4
                &&& (props.pb * 5 + props.lp) * 9 + props.lc == byte
            },
            Err(_) => {
                &&& forall|lc: int, lp: int, pb: int|
                    0 <= lc && 0 <= lp && 0 <= pb <= 4 && lc + lp <= 4 ==> #[trigger] (45 * pb + 9
                        * lp + lc) != byte
            },
        },
{
    if props_of(byte) is Err {
        assert forall|lc: int, lp: int, pb: int|
            0 <= lc && 0 <= lp && 0 <= pb <= 4 && lc + lp <= 4 implies #[trigger] (45 * pb + 9 * lp
            + lc) != byte by {
            if 45 * pb + 9 * lp + lc == byte {
                lemma_props_of(lc as u32, lp as u32, pb as u32);
                assert((pb * 5 + lp) * 9 + lc == byte);
            }
        }
    }
}

/// Parses the byte that holds the properties.
pub fn parse_props(byte: u8) -> (result: Result<Props, Error>)
    ensures
        result == props_of(byte),
{
    if byte > (4 * 5 + 4) * 9 + 8 {
        return Err(Error::InvalidInput("corrupted input data (LZMA2:3)"));
    }
    let pb: u8 = byte / (9 * 5);
    let rest: u8 = byte - pb * 9 * 5;
    let lp: u8 = rest / 9;
    let lc: u8 = rest - lp * 9;
    if lc + lp > 4 {
        return Err(Error::InvalidInput("corrupted input data (LZMA2:4)"));
    }
    Ok(Props { lc: lc as u32, lp: lp as u32, pb: pb as u32 })
}

/// What the head of a chunk says.
#[verifier::ext_equal]
pub enum Head {
    /// The stream ends here.
    End,
    /// `size` bytes follow as they are.
    Stored { size: int },
    /// `size` bytes follow in compressed form.
    Lzma {
        size: int,
        /// The size of the compressed data, of which the head has consumed nothing.
        compressed: int,
        /// New properties, which come with a new state.
        props: Option<Props>,
        /// Whether the state is reset.
        state_reset: bool,
    },
}

/// The part of a reader's state that decides what the head of a chunk means.
#[verifier::ext_equal]
pub struct Needs {
    /// Only a chunk that resets the dictionary can follow.
    pub dict_reset: bool,
    /// Only an LZMA chunk that sets the properties can follow, or one that is not compressed.
    pub props: bool,
}

/// Whether a chunk with this control byte resets the dictionary.
pub open spec fn resets_dict(control: u8) -> bool {
    control >= 0xE0 || control == 0x01
}

/// What is needed after a chunk with this control byte.
pub open spec fn needs_after(control: u8, needs: Needs) -> Needs {
    Needs {
        dict_reset: needs.dict_reset && !resets_dict(control),
        props: if control >= 0xC0 {
            false
        } else {
            needs.props || resets_dict(control)
        },
    }
}

/// The size that an LZMA chunk has in uncompressed form.
pub open spec fn lzma_size(control: u8, bytes: Seq<u8>) -> int {
    (control % 0x20) * 0x10000 + crate::io::be16(bytes.skip(1)) + 1
}

/// The head of the chunk at the start of `bytes`, and how long it is.
pub open spec fn head(bytes: Seq<u8>, needs: Needs) -> Result<(Head, int), Error> {
    let control = bytes[0];
    let now = needs_after(control, needs);
    if bytes.len() < 1 {
        Err(Error::Eof)
    } else if control == 0 {
        Ok((Head::End, 1))
    } else if now.dict_reset {
        Err(Error::InvalidInput("corrupted input data (LZMA2:0)"))
    } else if control < 0x80 && control > 0x02 {
        Err(Error::InvalidInput("corrupted input data (LZMA2:2)"))
    } else if control < 0x80 {
        if bytes.len() < 3 {
            Err(Error::Eof)
        } else {
            Ok((Head::Stored { size: crate::io::be16(bytes.skip(1)) + 1 }, 3))
        }
    } else if bytes.len() < 5 {
        Err(Error::Eof)
    } else {
        let size = lzma_size(control, bytes);
        let compressed = crate::io::be16(bytes.skip(3)) + 1;
        if control >= 0xC0 {
            if bytes.len() < 6 {
                Err(Error::Eof)
            } else {
                match props_of(bytes[5]) {
                    Ok(props) => Ok(
                        (Head::Lzma { size, compressed, props: Some(props), state_reset: true }, 6),
                    ),
                    Err(error) => Err(error),
                }
            }
        } else if now.props {
            Err(Error::InvalidInput("corrupted input data (LZMA2:1)"))
        } else {
            Ok(
                (
                    Head::Lzma {
                        size,
                        compressed,
                        props: None,
                        state_reset: control >= 0xA0,
                    },
                    5,
                ),
            )
        }
    }
}

/// Where a reader is in its stream.
#[verifier::ext_equal]
pub struct Place {
    pub needs: Needs,
    /// How many bytes of the current chunk are left.
    pub left: int,
    /// Whether it is a compressed chunk.
    pub lzma: bool,
    /// The end of the stream has been reached.
    pub ended: bool,
    /// Nothing of an earlier compressed chunk is left over.
    pub clean: bool,
}

/// What reading leads to.
#[verifier::ext_equal]
pub enum Run {
    /// These bytes, and then this place with these bytes to come.
    Done { out: Seq<u8>, place: Place, bytes: Seq<u8> },
    /// The stream is bad.
    Fail(Error),
    /// It depends on a compressed chunk.
    Lzma,
}

impl Run {
    /// The same with bytes that come before.
    pub open spec fn after(self, out: Seq<u8>) -> Run {
        match self {
            Run::Done { out: more, place, bytes } => Run::Done { out: out + more, place, bytes },
            _ => self,
        }
    }
}

/// Reads up to `want` bytes from a stream.
pub open spec fn run(place: Place, bytes: Seq<u8>, want: int) -> Run
    decreases
        want,
        if place.left <= 0 {
            1int
        } else {
            0
        },
{
    if want <= 0 || place.ended {
        Run::Done { out: Seq::empty(), place, bytes }
    } else if place.left <= 0 {
        match head(bytes, place.needs) {
            Err(error) => Run::Fail(error),
            Ok((Head::End, len)) => Run::Done {
                out: Seq::empty(),
                place: Place { ended: true, ..place },
                bytes: bytes.skip(len),
            },
            Ok((Head::Stored { size }, len)) => run(
                Place {
                    needs: needs_after(bytes[0], place.needs),
                    left: size,
                    lzma: false,
                    ..place
                },
                bytes.skip(len),
                want,
            ),
            Ok((Head::Lzma { compressed, .. }, len)) => match crate::range_dec::chunk_error(
                bytes.skip(len),
                compressed,
            ) {
                Some(error) => Run::Fail(error),
                None => Run::Lzma,
            },
        }
    } else if place.lzma {
        Run::Lzma
    } else {
        let n = if place.left < want { place.left } else { want };
        if bytes.len() < n {
            Run::Fail(Error::Eof)
        } else if n == place.left && !place.clean {
            Run::Fail(Error::InvalidInput("rc not finished or lz has pending"))
        } else {
            run(Place { left: place.left - n, ..place }, bytes.skip(n), want - n).after(
                bytes.take(n),
            )
        }
    }
}

/// Nothing comes before.
pub proof fn lemma_after_nothing(end: Run)
    ensures
        end.after(Seq::<u8>::empty()) == end,
{
    if let Run::Done { out, place, bytes } = end {
        assert(Seq::<u8>::empty() + out =~= out);
    }
}

/// What comes before can come in two parts.
pub proof fn lemma_after_twice(end: Run, second: Seq<u8>, first: Seq<u8>)
    ensures
        end.after(second).after(first) == end.after(first + second),
{
    if let Run::Done { out, place, bytes } = end {
        assert(first + (second + out) =~= (first + second) + out);
    }
}

/// A stored chunk can be read in pieces.
#[verifier::spinoff_prover]
#[verifier::rlimit(40)]
pub proof fn lemma_run_piece(place: Place, bytes: Seq<u8>, want: int, n: int)
    requires
        !place.ended,
        !place.lzma,
        1 <= n <= place.left,
        n <= want,
        n <= bytes.len(),
        n == place.left ==> place.clean,
    ensures
        run(place, bytes, want) == run(
            Place { left: place.left - n, ..place },
            bytes.skip(n),
            want - n,
        ).after(bytes.take(n)),
{
    let all = if place.left < want { place.left } else { want };
    if n < all && bytes.len() >= all {
        let rest = all - n;
        assert(bytes.skip(n).skip(rest) =~= bytes.skip(all));
        assert(bytes.take(n) + bytes.skip(n).take(rest) =~= bytes.take(all));
        let end = run(Place { left: place.left - all, ..place }, bytes.skip(all), want - all);
        assert(end.after(bytes.skip(n).take(rest)).after(bytes.take(n)) =~= end.after(
            bytes.take(all),
        ));
    }
}

/// The bytes of an uncompressed chunk.
pub open spec fn stored_chunk(control: u8, data: Seq<u8>) -> Seq<u8> {
    let size = data.len() - 1;
    seq![control, (size / 0x100) as u8, (size % 0x100) as u8] + data
}

/// An uncompressed chunk reads back as its data, and reading goes on behind it.
pub proof fn lemma_stored_chunk_reads_back(
    place: Place,
    control: u8,
    data: Seq<u8>,
    rest: Seq<u8>,
    want: int,
)
    requires
        !place.ended,
        place.left == 0,
        place.clean,
        control == 0x01 || control == 0x02 && !place.needs.dict_reset,
        1 <= data.len() <= 0x10000,
        data.len() <= want,
    ensures
        run(place, stored_chunk(control, data) + rest, want) == run(
            Place { needs: needs_after(control, place.needs), lzma: false, ..place },
            rest,
            want - data.len(),
        ).after(data),
{
    let size = data.len() - 1;
    let bytes = stored_chunk(control, data) + rest;
    assert(bytes.skip(1)[0] == (size / 0x100) as u8);
    assert(bytes.skip(1)[1] == (size % 0x100) as u8);
    assert(head(bytes, place.needs) == Ok::<(Head, int), Error>(
        (Head::Stored { size: data.len() as int }, 3),
    ));
    assert(bytes.skip(3) =~= data + rest);
    let inside = Place {
        needs: needs_after(control, place.needs),
        left: data.len() as int,
        lzma: false,
        ..place
    };
    lemma_run_piece(inside, data + rest, want, data.len() as int);
    assert((data + rest).take(data.len() as int) =~= data);
    assert((data + rest).skip(data.len() as int) =~= rest);
}

/// The head of an LZMA chunk reads back: `level` says how much is reset, the size is split over the
/// low bits of the control byte and the two bytes behind it, the compressed size follows, and then
/// the properties where they are reset.
#[verifier::spinoff_prover]
#[verifier::rlimit(60)]
pub proof fn lemma_lzma_head_reads_back(
    level: int,
    size: int,
    compressed: int,
    lc: u32,
    lp: u32,
    pb: u32,
    rest: Seq<u8>,
    needs: Needs,
)
    requires
        0 <= level <= 3,
        1 <= size <= 0x200000,
        1 <= compressed <= 0x10000,
        lc + lp <= 4,
        pb <= 4,
        needs.dict_reset ==> level == 3,
        needs.props ==> level >= 2,
    ensures
        ({
            let bytes = seq![
                (0x80 + 0x20 * level + (size - 1) / 0x10000) as u8,
                ((size - 1) / 0x100 % 0x100) as u8,
                ((size - 1) % 0x100) as u8,
                ((compressed - 1) / 0x100) as u8,
                ((compressed - 1) % 0x100) as u8,
            ];
            if level >= 2 {
                head(bytes + seq![((pb * 5 + lp) * 9 + lc) as u8] + rest, needs) == Ok::<
                    (Head, int),
                    Error,
                >(
                    (
                        Head::Lzma {
                            size,
                            compressed,
                            props: Some(Props { lc, lp, pb }),
                            state_reset: true,
                        },
                        6,
                    ),
                )
            } else {
                head(bytes + rest, needs) == Ok::<(Head, int), Error>(
                    (
                        Head::Lzma { size, compressed, props: None, state_reset: level == 1 },
                        5,
                    ),
                )
            }
        }),
{
    let bytes = seq![
        (0x80 + 0x20 * level + (size - 1) / 0x10000) as u8,
        ((size - 1) / 0x100 % 0x100) as u8,
        ((size - 1) % 0x100) as u8,
        ((compressed - 1) / 0x100) as u8,
        ((compressed - 1) % 0x100) as u8,
    ];
    let all = if level >= 2 {
        bytes + seq![((pb * 5 + lp) * 9 + lc) as u8] + rest
    } else {
        bytes + rest
    };
    lemma_props_of(lc, lp, pb);
    let control = all[0];
    assert(0 <= (size - 1) / 0x10000 < 0x20);
    assert(control == 0x80 + 0x20 * level + (size - 1) / 0x10000);
    assert(control % 0x20 == (size - 1) / 0x10000);
    assert(all.skip(1)[0] == (size - 1) / 0x100 % 0x100);
    assert(all.skip(1)[1] == (size - 1) % 0x100);
    assert(all.skip(3)[0] == (compressed - 1) / 0x100);
    assert(all.skip(3)[1] == (compressed - 1) % 0x100);
    assert(lzma_size(control, all) == size);
    assert(crate::io::be16(all.skip(3)) + 1 == compressed);
}

/// What the control byte of a chunk demands of the chunks before it: the dictionary has to have
/// been reset, and for an LZMA chunk without properties some have to be set. Bytes from 0x03 to
/// 0x7F are no control bytes.
pub proof fn lemma_control_byte(bytes: Seq<u8>, needs: Needs)
    requires
        bytes.len() > 0,
        head(bytes, needs) is Ok,
        bytes[0] != 0,
    ensures
        bytes[0] <= 2 || bytes[0] >= 0x80,
        needs.dict_reset ==> bytes[0] == 1 || bytes[0] >= 0xE0,
        needs.props && bytes[0] >= 0x80 ==> bytes[0] >= 0xC0,
        head(bytes, needs)->Ok_0.0 is Stored <==> bytes[0] <= 2,
        head(bytes, needs)->Ok_0.0 is Lzma <==> bytes[0] >= 0x80,
        !needs_after(bytes[0], needs).dict_reset,
        needs_after(bytes[0], needs).props <==> bytes[0] == 1 || needs.props && bytes[0] == 2,
{
}

/// A stream starts with a chunk that resets the dictionary, or it is refused.
pub proof fn lemma_first_chunk_resets(bytes: Seq<u8>, needs: Needs)
    requires
        bytes.len() > 0,
        needs.dict_reset,
        bytes[0] != 0,
        bytes[0] != 1,
        bytes[0] < 0xE0,
    ensures
        head(bytes, needs) == Err::<(Head, int), Error>(
            Error::InvalidInput("corrupted input data (LZMA2:0)"),
        ),
{
}

/// The end marker ends the stream, whatever follows it.
pub proof fn lemma_end_marker_ends(place: Place, rest: Seq<u8>, want: int)
    requires
        !place.ended,
        place.left == 0,
        want > 0,
    ensures
        run(place, seq![0u8] + rest, want) == (Run::Done {
            out: Seq::<u8>::empty(),
            place: Place { ended: true, ..place },
            bytes: rest,
        }),
{
    assert((seq![0u8] + rest).skip(1) =~= rest);
}

/// A single-threaded LZMA2 decompressor.
///
/// The symbols of compressed chunks are decoded by `D`.
pub struct LZMA2Reader<R, D> {
    inner: R,
    lz: LZDecoder,
    rc: RangeDecoder<RangeDecoderBuffer>,
    lzma: Option<D>,
    uncompressed_size: usize,
    is_lzma_chunk: bool,
    need_dict_reset: bool,
    need_props: bool,
    end_reached: bool,
    error: Option<Error>,
}

impl<R, D> LZMA2Reader<R, D> {
    /// The underlying reader.
    pub closed spec fn source(&self) -> R {
        self.inner
    }

    /// Unwraps the reader, returning the underlying reader.
    pub fn into_inner(self) -> (inner: R)
        ensures
            inner == self.source(),
    {
        self.inner
    }
}

impl<R: Read, D: LZMADecoder> LZMA2Reader<R, D> {
    /// Where the reader is in its stream.
    pub closed spec fn place(&self) -> Place {
        Place {
            needs: Needs { dict_reset: self.need_dict_reset, props: self.need_props },
            left: self.uncompressed_size as int,
            lzma: self.is_lzma_chunk,
            ended: self.end_reached,
            clean: crate::lzma2_steps::is_clean(self.lz, self.rc),
        }
    }

    /// All that the reader holds.
    pub closed spec fn stage(&self) -> Stage<D> {
        Stage {
            place: self.place(),
            lz: self.lz,
            rc: self.rc,
            decoder: self.lzma,
            bytes: self.inner.remaining(),
        }
    }

    /// The error that reading has led to.
    pub closed spec fn failure(&self) -> Option<Error> {
        self.error
    }

    /// The dictionary.
    pub closed spec fn dict(&self) -> Seq<u8> {
        self.lz.dict()
    }

    /// Everything that was decoded has been handed out.
    pub closed spec fn wf(&self) -> bool {
        &&& self.lz.wf()
        &&& self.lz.unflushed() == Seq::<u8>::empty()
        &&& self.uncompressed_size <= 0x200000
        &&& !self.need_props ==> self.lzma is Some
        &&& self.is_lzma_chunk && self.uncompressed_size > 0 ==> self.lzma is Some
    }

    /// How the views of a reader relate to each other.
    pub proof fn lemma_stage(&self)
        requires
            self.wf(),
        ensures
            self.stage().consistent(),
            self.stage().place == self.place(),
            self.stage().lz.dict() == self.dict(),
            self.stage().lz.unflushed() == Seq::<u8>::empty(),
            self.stage().bytes == self.source().remaining(),
    {
    }

    /// Create a new LZMA2 reader.
    /// `inner` is the reader to read compressed data from.
    /// `dict_size` is the dictionary size in bytes.
    pub fn new(inner: R, dict_size: u32, preset_dict: Option<&[u8]>) -> (reader: Self)
        requires
            dict_size <= u32::MAX - 15,
        ensures
            reader.wf(),
            reader.source() == inner,
            reader.place() == (Place {
                needs: Needs {
                    dict_reset: preset_dict is None || preset_dict->0@.len() == 0,
                    props: true,
                },
                left: 0,
                lzma: false,
                ended: false,
                clean: true,
            }),
            reader.failure() is None,
            reader.stage().decoder is None,
            reader.stage().lz.capacity() >= 1,
            dict_size >= 1 ==> {
                &&& dict_size <= reader.stage().lz.capacity() < dict_size + 16
                &&& reader.stage().lz.capacity() % 16 == 0
            },
            reader.stage().rc.inner.buf@.len() == 0x10000 - 5,
            reader.dict() == match preset_dict {
                Some(preset) => crate::lz::lz_decoder::last_bytes(
                    preset@,
                    if dict_size < 1 {
                        1
                    } else {
                        dict_size_for(dict_size as int)
                    },
                ),
                None => Seq::<u8>::empty(),
            },
    {
        let has_preset: bool = match preset_dict {
            Some(preset) => preset.len() > 0,
            None => false,
        };
        let lz = LZDecoder::new(get_dict_size(dict_size) as usize, preset_dict);
        let rc = RangeDecoder::new_buffer(COMPRESSED_SIZE_MAX as usize);
        LZMA2Reader {
            inner,
            lz,
            rc,
            lzma: None,
            uncompressed_size: 0,
            is_lzma_chunk: false,
            need_dict_reset: !has_preset,
            need_props: true,
            end_reached: false,
            error: None,
        }
    }

    /// Reads the head of the next chunk, and for a compressed chunk all its data.
    #[verifier::spinoff_prover]
    #[verifier::rlimit(80)]
    fn decode_chunk_header(&mut self) -> (result: Result<(), Error>)
        requires
            old(self).wf(),
            old(self).uncompressed_size == 0,
            !old(self).end_reached,
        ensures
            final(self).inner.errors() == old(self).inner.errors(),
            final(self).error == old(self).error,
            ({
                let bytes = old(self).inner.remaining();
                let needs = old(self).place().needs;
                match head(bytes, needs) {
                    Err(error) => match result {
                        Ok(_) => false,
                        Err(e) => old(self).inner.errors().contains(e) || {
                            &&& e == error
                            &&& forall|want: int|
                                want > 0 ==> #[trigger] old(self).stage().fails(want, e)
                        },
                    },
                    Ok((what, len)) => match result {
                        Ok(_) => {
                            &&& final(self).wf()
                            &&& old(self).stage().starts(final(self).stage())
                            &&& final(self).end_reached == (what is End)
                            &&& final(self).place().needs == if what is End {
                                needs
                            } else {
                                needs_after(bytes[0], needs)
                            }
                            &&& final(self).lz.dict() == if resets_dict(bytes[0]) {
                                Seq::<u8>::empty()
                            } else {
                                old(self).lz.dict()
                            }
                            &&& final(self).lz.pending() == old(self).lz.pending()
                            &&& old(self).lz.space() > 0 ==> final(self).lz.space() > 0
                            &&& match what {
                                Head::End => {
                                    &&& final(self).inner.remaining() == bytes.skip(len)
                                    &&& final(self).place() == (Place {
                                        ended: true,
                                        ..old(self).place()
                                    })
                                },
                                Head::Stored { size } => {
                                    &&& final(self).inner.remaining() == bytes.skip(len)
                                    &&& final(self).uncompressed_size == size
                                    &&& !final(self).is_lzma_chunk
                                    &&& final(self).rc == old(self).rc
                                },
                                Head::Lzma { size, compressed, props, state_reset } => {
                                    &&& crate::range_dec::chunk_error(
                                        bytes.skip(len),
                                        compressed,
                                    ) is None
                                    &&& final(self).inner.remaining() == bytes.skip(
                                        len + compressed,
                                    )
                                    &&& final(self).uncompressed_size == size
                                    &&& final(self).is_lzma_chunk
                                    &&& final(self).rc.coder() == (crate::range_dec::Coder {
                                        range: 0xFFFFFFFF,
                                        code: crate::io::be32(bytes.skip(len + 1)),
                                        bytes: bytes.subrange(len + 5, len + compressed),
                                        padded: true,
                                        overrun: false,
                                    })
                                    &&& final(self).rc.inner.pos <= final(self).rc.inner.buf@.len()
                                },
                            }
                        },
                        Err(error) => old(self).inner.errors().contains(error) || {
                            &&& forall|want: int|
                                want > 0 ==> #[trigger] old(self).stage().fails(want, error)
                            &&& match what {
                                Head::Lzma { compressed, .. } => crate::range_dec::chunk_error(
                                    bytes.skip(len),
                                    compressed,
                                ) == Some(error),
                                _ => false,
                            }
                        },
                    },
                }
            }),
    {
        proof {
            reveal(Stage::starts);
            reveal(Stage::fails);
        }
        let ghost bytes = self.inner.remaining();
        let control: u8 = match read_u8(&mut self.inner) {
            Ok(control) => control,
            Err(error) => {
                return Err(error);
            },
        };
        if control == 0x00 {
            self.end_reached = true;
            return Ok(());
        }
        if control >= 0xE0 || control == 0x01 {
            self.need_props = true;
            self.need_dict_reset = false;
            // Reset dictionary
            self.lz.reset();
            proof {
                self.lz.lemma_views();
            }
        } else if self.need_dict_reset {
            return Err(Error::InvalidInput("corrupted input data (LZMA2:0)"));
        }
        if control >= 0x80 {
            self.is_lzma_chunk = true;
            let size_low: u16 = match read_u16_be(&mut self.inner) {
                Ok(size) => size,
                Err(error) => {
                    return Err(error);
                },
            };
            assert(control & 0x1F == control % 0x20) by (bit_vector);
            self.uncompressed_size = (control & 0x1F) as usize * 0x10000 + size_low as usize + 1;
            assert(self.inner.remaining() =~= bytes.skip(3));
            let compressed_size: usize = match read_u16_be(&mut self.inner) {
                Ok(size) => size as usize + 1,
                Err(error) => {
                    return Err(error);
                },
            };
            assert(self.inner.remaining() =~= bytes.skip(5));
            if control >= 0xC0 {
                // Reset props and state (by re-creating it)
                self.need_props = false;
                match self.decode_props() {
                    Ok(_) => {},
                    Err(error) => {
                        return Err(error);
                    },
                }
                assert(self.inner.remaining() =~= bytes.skip(6));
            } else if self.need_props {
                return Err(Error::InvalidInput("corrupted input data (LZMA2:1)"));
            } else if control >= 0xA0 {
                // Reset state
                let mut taken: Option<D> = None;
                std::mem::swap(&mut taken, &mut self.lzma);
                if let Some(lzma) = taken {
                    self.lzma = Some(lzma.reset());
                }
            }
            if self.rc.inner.buf.len() < (COMPRESSED_SIZE_MAX - 5) as usize {
                self.rc = RangeDecoder::new_buffer(COMPRESSED_SIZE_MAX as usize);
            }
            let ghost len = bytes.len() - self.inner.remaining().len();
            match self.rc.prepare(&mut self.inner, compressed_size) {
                Ok(_) => {},
                Err(error) => {
                    return Err(error);
                },
            }
            proof {
                assert(bytes.skip(len).skip(compressed_size as int) =~= bytes.skip(
                    len + compressed_size,
                ));
                assert(bytes.skip(len).skip(1) =~= bytes.skip(len + 1));
                assert(bytes.skip(len).subrange(5, compressed_size as int) =~= bytes.subrange(
                    len + 5,
                    len + compressed_size,
                ));
            }
        } else if control > 0x02 {
            return Err(Error::InvalidInput("corrupted input data (LZMA2:2)"));
        } else {
            self.is_lzma_chunk = false;
            self.uncompressed_size = match read_u16_be(&mut self.inner) {
                Ok(size) => size as usize + 1,
                Err(error) => {
                    return Err(error);
                },
            };
            assert(self.inner.remaining() =~= bytes.skip(3));
        }
        Ok(())
    }

    /// Reads the next props and re-creates the state by creating a new decoder.
    fn decode_props(&mut self) -> (result: Result<(), Error>)
        ensures
            final(self).inner.errors() == old(self).inner.errors(),
            final(self).lz == old(self).lz,
            final(self).rc == old(self).rc,
            final(self).uncompressed_size == old(self).uncompressed_size,
            final(self).is_lzma_chunk == old(self).is_lzma_chunk,
            final(self).need_dict_reset == old(self).need_dict_reset,
            final(self).need_props == old(self).need_props,
            final(self).end_reached == old(self).end_reached,
            final(self).error == old(self).error,
            match result {
                Ok(_) => {
                    let bytes = old(self).inner.remaining();
                    &&& bytes.len() >= 1
                    &&& props_of(bytes[0]) is Ok
                    &&& final(self).inner.remaining() == bytes.skip(1)
                    &&& final(self).lzma is Some
                    &&& crate::lzma2_steps::made_for(final(self).lzma->0, props_of(bytes[0])->Ok_0)
                },
                Err(error) => {
                    let bytes = old(self).inner.remaining();
                    &&& final(self).lzma == old(self).lzma
                    &&& old(self).inner.errors().contains(error) || if bytes.len() < 1 {
                        error == Error::Eof
                    } else {
                        &&& props_of(bytes[0]) == Err::<Props, Error>(error)
                        &&& final(self).inner.remaining() == bytes.skip(1)
                    }
                },
            },
    {
        let byte: u8 = match read_u8(&mut self.inner) {
            Ok(byte) => byte,
            Err(error) => {
                return Err(error);
            },
        };
        match parse_props(byte) {
            Ok(props) => {
                self.lzma = Some(D::new(props.lc, props.lp, props.pb));
                Ok(())
            },
            Err(error) => Err(error),
        }
    }

    /// `self` is what `before` becomes when the decoder is given the dictionary `lz` with room for
    /// `most` bytes, and leaves `decoded`.
    spec fn decoded_from(
        &self,
        before: Self,
        most: int,
        result: Result<(), Error>,
        lz: LZDecoder,
        decoded: Decoded<D>,
    ) -> bool {
        &&& crate::lzma2_steps::limited(before.lz, most, lz)
        &&& crate::lzma2_steps::decodes(before.lzma->0, lz, before.rc, decoded)
        &&& self.lzma == Some(decoded.lzma)
        &&& self.lz == decoded.lz
        &&& self.rc == decoded.rc
        &&& result == match decoded.result {
            Err(error) => Err::<(), Error>(error),
            Ok(_) => if crate::lzma2_steps::ignores_limit(lz, most, decoded.lz.unflushed()) {
                Err(Error::Other("LZMA decoder ignored its limit"))
            } else {
                Ok(())
            },
        }
    }

    /// Lets the decoder put up to `most` bytes of the current chunk into the dictionary.
    fn decode_lzma(&mut self, most: usize) -> (result: Result<(), Error>)
        requires
            old(self).wf(),
            old(self).uncompressed_size > 0,
            old(self).is_lzma_chunk,
            most > 0,
        ensures
            *final(self) == (LZMA2Reader {
                lz: final(self).lz,
                rc: final(self).rc,
                lzma: final(self).lzma,
                ..*old(self)
            }),
            final(self).lz.wf(),
            final(self).lzma is Some,
            exists|lz: LZDecoder, decoded: Decoded<D>| #[trigger]
                final(self).decoded_from(*old(self), most as int, result, lz, decoded),
    {
        let mut lz = LZDecoder::new(0, None);
        std::mem::swap(&mut lz, &mut self.lz);
        let mut rc = RangeDecoder::new_buffer(5);
        std::mem::swap(&mut rc, &mut self.rc);
        let mut taken: Option<D> = None;
        std::mem::swap(&mut taken, &mut self.lzma);
        lz.set_limit(most);
        let has_space: bool = lz.has_space();
        let mut result: Result<(), Error> = Ok(());
        let ghost mut given: LZDecoder = lz;
        let ghost mut left: Decoded<D> = arbitrary();
        if let Some(lzma) = taken {
            let decoded = lzma.decode(lz, rc);
            proof {
                given = lz;
                left = decoded;
            }
            self.lzma = Some(decoded.lzma);
            self.lz = decoded.lz;
            self.rc = decoded.rc;
            result = decoded.result;
        }
        // The limit was not for the decoder to change.
        let count: usize = self.lz.unflushed_len();
        let result: Result<(), Error> = match result {
            Err(error) => Err(error),
            Ok(_) => if (count == 0 && has_space) || count > most {
                Err(Error::Other("LZMA decoder ignored its limit"))
            } else {
                Ok(())
            },
        };
        assert(self.decoded_from(*old(self), most as int, result, given, left));
        result
    }

    /// Decodes some more bytes of the current chunk into `buf` from `off` on, and returns how many.
    #[verifier::spinoff_prover]
    #[verifier::rlimit(60)]
    fn read_piece(&mut self, buf: &mut [u8], off: usize) -> (result: Result<usize, Error>)
        requires
            old(self).wf(),
            old(self).uncompressed_size > 0,
            !old(self).end_reached,
            off < old(buf)@.len(),
        ensures
            final(self).inner.errors() == old(self).inner.errors(),
            final(self).error == old(self).error,
            final(self).end_reached == old(self).end_reached,
            final(buf)@.len() == old(buf)@.len(),
            ({
                let want = old(buf)@.len() - off;
                match result {
                    Ok(n) => {
                        &&& final(self).wf()
                        &&& n <= want
                        &&& final(buf)@.take(off as int) == old(buf)@.take(off as int)
                        &&& final(buf)@.skip(off + n) == old(buf)@.skip(off + n)
                        &&& old(self).stage().gives(
                            want,
                            final(buf)@.subrange(off as int, off + n),
                            final(self).stage(),
                        )
                        &&& n == 0 ==> old(self).lz.space() == 0 && final(self).lz.space() > 0
                    },
                    Err(error) => {
                        ||| old(self).inner.errors().contains(error) && !old(self).is_lzma_chunk
                        ||| old(self).stage().fails(want, error)
                    },
                }
            }),
    {
        proof {
            reveal(Stage::gives);
            reveal(Stage::fails);
        }
        let len: usize = buf.len() - off;
        let copy_size_max: usize = if self.uncompressed_size < len {
            self.uncompressed_size
        } else {
            len
        };
        let ghost place = self.place();
        let ghost stage = self.stage();
        let ghost bytes = self.inner.remaining();
        let ghost mut given: LZDecoder = self.lz;
        let ghost mut left: Decoded<D> = arbitrary();
        proof {
            self.lz.lemma_views();
        }
        if !self.is_lzma_chunk {
            match self.lz.copy_uncompressed(&mut self.inner, copy_size_max) {
                Ok(_) => {},
                Err(error) => {
                    return Err(error);
                },
            }
        } else {
            let result = self.decode_lzma(copy_size_max);
            proof {
                let (lz, decoded): (LZDecoder, Decoded<D>) = choose|
                    lz: LZDecoder,
                    decoded: Decoded<D>,
                | #[trigger]
                    self.decoded_from(*old(self), copy_size_max as int, result, lz, decoded);
                given = lz;
                left = decoded;
            }
            if let Err(error) = result {
                assert(stage.fails_in_decoder(len as int, error, given, left));
                return Err(error);
            }
        }
        let ghost before = buf@;
        let ghost piece = self.lz.unflushed();
        proof {
            self.lz.lemma_views();
        }
        let copied_size: usize = self.lz.flush(buf, off);
        self.uncompressed_size -= copied_size;
        if self.uncompressed_size == 0 && (!self.rc.is_finished() || self.lz.has_pending()) {
            proof {
                let error = crate::lzma2_steps::left_over();
                if place.lzma {
                    assert(stage.fails_in_decoder(len as int, error, given, left));
                }
            }
            return Err(Error::InvalidInput("rc not finished or lz has pending"));
        }
        proof {
            let n = copied_size as int;
            self.lz.lemma_views();
            assert(buf@.take(off as int) =~= before.take(off as int));
            assert(buf@.skip(off + n) =~= before.skip(off + n));
            assert(buf@.subrange(off as int, off + n) =~= piece);
            if place.lzma {
                assert(stage.decompresses(len as int, piece, self.stage(), given, left));
            } else {
                assert(piece =~= bytes.take(n));
                assert(stage.copies(len as int, piece, self.stage()));
            }
        }
        Ok(copied_size)
    }

    /// Decodes into `buf` until it is full or the stream ends.
    #[verifier::spinoff_prover]
    #[verifier::rlimit(60)]
    fn read_decode(&mut self, buf: &mut [u8]) -> (result: Result<usize, Error>)
        requires
            old(self).error is None ==> old(self).wf(),
        ensures
            final(self).inner.errors() == old(self).inner.errors(),
            final(self).error == old(self).error,
            final(buf)@.len() == old(buf)@.len(),
            result is Ok && final(self).error is None ==> final(self).wf(),
            old(self).error is None && old(self).end_reached ==> {
                &&& result == Ok::<usize, Error>(0)
                &&& *final(self) == *old(self)
            },
            ({
                let len = old(buf)@.len() as int;
                match result {
                    Ok(n) => {
                        &&& n <= old(buf)@.len()
                        &&& final(buf)@.skip(n as int) == old(buf)@.skip(n as int)
                        &&& old(buf)@.len() == 0 || old(self).error is None
                        &&& old(buf)@.len() == 0 || old(self).end_reached ==> n == 0 && *final(self)
                            == *old(self)
                        &&& n < len ==> final(self).end_reached
                        &&& old(buf)@.len() == 0 || crate::lzma2_steps::leads_to(
                            old(self).stage(),
                            len,
                            final(buf)@.take(n as int),
                            final(self).stage(),
                        )
                    },
                    Err(error) => {
                        &&& old(buf)@.len() > 0
                        &&& match old(self).error {
                            Some(earlier) => {
                                &&& error == earlier
                                &&& *final(self) == *old(self)
                                &&& final(buf)@ == old(buf)@
                            },
                            None => {
                                ||| old(self).inner.errors().contains(error)
                                    && crate::lzma2_steps::leads_to_source(old(self).stage(), len)
                                ||| crate::lzma2_steps::leads_to_failure(
                                    old(self).stage(),
                                    len,
                                    error,
                                )
                            },
                        }
                    },
                }
            }),
    {
        if buf.len() == 0 {
            return Ok(0);
        }
        if let Some(error) = self.error {
            return Err(error);
        }
        proof {
            crate::lzma2_steps::lemma_stays(self.stage(), buf@.len() as int);
        }
        if self.end_reached {
            assert(buf@.take(0) =~= Seq::<u8>::empty());
            return Ok(0);
        }
        let total: usize = buf.len();
        let mut off: usize = 0;
        proof {
            assert(buf@.take(0) =~= Seq::<u8>::empty());
            self.lz.lemma_views();
        }
        while off < total
            invariant
                self.wf(),
                self.error is None,
                self.error == old(self).error,
                !self.end_reached,
                !old(self).end_reached,
                self.inner.errors() == old(self).inner.errors(),
                off <= total,
                total == buf@.len(),
                total == old(buf)@.len(),
                total > 0,
                buf@.skip(off as int) == old(buf)@.skip(off as int),
                crate::lzma2_steps::leads_to(
                    old(self).stage(),
                    total as int,
                    buf@.take(off as int),
                    self.stage(),
                ),
            decreases
                total - off,
                if self.lz.space() == 0 {
                    1int
                } else {
                    0
                },
        {
            let ghost stage = self.stage();
            let ghost out = buf@.take(off as int);
            let ghost before = buf@;
            proof {
                self.lz.lemma_views();
            }
            if self.uncompressed_size == 0 {
                match self.decode_chunk_header() {
                    Ok(_) => {},
                    Err(error) => {
                        return Err(error);
                    },
                }
                proof {
                    assert(out + Seq::<u8>::empty() =~= out);
                    crate::lzma2_steps::lemma_step(
                        old(self).stage(),
                        total as int,
                        out,
                        stage,
                        Seq::empty(),
                        self.stage(),
                    );
                }
                if self.end_reached {
                    return Ok(off);
                }
            }
            let ghost mid = self.stage();
            let copied_size: usize = match self.read_piece(buf, off) {
                Ok(size) => size,
                Err(error) => {
                    return Err(error);
                },
            };
            proof {
                let n = copied_size as int;
                let piece = buf@.subrange(off as int, off + n);
                assert(out + piece =~= buf@.take(off + n));
                crate::lzma2_steps::lemma_step(
                    old(self).stage(),
                    total as int,
                    out,
                    mid,
                    piece,
                    self.stage(),
                );
                assert(buf@.skip(off + n) =~= old(buf)@.skip(off + n)) by {
                    assert(before.skip(off + n) =~= before.skip(off as int).skip(n));
                    assert(old(buf)@.skip(off + n) =~= old(buf)@.skip(off as int).skip(n));
                }
            }
            off += copied_size;
        }
        Ok(off)
    }

    /// Reads decompressed bytes: as many as fit, or all that are left. Once this has failed, it
    /// fails in the same way for ever.
    #[verifier::spinoff_prover]
    #[verifier::rlimit(60)]
    pub fn read(&mut self, buf: &mut [u8]) -> (result: Result<usize, Error>)
        requires
            old(self).failure() is None ==> old(self).wf(),
        ensures
            final(self).source().errors() == old(self).source().errors(),
            final(buf)@.len() == old(buf)@.len(),
            result is Ok ==> final(self).failure() == old(self).failure(),
            final(self).failure() is None ==> final(self).wf(),
            old(self).failure() is None && old(self).place().ended ==> {
                &&& result == Ok::<usize, Error>(0)
                &&& *final(self) == *old(self)
            },
            ({
                let wanted = run(
                    old(self).place(),
                    old(self).source().remaining(),
                    old(buf)@.len() as int,
                );
                match result {
                    Ok(n) => {
                        &&& n <= old(buf)@.len()
                        &&& final(buf)@.skip(n as int) == old(buf)@.skip(n as int)
                        &&& old(buf)@.len() == 0 || old(self).failure() is None
                        &&& old(buf)@.len() == 0 || wanted is Lzma || wanted == (Run::Done {
                            out: final(buf)@.take(n as int),
                            place: final(self).place(),
                            bytes: final(self).source().remaining(),
                        })
                        &&& old(buf)@.len() == 0 || old(self).place().ended ==> n == 0
                            && *final(self) == *old(self)
                        &&& n < old(buf)@.len() ==> final(self).place().ended
                        &&& old(buf)@.len() == 0 || crate::lzma2_steps::leads_to(
                            old(self).stage(),
                            old(buf)@.len() as int,
                            final(buf)@.take(n as int),
                            final(self).stage(),
                        )
                    },
                    Err(error) => {
                        &&& old(buf)@.len() > 0
                        &&& final(self).failure() == Some(error)
                        &&& match old(self).failure() {
                            Some(earlier) => {
                                &&& error == earlier
                                &&& *final(self) == *old(self)
                                &&& final(buf)@ == old(buf)@
                            },
                            None => {
                                ||| old(self).source().errors().contains(error)
                                    && crate::lzma2_steps::leads_to_source(
                                    old(self).stage(),
                                    old(buf)@.len() as int,
                                )
                                ||| (wanted is Lzma || wanted == Run::Fail(error))
                                    && crate::lzma2_steps::leads_to_failure(
                                    old(self).stage(),
                                    old(buf)@.len() as int,
                                    error,
                                )
                            },
                        }
                    },
                }
            }),
    {
        let result = self.read_decode(buf);
        proof {
            let len = old(buf)@.len() as int;
            if old(self).error is None && len > 0 {
                match result {
                    Ok(n) => {
                        crate::lzma2_steps::lemma_run_done(
                            old(self).stage(),
                            len,
                            buf@.take(n as int),
                            self.stage(),
                        );
                    },
                    Err(error) => {
                        if crate::lzma2_steps::leads_to_failure(old(self).stage(), len, error) {
                            crate::lzma2_steps::lemma_run_fails(old(self).stage(), len, error);
                        }
                    },
                }
            }
        }
        match result {
            Ok(size) => Ok(size),
            Err(error) => {
                self.error = Some(error);
                Err(error)
            },
        }
    }
}

/// A stored chunk reads back: from a stream of one such chunk and the end marker a single read gets
/// all the data, and then the stream has ended, with nothing taken from what follows it.
#[verifier::spinoff_prover]
#[verifier::rlimit(60)]
pub proof fn lemma_read_gets_stored_data<R: Read, D: LZMADecoder>(
    reader: &mut LZMA2Reader<R, D>,
    buf: &mut [u8],
    result: Result<usize, Error>,
    data: Seq<u8>,
    rest: Seq<u8>,
)
    requires
        call_ensures(LZMA2Reader::<R, D>::read, (reader, buf), result),
        old(reader).wf(),
        old(reader).failure() is None,
        !old(reader).place().ended,
        old(reader).place().left == 0,
        old(reader).place().clean,
        old(reader).source().errors() == Set::<Error>::empty(),
        1 <= data.len() <= 0x10000,
        data.len() < old(buf)@.len(),
        old(reader).source().remaining() == seq![
            1u8,
            ((data.len() - 1) / 0x100) as u8,
            ((data.len() - 1) % 0x100) as u8,
        ] + data + seq![0u8] + rest,
    ensures
        result == Ok::<usize, Error>(data.len() as usize),
        final(buf)@.take(data.len() as int) == data,
        final(buf)@.skip(data.len() as int) == old(buf)@.skip(data.len() as int),
        final(reader).place().ended,
        final(reader).failure() is None,
        final(reader).source().remaining() == rest,
{
    let place = old(reader).place();
    let want = old(buf)@.len() as int;
    let bytes = old(reader).source().remaining();
    let after = seq![0u8] + rest;
    assert(bytes =~= stored_chunk(1, data) + after);
    lemma_stored_chunk_reads_back(place, 1, data, after, want);
    let inside = Place { needs: needs_after(1, place.needs), lzma: false, ..place };
    lemma_end_marker_ends(inside, rest, want - data.len());
    assert(data + Seq::<u8>::empty() =~= data);
    assert(run(place, bytes, want) is Done);
}

/// An LZMA chunk is read for as many bytes as its head says: when fewer of them have been handed
/// out, the rest is still to come, and a read stops there only because its buffer is full.
#[verifier::spinoff_prover]
#[verifier::rlimit(60)]
pub proof fn lemma_read_goes_through_lzma_chunk<R: Read, D: LZMADecoder>(
    reader: &mut LZMA2Reader<R, D>,
    buf: &mut [u8],
    n: usize,
    level: int,
    size: int,
    lc: u32,
    lp: u32,
    pb: u32,
    data: Seq<u8>,
    rest: Seq<u8>,
)
    requires
        call_ensures(LZMA2Reader::<R, D>::read, (reader, buf), Ok::<usize, Error>(n)),
        old(reader).wf(),
        old(reader).failure() is None,
        !old(reader).place().ended,
        old(reader).place().left == 0,
        0 <= level <= 3,
        1 <= size <= 0x200000,
        5 <= data.len() <= 0x10000,
        data[0] == 0,
        lc + lp <= 4,
        pb <= 4,
        old(reader).place().needs.dict_reset ==> level == 3,
        old(reader).place().needs.props ==> level >= 2,
        old(reader).source().remaining() == seq![
            (0x80 + 0x20 * level + (size - 1) / 0x10000) as u8,
            ((size - 1) / 0x100 % 0x100) as u8,
            ((size - 1) % 0x100) as u8,
            ((data.len() - 1) / 0x100) as u8,
            ((data.len() - 1) % 0x100) as u8,
        ] + (if level >= 2 {
            seq![((pb * 5 + lp) * 9 + lc) as u8]
        } else {
            Seq::<u8>::empty()
        }) + data + rest,
        0 < n < size,
    ensures
        final(reader).place().left == size - n,
        final(reader).place().lzma,
        !final(reader).place().ended,
        final(reader).source().remaining() == rest,
        n == old(buf)@.len(),
{
    old(reader).lemma_stage();
    crate::lzma2_steps::lemma_lzma_chunk_is_read(
        old(reader).stage(),
        level,
        size,
        lc,
        lp,
        pb,
        data,
        rest,
        old(buf)@.len() as int,
        final(buf)@.take(n as int),
        final(reader).stage(),
    );
}

/// A new reader is at the start of its stream, and its dictionary has room for the size that was
/// asked for. It holds the end of the preset dictionary, and without one the stream has to start
/// with a chunk that resets it.
pub proof fn lemma_new_reader<R: Read, D: LZMADecoder>(
    inner: R,
    dict_size: u32,
    preset_dict: Option<&[u8]>,
    reader: LZMA2Reader<R, D>,
)
    requires
        dict_size <= u32::MAX - 15,
        call_ensures(LZMA2Reader::<R, D>::new, (inner, dict_size, preset_dict), reader),
    ensures
        reader.wf(),
        reader.source() == inner,
        reader.place().left == 0,
        !reader.place().ended,
        reader.failure() is None,
        reader.place().needs.props,
        reader.place().needs.dict_reset <==> preset_dict is None || preset_dict->0@.len() == 0,
        reader.stage().lz.capacity() >= dict_size,
        ({
            let dict = reader.stage().lz.dict();
            match preset_dict {
                None => dict.len() == 0,
                Some(preset) => {
                    &&& dict.len() == preset@.len() || dict.len() >= dict_size
                    &&& dict.len() <= preset@.len()
                    &&& dict == preset@.skip(preset@.len() - dict.len())
                },
            }
        }),
{
    reader.lemma_stage();
    if let Some(preset) = preset_dict {
        let dict = reader.stage().lz.dict();
        assert(dict =~= preset@.skip(preset@.len() - dict.len()));
    }
}

/// A reader is accounted with the memory of its dictionary, the 64 KiB for compressed data, and 40
/// KiB more.
pub proof fn lemma_memory_is_accounted(dict_size: u32, kib: u32)
    requires
        dict_size <= u32::MAX - 15,
        call_ensures(get_memory_usage, (dict_size,), kib),
    ensures
        dict_size < 1024 * (kib - 40 - 64) + 1024,
        1024 * (kib - 40 - 64) < dict_size + 16,
{
}

} // verus!
