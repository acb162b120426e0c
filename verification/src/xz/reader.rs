//! What an XZ reader decides, and the parts of the format that lie between blocks and streams.

use vstd::prelude::*;

use super::block::padding_needed;
use super::check::{CheckType, ChecksumCalculator};
use crate::error::Error;
use crate::io::{read_exact, Read};

verus! {

/// A reader that ends after a number of bytes.
pub struct BoundedReader<R> {
    pub inner: R,
    pub position: u64,
    pub limit: u64,
}

impl<R> BoundedReader<R> {
    /// Ends `inner` after `limit` bytes.
    pub fn new(inner: R, limit: u64) -> (reader: Self)
        ensures
            reader.inner == inner,
            reader.position == 0,
            reader.limit == limit,
    {
        BoundedReader { inner, position: 0, limit }
    }

    /// The underlying reader.
    pub fn into_inner(self) -> (inner: R)
        ensures
            inner == self.inner,
    {
        self.inner
    }
}

/// The first `n` bytes, or all of them if they are fewer.
pub open spec fn at_most(bytes: Seq<u8>, n: int) -> Seq<u8> {
    if n <= 0 {
        Seq::empty()
    } else if bytes.len() <= n {
        bytes
    } else {
        bytes.take(n)
    }
}

impl<R: Read> Read for BoundedReader<R> {
    open spec fn remaining(&self) -> Seq<u8> {
        at_most(self.inner.remaining(), self.limit - self.position)
    }

    open spec fn errors(&self) -> Set<Error> {
        self.inner.errors()
    }

    open spec fn eager(&self) -> bool {
        self.inner.eager()
    }

    fn read(&mut self, buf: &mut [u8]) -> (result: Result<usize, Error>)
        ensures
            final(self).limit == old(self).limit,
            match result {
                Ok(n) => final(self).position == old(self).position + n,
                Err(_) => final(self).position == old(self).position,
            },
    {
        if self.position >= self.limit {
            assert(buf@.take(0) + self.remaining() =~= self.remaining());
            return Ok(0);
        }
        let room: u64 = self.limit - self.position;
        let left: usize = if (buf.len() as u64) < room { buf.len() } else { room as usize };
        let ghost all = self.inner.remaining();
        let (part, _) = buf.split_at_mut(left);
        let n: usize = match self.inner.read(part) {
            Ok(n) => n,
            Err(error) => {
                return Err(error);
            },
        };
        self.position = self.position + n as u64;
        proof {
            let got = buf@.take(n as int);
            assert(all == got + self.inner.remaining());
            assert(old(self).remaining() =~= got + self.remaining());
        }
        Ok(n)
    }
}

/// A reader that counts the bytes that pass through it, modulo 2^64.
pub struct SharedReader<R> {
    pub inner: R,
    pub compressed_bytes_read: u64,
}

impl<R> SharedReader<R> {
    /// Goes on counting from `compressed_bytes_read`.
    pub fn new(inner: R, compressed_bytes_read: u64) -> (reader: Self)
        ensures
            reader.inner == inner,
            reader.compressed_bytes_read == compressed_bytes_read,
    {
        SharedReader { inner, compressed_bytes_read }
    }
}

impl<R: Read> Read for SharedReader<R> {
    open spec fn remaining(&self) -> Seq<u8> {
        self.inner.remaining()
    }

    open spec fn errors(&self) -> Set<Error> {
        self.inner.errors()
    }

    open spec fn eager(&self) -> bool {
        self.inner.eager()
    }

    fn read(&mut self, buf: &mut [u8]) -> (result: Result<usize, Error>)
        ensures
            final(self).compressed_bytes_read == match result {
                Ok(n) => old(self).compressed_bytes_read.wrapping_add(n as u64),
                Err(_) => old(self).compressed_bytes_read,
            },
    {
        match self.inner.read(buf) {
            Ok(n) => {
                self.compressed_bytes_read = self.compressed_bytes_read.wrapping_add(n as u64);
                Ok(n)
            },
            Err(error) => Err(error),
        }
    }
}

/// The bytes with which a stream starts: 0xFD, '7', 'z', 'X', 'Z', 0x00.
pub open spec fn stream_magic() -> Seq<u8> {
    seq![0xFDu8, 0x37u8, 0x7Au8, 0x58u8, 0x5Au8, 0x00u8]
}

/// How many zero bytes come first.
pub open spec fn leading_zeros(bytes: Seq<u8>) -> int
    decreases bytes.len(),
{
    if bytes.len() == 0 || bytes[0] != 0 {
        0
    } else {
        1 + leading_zeros(bytes.skip(1))
    }
}

/// What follows a stream: nothing, or another stream behind zero bytes. Gives the number of bytes
/// up to the end of its magic bytes.
pub open spec fn next_stream(bytes: Seq<u8>) -> Result<Option<int>, Error> {
    let padding = leading_zeros(bytes);
    if padding >= bytes.len() {
        Ok(None)
    } else if bytes[padding] != 0xFD {
        Err(Error::InvalidData("invalid data after stream"))
    } else if bytes.len() < padding + 6 {
        Err(Error::InvalidData("incomplete XZ magic bytes"))
    } else if bytes.subrange(padding, padding + 6) != stream_magic() {
        Err(Error::InvalidData("invalid data after stream padding"))
    } else if padding % 4 != 0 {
        Err(Error::InvalidData("stream padding size not multiple of 4"))
    } else {
        Ok(Some(padding + 6))
    }
}

proof fn lemma_leading_zeros(bytes: Seq<u8>, n: int)
    requires
        0 <= n <= bytes.len(),
        forall|i: int| 0 <= i < n ==> bytes[i] == 0,
    ensures
        leading_zeros(bytes) >= n,
        n == bytes.len() || bytes[n] != 0 ==> leading_zeros(bytes) == n,
        leading_zeros(bytes) <= bytes.len(),
    decreases bytes.len(),
{
    if bytes.len() > 0 {
        if n > 0 {
            assert(bytes[0] == 0);
            lemma_leading_zeros(bytes.skip(1), n - 1);
        } else if bytes[0] == 0 {
            lemma_leading_zeros(bytes.skip(1), 0);
        }
    }
}

/// Another stream directly behind a stream, or behind zero bytes in groups of four, is found.
pub proof fn lemma_next_stream_found(groups: int, rest: Seq<u8>)
    requires
        groups >= 0,
    ensures
        next_stream(super::writer::zeros(4 * groups) + stream_magic() + rest) == Ok::<
            Option<int>,
            Error,
        >(Some(4 * groups + 6)),
{
    let n = 4 * groups;
    let bytes = super::writer::zeros(n) + stream_magic() + rest;
    assert(bytes[n] == 0xFD);
    lemma_leading_zeros(bytes, n);
    assert(bytes.subrange(n, n + 6) =~= stream_magic());
}

/// What follows a stream is told by the first byte that is not zero, at `padding`: if there is
/// none, no stream follows, and otherwise one follows if the zeros come in groups of four and the
/// bytes from there on are 0xFD, '7', 'z', 'X', 'Z' and 0. Anything else is refused.
pub proof fn lemma_next_stream_told(bytes: Seq<u8>, padding: int)
    requires
        0 <= padding <= bytes.len(),
        forall|i: int| 0 <= i < padding ==> #[trigger] bytes[i] == 0,
        padding == bytes.len() || bytes[padding] != 0,
    ensures
        next_stream(bytes) == Ok::<Option<int>, Error>(None) <==> padding == bytes.len(),
        next_stream(bytes) == Ok::<Option<int>, Error>(Some(padding + 6)) <==> {
            &&& padding % 4 == 0
            &&& padding + 6 <= bytes.len()
            &&& bytes[padding] == 0xFD
            &&& bytes[padding + 1] == 0x37
            &&& bytes[padding + 2] == 0x7A
            &&& bytes[padding + 3] == 0x58
            &&& bytes[padding + 4] == 0x5A
            &&& bytes[padding + 5] == 0
        },
        next_stream(bytes) is Err || next_stream(bytes) == Ok::<Option<int>, Error>(None)
            || next_stream(bytes) == Ok::<Option<int>, Error>(Some(padding + 6)),
{
    lemma_leading_zeros(bytes, padding);
    if padding + 6 <= bytes.len() {
        let six = bytes.subrange(padding, padding + 6);
        if six == stream_magic() {
            assert(six[0] == 0xFD && six[1] == 0x37 && six[2] == 0x7A && six[3] == 0x58 && six[4]
                == 0x5A && six[5] == 0);
        }
        if six[0] == 0xFD && six[1] == 0x37 && six[2] == 0x7A && six[3] == 0x58 && six[4] == 0x5A
            && six[5] == 0 {
            assert(six =~= stream_magic());
        }
    }
}

/// Looks for the start of the next stream by reading bytes one at a time and checking for the XZ
/// magic sequence, allowing for stream padding.
#[verifier::spinoff_prover]
#[verifier::rlimit(60)]
pub fn try_start_next_stream<R: Read>(reader: &mut R) -> (result: Result<bool, Error>)
    ensures
        final(reader).errors() == old(reader).errors(),
        ({
            let bytes = old(reader).remaining();
            match result {
                Ok(found) => match next_stream(bytes) {
                    Ok(Some(len)) => found && final(reader).remaining() == bytes.skip(len),
                    Ok(None) => !found && final(reader).remaining() == Seq::<u8>::empty(),
                    Err(_) => false,
                },
                Err(error) => old(reader).errors().contains(error) || next_stream(bytes) == Err::<
                    Option<int>,
                    Error,
                >(error),
            }
        }),
{
    let ghost bytes = reader.remaining();
    let ghost mut padding: int = 0;
    let mut padding_rest: u8 = 0;
    assert(bytes.skip(0) =~= bytes);
    loop
        invariant
            bytes == old(reader).remaining(),
            reader.errors() == old(reader).errors(),
            0 <= padding <= bytes.len(),
            padding_rest == padding % 4,
            reader.remaining() == bytes.skip(padding),
            forall|i: int| 0 <= i < padding ==> bytes[i] == 0,
        decreases bytes.len() - padding,
    {
        let first: Option<u8> = match read_one(reader) {
            Ok(first) => first,
            Err(error) => {
                return Err(error);
            },
        };
        let byte: u8 = match first {
            None => {
                // No more streams.
                proof {
                    lemma_leading_zeros(bytes, padding);
                    assert(reader.remaining() =~= Seq::<u8>::empty());
                }
                return Ok(false);
            },
            Some(byte) => byte,
        };
        if byte == 0 {
            // Potential stream padding.
            proof {
                assert(bytes.skip(padding).skip(1) =~= bytes.skip(padding + 1));
                padding = padding + 1;
            }
            padding_rest = (padding_rest + 1) % 4;
            continue;
        }
        proof {
            lemma_leading_zeros(bytes, padding);
        }
        // A byte that is not zero has to start the magic bytes.
        if byte != 0xFD {
            return Err(Error::InvalidData("invalid data after stream"));
        }
        let mut magic: [u8; 6] = [0xFD, 0, 0, 0, 0, 0];
        let mut pos: usize = 1;
        // Read the rest of the magic bytes.
        while pos < 6
            invariant
                1 <= pos <= 6,
                bytes == old(reader).remaining(),
                reader.errors() == old(reader).errors(),
                padding + pos <= bytes.len(),
                0 <= padding,
                leading_zeros(bytes) == padding,
                bytes[padding] == 0xFD,
                reader.remaining() == bytes.skip(padding + pos),
                forall|i: int| 0 <= i < pos ==> magic@[i] == bytes[padding + i],
            decreases 6 - pos,
        {
            match read_one(reader) {
                Ok(Some(byte)) => {
                    magic[pos] = byte;
                    assert(bytes.skip(padding + pos).skip(1) =~= bytes.skip(padding + pos + 1));
                    pos += 1;
                },
                Ok(None) => {
                    return Err(Error::InvalidData("incomplete XZ magic bytes"));
                },
                Err(error) => {
                    return Err(error);
                },
            }
        }
        assert(magic@ =~= bytes.subrange(padding, padding + 6));
        if magic[1] != 0x37 || magic[2] != 0x7A || magic[3] != 0x58 || magic[4] != 0x5A
            || magic[5] != 0x00 {
            return Err(Error::InvalidData("invalid data after stream padding"));
        }
        assert(magic@ =~= stream_magic());
        if padding_rest != 0 {
            return Err(Error::InvalidData("stream padding size not multiple of 4"));
        }
        return Ok(true);
    }
}

/// Reads one byte, or none at the end.
fn read_one<R: Read>(reader: &mut R) -> (result: Result<Option<u8>, Error>)
    ensures
        final(reader).errors() == old(reader).errors(),
        match result {
            Ok(Some(byte)) => {
                &&& old(reader).remaining().len() > 0
                &&& byte == old(reader).remaining()[0]
                &&& final(reader).remaining() == old(reader).remaining().skip(1)
            },
            Ok(None) => {
                &&& old(reader).remaining().len() == 0
                &&& final(reader).remaining() == old(reader).remaining()
            },
            Err(error) => old(reader).errors().contains(error),
        },
{
    let mut buf: [u8; 1] = [0; 1];
    match reader.read(&mut buf) {
        Ok(0) => {
            assert(reader.remaining() =~= old(reader).remaining());
            Ok(None)
        },
        Ok(_) => {
            proof {
                let all = old(reader).remaining();
                assert(all =~= buf@.take(1) + reader.remaining());
                assert(reader.remaining() =~= all.skip(1));
            }
            Ok(Some(buf[0]))
        },
        Err(error) => Err(error),
    }
}

/// Whether the padding that was read is what it should be: all of it, and zero.
pub fn check_padding(padding: &[u8], needed: usize, bytes_read: usize) -> (result: Result<
    (),
    Error,
>)
    requires
        bytes_read <= padding@.len(),
    ensures
        result == if bytes_read != needed {
            Err::<(), Error>(Error::InvalidData("incomplete XZ block padding"))
        } else if exists|i: int| 0 <= i < bytes_read && padding@[i] != 0 {
            Err(Error::InvalidData("invalid XZ block padding"))
        } else {
            Ok(())
        },
{
    if bytes_read != needed {
        return Err(Error::InvalidData("incomplete XZ block padding"));
    }
    let mut i: usize = 0;
    while i < bytes_read
        invariant
            i <= bytes_read,
            bytes_read <= padding@.len(),
            bytes_read == needed,
            forall|j: int| 0 <= j < i ==> padding@[j] == 0,
        decreases bytes_read - i,
    {
        if padding[i] != 0 {
            return Err(Error::InvalidData("invalid XZ block padding"));
        }
        i += 1;
    }
    Ok(())
}

/// Whether the bytes start with the padding that is needed.
pub open spec fn padding_result(bytes: Seq<u8>, needed: int) -> Result<(), Error> {
    if bytes.len() < needed {
        Err(Error::InvalidData("incomplete XZ block padding"))
    } else if exists|i: int| 0 <= i < needed && bytes[i] != 0 {
        Err(Error::InvalidData("invalid XZ block padding"))
    } else {
        Ok(())
    }
}

/// What a writer puts behind `size` bytes of a block is what a reader expects there: `needed` zeros
/// up to a multiple of four, and then the checksum of the data.
pub proof fn lemma_tail_is_accepted(
    check_type: CheckType,
    data: Seq<u8>,
    size: int,
    needed: int,
    rest: Seq<u8>,
)
    requires
        size >= 0,
        0 <= needed < 4,
        (size + needed) % 4 == 0,
        check_type == CheckType::Sha256 ==> super::check::sha256_of(data).len() == 32,
    ensures
        ({
            let tail = super::writer::zeros(super::block::padding_for(size)) + check_type.checksum(
                data,
            );
            &&& super::block::padding_for(size) == needed
            &&& tail.len() == needed + check_type.size()
            &&& forall|i: int| 0 <= i < needed ==> #[trigger] tail[i] == 0
            &&& padding_result(tail + rest, needed) == Ok::<(), Error>(())
            &&& (tail + rest).skip(needed).take(check_type.size()) == check_type.checksum(data)
            &&& (tail + rest).skip(needed + check_type.size()) == rest
        }),
{
    CheckType::lemma_checksum_is_of_all_data(data);
    let sum = check_type.checksum(data);
    let tail = super::writer::zeros(super::block::padding_for(size)) + sum;
    assert(sum.len() == check_type.size());
    assert((tail + rest).skip(needed).take(check_type.size()) =~= sum);
    assert((tail + rest).skip(needed + check_type.size()) =~= rest);
}

/// Reads the padding that follows the data of a block, when `compressed_bytes_read` bytes have
/// been read so far. It is read at once, so that a reader which gives fewer bytes than it has can
/// make this fail.
#[verifier::spinoff_prover]
#[verifier::rlimit(60)]
pub fn consume_padding<R: Read>(reader: &mut R, compressed_bytes_read: u64) -> (result: Result<
    (),
    Error,
>)
    ensures
        final(reader).errors() == old(reader).errors(),
        ({
            let needed = super::block::padding_for(compressed_bytes_read as int);
            let bytes = old(reader).remaining();
            &&& needed == 0 ==> result is Ok && *final(reader) == *old(reader)
            &&& match result {
                Ok(_) => {
                    &&& needed <= bytes.len()
                    &&& forall|i: int| 0 <= i < needed ==> bytes[i] == 0
                    &&& final(reader).remaining() == bytes.skip(needed)
                },
                Err(error) => old(reader).errors().contains(error) || {
                    ||| error == Error::InvalidData("incomplete XZ block padding")
                    ||| error == Error::InvalidData("invalid XZ block padding") && needed
                        <= bytes.len() && exists|i: int| 0 <= i < needed && bytes[i] != 0
                },
            }
            &&& old(reader).eager() ==> {
                ||| result == padding_result(bytes, needed)
                ||| result matches Err(error) && old(reader).errors().contains(error)
            }
        }),
{
    let needed: usize = padding_needed(compressed_bytes_read);
    if needed == 0 {
        assert(reader.remaining().skip(0) =~= reader.remaining());
        return Ok(());
    }
    let mut padding: Vec<u8> = vec![0u8; needed];
    let bytes_read: usize = match reader.read(padding.as_mut_slice()) {
        Ok(n) => n,
        Err(error) => {
            return Err(error);
        },
    };
    let result = check_padding(padding.as_slice(), needed, bytes_read);
    proof {
        let bytes = old(reader).remaining();
        assert(bytes == padding@.take(bytes_read as int) + reader.remaining());
        if bytes_read == needed {
            assert(forall|i: int| 0 <= i < needed ==> bytes[i] == padding@[i]);
            if exists|i: int| 0 <= i < bytes_read && padding@[i] != 0 {
                let i = choose|i: int| 0 <= i < bytes_read && padding@[i] != 0;
                assert(bytes[i] != 0);
            }
            assert(reader.remaining() =~= bytes.skip(needed as int));
        }
    }
    result
}

/// What an XZ reader does next.
#[derive(Debug, Clone, Copy, PartialEq, Eq, Structural)]
pub enum ReadStep {
    /// Parse the stream header.
    StreamHeader,
    /// Read data of the current block.
    BlockData,
    /// Parse the next block header, or the index if there is none.
    BlockHeader,
    /// Nothing: all streams have been read.
    Done,
}

/// What an XZ reader does after a stream.
#[derive(Debug, Clone, Copy, PartialEq, Eq, Structural)]
pub enum AfterStream {
    /// Look for another stream.
    TryNextStream,
    /// Nothing: all streams have been read.
    Done,
}

/// The state of a single-threaded XZ decompressor.
pub struct XZReader {
    stream_header: Option<CheckType>,
    checksum_calculator: Option<ChecksumCalculator>,
    finished: bool,
    allow_multiple_streams: bool,
    blocks_processed: u64,
    intact: Ghost<Seq<Seq<u8>>>,
    unverified: Ghost<Seq<u8>>,
    output: Ghost<Seq<u8>>,
    corrupt: Ghost<bool>,
}

impl XZReader {
    /// The blocks that have been read to their end, with the right checksum.
    pub closed spec fn intact_blocks(&self) -> Seq<Seq<u8>> {
        self.intact@
    }

    /// The bytes of the current block that have been read.
    pub closed spec fn current_block(&self) -> Seq<u8> {
        self.unverified@
    }

    /// All bytes that were read from blocks.
    pub closed spec fn all_output(&self) -> Seq<u8> {
        self.output@
    }

    /// A block had a wrong checksum, or none at all.
    pub closed spec fn is_corrupt(&self) -> bool {
        self.corrupt@
    }

    /// The checksum type of the current stream.
    pub closed spec fn stream(&self) -> Option<CheckType> {
        self.stream_header
    }

    /// The bytes of the current block that have been read.
    pub closed spec fn block(&self) -> Option<ChecksumCalculator> {
        self.checksum_calculator
    }

    /// Whether all streams have been read.
    pub closed spec fn is_finished(&self) -> bool {
        self.finished
    }

    /// Whether more than one stream is read.
    pub closed spec fn multiple(&self) -> bool {
        self.allow_multiple_streams
    }

    /// How many blocks of the current stream have been started.
    pub closed spec fn blocks(&self) -> int {
        self.blocks_processed as int
    }

    /// There are blocks only in a stream, and they have its checksum type. As long as all
    /// checksums are right, no byte is lost, made up or moved: the blocks make up the output.
    pub open spec fn wf(&self) -> bool {
        &&& self.block() matches Some(calculator) ==> self.stream() == Some(calculator.kind())
        &&& !self.is_corrupt() ==> {
            &&& crate::mt::splitter::joined(self.intact_blocks()) + self.current_block()
                == self.all_output()
            &&& match self.block() {
                Some(calculator) => calculator.kind() != CheckType::NoCheck ==> calculator.bytes()
                    == self.current_block(),
                None => self.current_block().len() == 0,
            }
        }
    }

    /// The blocks and the output are the same.
    pub open spec fn same_data(&self, other: &Self) -> bool {
        &&& self.intact_blocks() == other.intact_blocks()
        &&& self.current_block() == other.current_block()
        &&& self.all_output() == other.all_output()
        &&& self.is_corrupt() == other.is_corrupt()
    }

    /// Create a new [`XZReader`].
    pub fn new(allow_multiple_streams: bool) -> (reader: Self)
        ensures
            reader.wf(),
            reader.stream() is None,
            reader.block() is None,
            !reader.is_finished(),
            reader.multiple() == allow_multiple_streams,
            reader.blocks() == 0,
            reader.intact_blocks() == Seq::<Seq<u8>>::empty(),
            reader.current_block() == Seq::<u8>::empty(),
            reader.all_output() == Seq::<u8>::empty(),
            !reader.is_corrupt(),
    {
        let reader = XZReader {
            stream_header: None,
            checksum_calculator: None,
            finished: false,
            allow_multiple_streams,
            blocks_processed: 0,
            intact: Ghost(Seq::empty()),
            unverified: Ghost(Seq::empty()),
            output: Ghost(Seq::empty()),
            corrupt: Ghost(false),
        };
        assert(crate::mt::splitter::joined(reader.intact_blocks()) + reader.current_block()
            =~= Seq::<u8>::empty());
        reader
    }

    /// Decides what to do next.
    pub fn next_step(&self) -> (step: ReadStep)
        ensures
            step == if self.is_finished() {
                ReadStep::Done
            } else if self.stream() is None {
                ReadStep::StreamHeader
            } else if self.block() is Some {
                ReadStep::BlockData
            } else {
                ReadStep::BlockHeader
            },
    {
        if self.finished {
            ReadStep::Done
        } else if self.stream_header.is_none() {
            ReadStep::StreamHeader
        } else if self.checksum_calculator.is_some() {
            ReadStep::BlockData
        } else {
            ReadStep::BlockHeader
        }
    }

    /// The first stream header has been parsed.
    pub fn stream_header_read(&mut self, check_type: CheckType)
        requires
            old(self).wf(),
            old(self).block() is None,
        ensures
            final(self).wf(),
            final(self).stream() == Some(check_type),
            final(self).block() == old(self).block(),
            final(self).is_finished() == old(self).is_finished(),
            final(self).multiple() == old(self).multiple(),
            final(self).blocks() == old(self).blocks(),
            final(self).same_data(old(self)),
    {
        self.stream_header = Some(check_type);
    }

    /// A block header has been parsed: a block starts.
    pub fn block_header_read(&mut self)
        requires
            old(self).wf(),
            old(self).stream() is Some,
            old(self).block() is None,
            old(self).blocks() < u64::MAX,
        ensures
            final(self).wf(),
            final(self).stream() == old(self).stream(),
            final(self).block() matches Some(calculator) && {
                &&& Some(calculator.kind()) == old(self).stream()
                &&& calculator.bytes() == Seq::<u8>::empty()
            },
            final(self).is_finished() == old(self).is_finished(),
            final(self).multiple() == old(self).multiple(),
            final(self).blocks() == old(self).blocks() + 1,
            final(self).same_data(old(self)),
    {
        assert(!self.is_corrupt() ==> self.current_block() =~= Seq::<u8>::empty());
        if let Some(check_type) = self.stream_header {
            self.checksum_calculator = Some(ChecksumCalculator::new(check_type));
        }
        self.blocks_processed = self.blocks_processed + 1;
    }

    /// Data of the current block has been read. Returns whether there was any; if not, the block
    /// has ended, and its padding and checksum follow.
    pub fn block_data_read(&mut self, bytes: &[u8]) -> (any: bool)
        requires
            old(self).wf(),
            old(self).block() is Some,
        ensures
            final(self).wf(),
            any == (bytes@.len() > 0),
            final(self).stream() == old(self).stream(),
            final(self).block() matches Some(calculator) && {
                &&& calculator.kind() == old(self).block()->0.kind()
                &&& calculator.kind() != CheckType::NoCheck ==> calculator.bytes()
                    == old(self).block()->0.bytes() + bytes@
            },
            final(self).is_finished() == old(self).is_finished(),
            final(self).multiple() == old(self).multiple(),
            final(self).blocks() == old(self).blocks(),
            final(self).intact_blocks() == old(self).intact_blocks(),
            final(self).current_block() == old(self).current_block() + bytes@,
            final(self).all_output() == old(self).all_output() + bytes@,
            final(self).is_corrupt() == old(self).is_corrupt(),
    {
        proof {
            let head = crate::mt::splitter::joined(self.intact@);
            assert(head + (self.unverified@ + bytes@) =~= (head + self.unverified@) + bytes@);
            self.unverified@ = self.unverified@ + bytes@;
            self.output@ = self.output@ + bytes@;
        }
        if bytes.len() > 0 {
            if let Some(calculator) = &mut self.checksum_calculator {
                calculator.update(bytes);
            }
            true
        } else {
            proof {
                assert(old(self).block()->0.bytes() + bytes@ =~= old(self).block()->0.bytes());
                assert(old(self).unverified@ + bytes@ =~= old(self).unverified@);
            }
            false
        }
    }

    /// Reads the checksum of the current block and compares it with that of the bytes that were
    /// read. The block is over in any case.
    #[verifier::spinoff_prover]
    #[verifier::rlimit(60)]
    pub fn verify_block_checksum<R: Read>(&mut self, reader: &mut R) -> (result: Result<(), Error>)
        requires
            old(self).wf(),
            old(self).block() is Some,
        ensures
            final(self).wf(),
            final(self).stream() == old(self).stream(),
            final(self).block() is None,
            final(self).is_finished() == old(self).is_finished(),
            final(self).multiple() == old(self).multiple(),
            final(self).blocks() == old(self).blocks(),
            final(self).all_output() == old(self).all_output(),
            final(self).intact_blocks() == if result is Ok {
                old(self).intact_blocks().push(old(self).current_block())
            } else {
                old(self).intact_blocks()
            },
            final(self).current_block() == if result is Ok {
                Seq::<u8>::empty()
            } else {
                old(self).current_block()
            },
            final(self).is_corrupt() == (old(self).is_corrupt() || result is Err),
            final(reader).errors() == old(reader).errors(),
            ({
                let calculator = old(self).block()->0;
                let size = calculator.kind().size();
                let expected = calculator.kind().checksum(calculator.bytes());
                let bytes = old(reader).remaining();
                match result {
                    Ok(_) => {
                        &&& size <= bytes.len()
                        &&& bytes.take(size) == expected
                        &&& final(reader).remaining() == bytes.skip(size)
                    },
                    Err(error) => {
                        &&& calculator.kind() != CheckType::NoCheck
                        &&& old(reader).errors().contains(error) || if bytes.len() < size {
                            error == Error::Eof
                        } else {
                            &&& error == Error::InvalidData("invalid block checksum")
                            &&& bytes.take(size) != expected
                        }
                    },
                }
            }),
    {
        let ghost bytes = reader.remaining();
        let mut taken: Option<ChecksumCalculator> = None;
        std::mem::swap(&mut taken, &mut self.checksum_calculator);
        if let Some(calculator) = taken {
            let size: usize = calculator.check_type().checksum_size() as usize;
            if size == 0 {
                assert(bytes.skip(0) =~= bytes);
                assert(bytes.take(0) =~= Seq::<u8>::empty());
            } else {
                let mut checksum: Vec<u8> = vec![0u8; size];
                match read_exact(reader, checksum.as_mut_slice()) {
                    Ok(_) => {},
                    Err(error) => {
                        proof {
                            self.corrupt@ = true;
                        }
                        return Err(error);
                    },
                }
                if !calculator.verify(checksum.as_slice()) {
                    proof {
                        self.corrupt@ = true;
                    }
                    return Err(Error::InvalidData("invalid block checksum"));
                }
            }
        }
        proof {
            self.intact@ = self.intact@.push(self.unverified@);
            self.unverified@ = Seq::empty();
            assert(self.intact@.drop_last() =~= old(self).intact@);
            assert(crate::mt::splitter::joined(self.intact@) + Seq::<u8>::empty()
                =~= crate::mt::splitter::joined(old(self).intact@) + old(self).unverified@);
        }
        Ok(())
    }

    /// The index of the stream has been parsed. It has to have a record for each block.
    pub fn index_read(&self, number_of_records: u64) -> (result: Result<(), Error>)
        ensures
            result == if number_of_records != self.blocks() {
                Err::<(), Error>(
                    Error::InvalidData("number of blocks processed doesn't match index records"),
                )
            } else {
                Ok(())
            },
    {
        if number_of_records != self.blocks_processed {
            return Err(
                Error::InvalidData("number of blocks processed doesn't match index records"),
            );
        }
        Ok(())
    }

    /// The footer of the stream has been parsed. Its flags have to be those of the header: zero,
    /// and the checksum type.
    pub fn footer_read(&self, flags_first: u8, flags_second: u8) -> (result: Result<(), Error>)
        requires
            self.stream() is Some,
        ensures
            result == if flags_first == 0 && flags_second == self.stream()->0.number() {
                Ok::<(), Error>(())
            } else {
                Err(Error::InvalidData("stream header and footer flags mismatch"))
            },
    {
        if let Some(check_type) = self.stream_header {
            if flags_first == 0 && flags_second == check_type.to_byte() {
                return Ok(());
            }
        }
        Err(Error::InvalidData("stream header and footer flags mismatch"))
    }

    /// Decides what to do after a stream. Without another stream to look for, reading is over.
    pub fn stream_ended(&mut self) -> (next: AfterStream)
        requires
            old(self).wf(),
        ensures
            final(self).wf(),
            final(self).stream() == old(self).stream(),
            final(self).block() == old(self).block(),
            final(self).multiple() == old(self).multiple(),
            final(self).blocks() == old(self).blocks(),
            next == if old(self).multiple() {
                AfterStream::TryNextStream
            } else {
                AfterStream::Done
            },
            final(self).is_finished() == (old(self).is_finished() || !old(self).multiple()),
            final(self).same_data(old(self)),
    {
        if self.allow_multiple_streams {
            AfterStream::TryNextStream
        } else {
            self.finished = true;
            AfterStream::Done
        }
    }

    /// Another stream has been found, or not: `check_type` is that of its header.
    pub fn next_stream_read(&mut self, check_type: Option<CheckType>)
        requires
            old(self).wf(),
            old(self).block() is None,
        ensures
            final(self).wf(),
            final(self).block() is None,
            final(self).multiple() == old(self).multiple(),
            final(self).same_data(old(self)),
            match check_type {
                Some(check_type) => {
                    &&& final(self).stream() == Some(check_type)
                    &&& final(self).blocks() == 0
                    &&& final(self).is_finished() == old(self).is_finished()
                },
                None => {
                    &&& final(self).stream() == old(self).stream()
                    &&& final(self).blocks() == old(self).blocks()
                    &&& final(self).is_finished()
                },
            },
    {
        match check_type {
            Some(check_type) => {
                self.stream_header = Some(check_type);
                self.blocks_processed = 0;
            },
            None => {
                self.finished = true;
            },
        }
    }

    /// Between two blocks, as long as all checksums were right, the blocks that were read make up
    /// the output.
    pub proof fn lemma_blocks_make_up_output(&self)
        requires
            self.wf(),
            self.block() is None,
            !self.is_corrupt(),
        ensures
            crate::mt::splitter::joined(self.intact_blocks()) == self.all_output(),
    {
        assert(self.current_block() =~= Seq::<u8>::empty());
        assert(crate::mt::splitter::joined(self.intact_blocks()) + Seq::<u8>::empty()
            =~= crate::mt::splitter::joined(self.intact_blocks()));
    }

    /// A reader that has read the blocks that a writer wrote has read what was written.
    pub proof fn lemma_reads_back(&self, writer: &super::writer::XZWriter)
        requires
            self.wf(),
            self.block() is None,
            !self.is_corrupt(),
            writer.wf(),
            writer.current_block().len() == 0,
            self.intact_blocks() == writer.finished_blocks(),
        ensures
            self.all_output() == writer.all_input(),
    {
        self.lemma_blocks_make_up_output();
        writer.lemma_blocks_make_up_input();
    }
}

/// A reader accepts the padding and the checksum that a writer puts behind a block, whatever the
/// block holds and however long it is, if it has read the same bytes.
#[verifier::spinoff_prover]
#[verifier::rlimit(60)]
pub proof fn lemma_reader_accepts_checksum<R: Read>(
    reader: &mut XZReader,
    source: &mut R,
    result: Result<(), Error>,
)
    requires
        old(reader).wf(),
        old(reader).block() is Some,
        call_ensures(XZReader::verify_block_checksum::<R>, (reader, source), result),
        old(source).errors() == Set::<Error>::empty(),
    ensures
        ({
            let calculator = old(reader).block()->0;
            let data = calculator.bytes();
            let b = old(source).remaining();
            let low = b[0] + 0x100 * b[1] + 0x10000 * b[2] + 0x1000000 * b[3];
            let high = b[4] + 0x100 * b[5] + 0x10000 * b[6] + 0x1000000 * b[7];
            match calculator.kind() {
                CheckType::NoCheck => result is Ok && final(source).remaining() == b,
                CheckType::Crc32 => {
                    &&& result is Ok <==> b.len() >= 4 && low == super::check::crc32_of(data)
                    &&& result is Ok ==> final(source).remaining() == b.skip(4)
                },
                CheckType::Crc64 => {
                    &&& result is Ok <==> b.len() >= 8 && low + 0x1_0000_0000 * high
                        == super::check::crc64_of(data)
                    &&& result is Ok ==> final(source).remaining() == b.skip(8)
                },
                CheckType::Sha256 => {
                    &&& result is Ok ==> {
                        &&& b.len() >= 32
                        &&& b.take(32) == super::check::sha256_of(data)
                        &&& final(source).remaining() == b.skip(32)
                    }
                    &&& b.len() >= 32 && b.take(32) == super::check::sha256_of(data) ==> result
                        is Ok
                },
            }
        }),
{
    let calculator = old(reader).block()->0;
    let data = calculator.bytes();
    let b = old(source).remaining();
    CheckType::lemma_checksum_is_of_all_data(data);
    match calculator.kind() {
        CheckType::NoCheck => {
            assert(b.skip(0) =~= b);
        },
        CheckType::Crc32 => {
            let sum = CheckType::Crc32.checksum(data);
            if b.len() >= 4 && super::check::is_crc32(b.take(4), super::check::crc32_of(data)) {
                super::check::lemma_same_four_bytes(b.take(4), sum, super::check::crc32_of(data));
            }
        },
        CheckType::Crc64 => {
            let sum = CheckType::Crc64.checksum(data);
            if b.len() >= 8 && super::check::is_crc64(b.take(8), super::check::crc64_of(data)) {
                super::check::lemma_same_eight_bytes(b.take(8), sum, super::check::crc64_of(data));
            }
        },
        CheckType::Sha256 => {},
    }
}

/// Looking for another stream finds it behind any number of groups of four zeros, and takes just
/// these and its magic bytes from the source. Without it, and without anything but zeros, there is
/// none.
pub proof fn lemma_next_stream_is_found<R: Read>(
    source: &mut R,
    result: Result<bool, Error>,
    padding: int,
)
    requires
        call_ensures(try_start_next_stream::<R>, (source,), result),
        old(source).errors() == Set::<Error>::empty(),
        0 <= padding <= old(source).remaining().len(),
        forall|i: int| 0 <= i < padding ==> #[trigger] old(source).remaining()[i] == 0,
        padding == old(source).remaining().len() || old(source).remaining()[padding] != 0,
    ensures
        ({
            let bytes = old(source).remaining();
            &&& result == Ok::<bool, Error>(false) <==> padding == bytes.len()
            &&& result == Ok::<bool, Error>(true) <==> {
                &&& padding % 4 == 0
                &&& padding + 6 <= bytes.len()
                &&& bytes[padding] == 0xFD
                &&& bytes[padding + 1] == 0x37
                &&& bytes[padding + 2] == 0x7A
                &&& bytes[padding + 3] == 0x58
                &&& bytes[padding + 4] == 0x5A
                &&& bytes[padding + 5] == 0
            }
            &&& result == Ok::<bool, Error>(true) ==> final(source).remaining() == bytes.skip(
                padding + 6,
            )
        }),
{
    lemma_next_stream_told(old(source).remaining(), padding);
}

/// The padding of a block is accepted just if it is all zeros up to a multiple of four, and no more
/// than that is taken from the source.
pub proof fn lemma_padding_is_consumed<R: Read>(
    source: &mut R,
    size: u64,
    result: Result<(), Error>,
    needed: int,
)
    requires
        call_ensures(consume_padding::<R>, (source, size), result),
        old(source).errors() == Set::<Error>::empty(),
        old(source).eager(),
        0 <= needed < 4,
        (size + needed) % 4 == 0,
    ensures
        result is Ok <==> needed <= old(source).remaining().len() && forall|i: int|
            0 <= i < needed ==> old(source).remaining()[i] == 0,
        result is Ok ==> final(source).remaining() == old(source).remaining().skip(needed),
{
    assert(super::block::padding_for(size as int) == needed);
    assert(old(source).remaining().skip(0) =~= old(source).remaining());
}

/// The blocks of a stream are counted one by one, and its index has to have just as many records.
pub proof fn lemma_index_counts_blocks(
    reader: &mut XZReader,
    number_of_records: u64,
    result: Result<(), Error>,
)
    requires
        old(reader).wf(),
        old(reader).stream() is Some,
        old(reader).block() is None,
        call_ensures(XZReader::block_header_read, (reader,), ()),
        call_ensures(XZReader::index_read, (final(reader), number_of_records), result),
    ensures
        result is Ok <==> number_of_records == old(reader).blocks() + 1,
{
}

/// The flags of the footer have to be zero and the number of the checksum type of the stream.
pub proof fn lemma_footer_repeats_header(
    reader: &XZReader,
    first: u8,
    second: u8,
    result: Result<(), Error>,
)
    requires
        reader.stream() is Some,
        call_ensures(XZReader::footer_read, (reader, first, second), result),
    ensures
        result is Ok <==> first == 0 && second == match reader.stream()->0 {
            CheckType::NoCheck => 0x00u8,
            CheckType::Crc32 => 0x01u8,
            CheckType::Crc64 => 0x04u8,
            CheckType::Sha256 => 0x0Au8,
        },
{
}

/// All the data of a block that is read counts for its checksum, and for the output.
pub proof fn lemma_block_data_is_kept(reader: &mut XZReader, bytes: &[u8], any: bool)
    requires
        old(reader).wf(),
        old(reader).block() is Some,
        call_ensures(XZReader::block_data_read, (reader, bytes), any),
    ensures
        any <==> bytes@.len() > 0,
        final(reader).all_output() == old(reader).all_output() + bytes@,
        final(reader).current_block() == old(reader).current_block() + bytes@,
        final(reader).block() is Some,
        final(reader).block()->0.kind() == old(reader).block()->0.kind(),
        old(reader).block()->0.kind() != CheckType::NoCheck ==> final(reader).block()->0.bytes()
            == old(reader).block()->0.bytes() + bytes@,
{
}

} // verus!
