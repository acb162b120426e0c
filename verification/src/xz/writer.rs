//! What an XZ writer decides: when to start and finish blocks, and what follows their data.

use vstd::prelude::*;

use super::block::{padding_needed, IndexRecord};
use super::check::{CheckType, ChecksumCalculator};
use super::filter::{FilterConfig, FilterStage, FilterType};
use super::options::{XZOptions, PRE_FILTERS_MAX};
use crate::error::Error;
use crate::options::clamp_size;

verus! {

/// What has to be done next to write some bytes.
#[derive(Debug, Clone, Copy, PartialEq, Eq, Structural)]
pub enum WriteStep {
    /// Write the stream header.
    StreamHeader,
    /// Finish the current block.
    FinishBlock,
    /// Write a block header and set up the filter chain, then hand this many bytes to it.
    PrepareBlock(usize),
    /// Hand this many bytes to the filter chain.
    Write(usize),
    /// All bytes have been written.
    Done,
}

/// What has to be done next to finish the stream.
#[derive(Debug, Clone, Copy, PartialEq, Eq, Structural)]
pub enum FinishStep {
    /// Write the stream header.
    StreamHeader,
    /// Finish the current block.
    FinishBlock,
    /// Write the index and the stream footer.
    IndexAndFooter,
    /// Nothing: the stream is finished.
    Done,
}

/// The filters of a chain: those that were chosen, and LZMA2.
pub open spec fn full_chain(filters: Seq<FilterConfig>) -> Seq<FilterConfig> {
    filters.push(FilterConfig { filter_type: FilterType::LZMA2, property: 0 })
}

/// `n` zero bytes.
pub open spec fn zeros(n: int) -> Seq<u8> {
    Seq::new(n as nat, |i: int| 0u8)
}

/// The state of a single-threaded XZ compressor.
pub struct XZWriter {
    options: XZOptions,
    index_records: Vec<IndexRecord>,
    block_uncompressed_size: u64,
    checksum_calculator: ChecksumCalculator,
    header_written: bool,
    finished: bool,
    total_uncompressed_pos: u64,
    current_block_start_pos: u64,
    current_block_header_size: u64,
    block: Ghost<Seq<u8>>,
    blocks: Ghost<Seq<Seq<u8>>>,
    input: Ghost<Seq<u8>>,
}

impl XZWriter {
    /// The options, with the whole filter chain.
    pub closed spec fn settings(&self) -> XZOptions {
        self.options
    }

    /// The bytes of the current block.
    pub closed spec fn current_block(&self) -> Seq<u8> {
        self.block@
    }

    /// The bytes of each finished block.
    pub closed spec fn finished_blocks(&self) -> Seq<Seq<u8>> {
        self.blocks@
    }

    /// The records of the finished blocks.
    pub closed spec fn index(&self) -> Seq<IndexRecord> {
        self.index_records@
    }

    /// All bytes that were ever written.
    pub closed spec fn all_input(&self) -> Seq<u8> {
        self.input@
    }

    /// Whether the stream header has been written.
    pub closed spec fn has_header(&self) -> bool {
        self.header_written
    }

    /// Whether the stream has been finished.
    pub closed spec fn is_finished(&self) -> bool {
        self.finished
    }

    /// How many bytes had been put out when the data of the current block began.
    pub closed spec fn block_start(&self) -> int {
        self.current_block_start_pos as int
    }

    /// The size of the header of the current block.
    pub closed spec fn block_header_size(&self) -> int {
        self.current_block_header_size as int
    }

    /// The counters and the checksum are those of the bytes.
    pub closed spec fn in_step(&self) -> bool {
        &&& self.block_uncompressed_size == self.block@.len()
        &&& self.total_uncompressed_pos == self.input@.len()
        &&& self.checksum_calculator.kind() == self.options.check_type
        &&& self.options.check_type != CheckType::NoCheck ==> self.checksum_calculator.bytes()
            == self.block@
    }

    /// Every finished block has the block size. Without one no block has been finished.
    pub open spec fn all_full(&self) -> bool {
        match self.settings().block_size {
            Some(size) => forall|i: int|
                0 <= i < self.finished_blocks().len()
                    ==> (#[trigger] self.finished_blocks()[i]).len() == size,
            None => self.finished_blocks().len() == 0,
        }
    }

    /// No byte is lost, made up or moved: the blocks make up the input. The index has a record for
    /// each finished block. No block is empty, and all but the last have the block size; without
    /// one there is only one block.
    pub open spec fn wf(&self) -> bool {
        &&& self.in_step()
        &&& 1 <= self.settings().filters@.len() <= PRE_FILTERS_MAX + 1
        &&& self.settings().filters@.last() == (FilterConfig {
            filter_type: FilterType::LZMA2,
            property: 0,
        })
        &&& crate::mt::splitter::joined(self.finished_blocks()) + self.current_block()
            == self.all_input()
        &&& self.index().len() == self.finished_blocks().len()
        &&& forall|i: int|
            0 <= i < self.index().len() ==> (#[trigger] self.index()[i]).uncompressed_size
                == self.finished_blocks()[i].len()
        &&& forall|i: int|
            0 <= i < self.finished_blocks().len()
                ==> (#[trigger] self.finished_blocks()[i]).len() > 0
        &&& match self.settings().block_size {
            Some(size) => {
                &&& size >= 1
                &&& self.current_block().len() <= size
                &&& forall|i: int|
                    0 <= i < self.finished_blocks().len()
                        ==> (#[trigger] self.finished_blocks()[i]).len() <= size
                &&& forall|i: int|
                    0 <= i < self.finished_blocks().len() - 1
                        ==> (#[trigger] self.finished_blocks()[i]).len() == size
            },
            None => self.finished_blocks().len() <= 1,
        }
        &&& self.current_block().len() > 0 ==> self.all_full()
    }

    /// Create a new XZ writer with the given options.
    pub fn new(options: XZOptions) -> (result: Result<Self, Error>)
        requires
            options.block_size != Some(0u64) || options.lzma_options.dict_size > 0,
        ensures
            match result {
                Ok(writer) => {
                    &&& options.filters@.len() <= PRE_FILTERS_MAX
                    &&& writer.wf()
                    &&& writer.settings().lzma_options == options.lzma_options
                    &&& writer.settings().check_type == options.check_type
                    &&& writer.settings().filters@ == full_chain(options.filters@)
                    &&& writer.settings().block_size == match options.block_size {
                        Some(size) => Some(
                            crate::options::clamped_size(size, options.lzma_options.dict_size),
                        ),
                        None => None,
                    }
                    &&& writer.finished_blocks() == Seq::<Seq<u8>>::empty()
                    &&& writer.current_block() == Seq::<u8>::empty()
                    &&& writer.all_full()
                    &&& writer.all_input() == Seq::<u8>::empty()
                    &&& !writer.has_header()
                    &&& !writer.is_finished()
                    &&& writer.block_start() == 0
                    &&& writer.block_header_size() == 0
                },
                Err(error) => {
                    &&& error == Error::InvalidInput(
                        "XZ allows only at most 3 pre-filters plus LZMA2",
                    )
                    &&& options.filters@.len() > PRE_FILTERS_MAX
                },
            },
    {
        let mut options = options;
        if options.filters.len() > PRE_FILTERS_MAX {
            return Err(Error::InvalidInput("XZ allows only at most 3 pre-filters plus LZMA2"));
        }
        if let Some(block_size) = options.block_size {
            options.block_size = Some(clamp_size(block_size, options.lzma_options.dict_size));
        }
        // Last filter is always LZMA2.
        options.filters.push(FilterConfig { filter_type: FilterType::LZMA2, property: 0 });
        let check_type = options.check_type;
        let writer = XZWriter {
            options,
            index_records: Vec::new(),
            block_uncompressed_size: 0,
            checksum_calculator: ChecksumCalculator::new(check_type),
            header_written: false,
            finished: false,
            total_uncompressed_pos: 0,
            current_block_start_pos: 0,
            current_block_header_size: 0,
            block: Ghost(Seq::empty()),
            blocks: Ghost(Seq::empty()),
            input: Ghost(Seq::empty()),
        };
        assert(crate::mt::splitter::joined(Seq::<Seq<u8>>::empty()) + Seq::<u8>::empty() =~= Seq::<
            u8,
        >::empty());
        Ok(writer)
    }

    /// Whether the current block has reached its maximum size.
    pub open spec fn block_is_full(&self) -> bool {
        match self.settings().block_size {
            Some(size) => self.current_block().len() >= size,
            None => false,
        }
    }

    fn should_finish_block(&self) -> (finish: bool)
        requires
            self.wf(),
        ensures
            finish == self.block_is_full(),
    {
        match self.options.block_size {
            Some(block_size) => self.block_uncompressed_size >= block_size,
            None => false,
        }
    }

    /// How many of `remaining` bytes go into the current block.
    pub open spec fn write_size(&self, remaining: int) -> int {
        match self.settings().block_size {
            Some(size) => if remaining < size - self.current_block().len() {
                remaining
            } else {
                size - self.current_block().len()
            },
            None => remaining,
        }
    }

    /// Decides what has to be done next when `remaining` bytes are still to be written.
    pub fn next_write_step(&self, remaining: usize) -> (result: Result<WriteStep, Error>)
        requires
            self.wf(),
        ensures
            if self.is_finished() {
                result == Err::<WriteStep, Error>(Error::InvalidData("XZWriter already finished"))
            } else if !self.has_header() {
                result == Ok::<WriteStep, Error>(WriteStep::StreamHeader)
            } else if remaining == 0 {
                result == Ok::<WriteStep, Error>(WriteStep::Done)
            } else if self.block_is_full() {
                result == Ok::<WriteStep, Error>(WriteStep::FinishBlock)
            } else {
                let size = self.write_size(remaining as int);
                &&& 1 <= size <= remaining
                &&& result == if self.current_block().len() == 0 {
                    Ok::<WriteStep, Error>(WriteStep::PrepareBlock(size as usize))
                } else {
                    Ok(WriteStep::Write(size as usize))
                }
            },
    {
        if self.finished {
            return Err(Error::InvalidData("XZWriter already finished"));
        }
        if !self.header_written {
            return Ok(WriteStep::StreamHeader);
        }
        if remaining == 0 {
            return Ok(WriteStep::Done);
        }
        if self.should_finish_block() {
            return Ok(WriteStep::FinishBlock);
        }
        let size: usize = match self.options.block_size {
            Some(block_size) => {
                let capacity: u64 = block_size - self.block_uncompressed_size;
                if (remaining as u64) < capacity {
                    remaining
                } else {
                    capacity as usize
                }
            },
            None => remaining,
        };
        if self.block_uncompressed_size == 0 {
            Ok(WriteStep::PrepareBlock(size))
        } else {
            Ok(WriteStep::Write(size))
        }
    }

    /// All but the header flag and what concerns the current block's place is the same.
    pub open spec fn same_contents(&self, other: &Self) -> bool {
        &&& self.settings() == other.settings()
        &&& self.current_block() == other.current_block()
        &&& self.finished_blocks() == other.finished_blocks()
        &&& self.index() == other.index()
        &&& self.all_input() == other.all_input()
        &&& self.is_finished() == other.is_finished()
    }

    /// The stream header has been written.
    pub fn stream_header_written(&mut self)
        requires
            old(self).wf(),
        ensures
            final(self).wf(),
            final(self).has_header(),
            final(self).same_contents(old(self)),
            final(self).block_start() == old(self).block_start(),
            final(self).block_header_size() == old(self).block_header_size(),
    {
        self.header_written = true;
    }

    /// The type of the checksums.
    pub fn check_type(&self) -> (check_type: CheckType)
        ensures
            check_type == self.settings().check_type,
    {
        self.options.check_type
    }

    /// The dictionary size.
    pub fn dict_size(&self) -> (dict_size: u32)
        ensures
            dict_size == self.settings().lzma_options.dict_size,
    {
        self.options.lzma_options.dict_size
    }

    /// The filters in the order in which the bytes pass through them.
    pub fn filters(&self) -> (filters: &Vec<FilterConfig>)
        ensures
            filters@ == self.settings().filters@,
    {
        &self.options.filters
    }

    /// The stages of the filter chain in the order in which their writers are put around the
    /// output: the last one first.
    pub fn chain_order(&self) -> (order: Vec<FilterStage>)
        ensures
            order@ == self.settings().filters@.reverse().map_values(
                |filter: FilterConfig| filter.as_stage(),
            ),
    {
        let mut order: Vec<FilterStage> = Vec::new();
        let mut left: usize = self.options.filters.len();
        while left > 0
            invariant
                left <= self.options.filters@.len(),
                order@.len() == self.options.filters@.len() - left,
                forall|i: int|
                    0 <= i < order@.len() ==> order@[i]
                        == self.options.filters@[self.options.filters@.len() - 1 - i].as_stage(),
            decreases left,
        {
            left -= 1;
            order.push(self.options.filters[left].stage());
        }
        assert(order@ =~= self.settings().filters@.reverse().map_values(
            |filter: FilterConfig| filter.as_stage(),
        ));
        order
    }

    /// The header of a new block has been written. It has `header_size` bytes, and
    /// `compressed_bytes_written` bytes have been put out so far.
    pub fn block_prepared(&mut self, header_size: u64, compressed_bytes_written: u64)
        requires
            old(self).wf(),
            old(self).current_block().len() == 0,
        ensures
            final(self).wf(),
            final(self).same_contents(old(self)),
            final(self).has_header() == old(self).has_header(),
            final(self).block_start() == compressed_bytes_written,
            final(self).block_header_size() == header_size,
    {
        self.current_block_header_size = header_size;
        self.current_block_start_pos = compressed_bytes_written;
        self.block_uncompressed_size = 0;
    }

    /// The filter chain has taken these bytes.
    pub fn bytes_written(&mut self, bytes: &[u8])
        requires
            old(self).wf(),
            old(self).all_full(),
            bytes@.len() <= old(self).write_size(bytes@.len() as int),
            old(self).all_input().len() + bytes@.len() <= u64::MAX,
        ensures
            final(self).wf(),
            final(self).settings() == old(self).settings(),
            final(self).current_block() == old(self).current_block() + bytes@,
            final(self).all_input() == old(self).all_input() + bytes@,
            final(self).finished_blocks() == old(self).finished_blocks(),
            final(self).index() == old(self).index(),
            final(self).has_header() == old(self).has_header(),
            final(self).is_finished() == old(self).is_finished(),
            final(self).block_start() == old(self).block_start(),
            final(self).block_header_size() == old(self).block_header_size(),
    {
        proof {
            assert(self.block@.len() <= self.input@.len());
        }
        self.checksum_calculator.update(bytes);
        self.block_uncompressed_size = self.block_uncompressed_size + bytes.len() as u64;
        self.total_uncompressed_pos = self.total_uncompressed_pos + bytes.len() as u64;
        proof {
            self.block@ = self.block@ + bytes@;
            self.input@ = self.input@ + bytes@;
            let head = crate::mt::splitter::joined(self.blocks@);
            assert(head + (old(self).block@ + bytes@) =~= (head + old(self).block@) + bytes@);
        }
    }

    /// The filter chain of the current block has been finished, and `compressed_bytes_written`
    /// bytes have been put out so far. Returns what follows the data of the block: padding and
    /// checksum.
    #[verifier::spinoff_prover]
    #[verifier::rlimit(60)]
    pub fn finish_current_block(&mut self, compressed_bytes_written: u64) -> (tail: Vec<u8>)
        requires
            old(self).wf(),
            old(self).current_block().len() > 0,
            old(self).block_start() <= compressed_bytes_written,
            old(self).block_header_size() + (compressed_bytes_written - old(self).block_start())
                + 32 <= u64::MAX,
        ensures
            final(self).wf(),
            ({
                let size = compressed_bytes_written - old(self).block_start();
                let check_type = old(self).settings().check_type;
                &&& tail@ == zeros(super::block::padding_for(size)) + check_type.checksum(
                    old(self).current_block(),
                )
                &&& final(self).index() == old(self).index().push(
                    IndexRecord {
                        unpadded_size: (old(self).block_header_size() + size
                            + check_type.size()) as u64,
                        uncompressed_size: old(self).current_block().len() as u64,
                    },
                )
            }),
            ({
                let size = compressed_bytes_written - old(self).block_start();
                let sum: int = match old(self).settings().check_type {
                    CheckType::NoCheck => 0,
                    CheckType::Crc32 => 4,
                    CheckType::Crc64 => 8,
                    CheckType::Sha256 => 32,
                };
                let padding = tail@.len() - sum;
                &&& 0 <= padding < 4
                &&& (size + padding) % 4 == 0
                &&& forall|i: int| 0 <= i < padding ==> tail@[i] == 0
                &&& final(self).index().last().unpadded_size == old(self).block_header_size() + size
                    + sum
                &&& final(self).index().last().uncompressed_size == old(self).current_block().len()
            }),
            final(self).settings() == old(self).settings(),
            final(self).finished_blocks() == old(self).finished_blocks().push(
                old(self).current_block(),
            ),
            final(self).current_block() == Seq::<u8>::empty(),
            final(self).all_full() == old(self).block_is_full(),
            final(self).all_input() == old(self).all_input(),
            final(self).has_header() == old(self).has_header(),
            final(self).is_finished() == old(self).is_finished(),
            final(self).block_start() == old(self).block_start(),
            final(self).block_header_size() == old(self).block_header_size(),
    {
        let block_compressed_size: u64 = compressed_bytes_written - self.current_block_start_pos;
        let padding: usize = padding_needed(block_compressed_size);
        let mut tail: Vec<u8> = vec![0u8; padding];
        let checksum = self.take_checksum();
        tail.extend_from_slice(checksum.as_slice());
        let unpadded_size: u64 = self.current_block_header_size + block_compressed_size
            + self.options.check_type.checksum_size();
        self.index_records.push(
            IndexRecord { unpadded_size, uncompressed_size: self.block_uncompressed_size },
        );
        self.block_uncompressed_size = 0;
        proof {
            let check_type = old(self).options.check_type;
            assert(tail@ =~= zeros(padding as int) + check_type.checksum(old(self).block@));
            assert((block_compressed_size + padding as int) % 4 == 0);
            self.blocks@ = self.blocks@.push(self.block@);
            self.block@ = Seq::empty();
            assert(self.blocks@.drop_last() =~= old(self).blocks@);
            let count = old(self).blocks@.len() as int;
            assert(self.finished_blocks()[count] == old(self).block@);
            assert forall|i: int| 0 <= i < count implies self.finished_blocks()[i] == old(
                self,
            ).finished_blocks()[i] by {}
            assert(crate::mt::splitter::joined(self.blocks@) + Seq::<u8>::empty()
                =~= crate::mt::splitter::joined(old(self).blocks@) + old(self).block@);
        }
        tail
    }

    /// Takes the checksum of the current block, and starts that of the next one.
    fn take_checksum(&mut self) -> (checksum: Vec<u8>)
        requires
            old(self).in_step(),
        ensures
            checksum@ == old(self).options.check_type.checksum(old(self).block@),
            checksum@.len() == old(self).options.check_type.size(),
            final(self).checksum_calculator.kind() == old(self).options.check_type,
            final(self).checksum_calculator.bytes() == Seq::<u8>::empty(),
            *final(self) == (XZWriter {
                checksum_calculator: final(self).checksum_calculator,
                ..*old(self)
            }),
    {
        let mut calculator = ChecksumCalculator::new(self.options.check_type);
        std::mem::swap(&mut calculator, &mut self.checksum_calculator);
        calculator.finalize_to_bytes()
    }

    /// Decides what has to be done next to finish the stream. A stream without data has no blocks.
    pub fn next_finish_step(&self) -> (step: FinishStep)
        requires
            self.wf(),
        ensures
            step == if self.is_finished() {
                FinishStep::Done
            } else if !self.has_header() {
                FinishStep::StreamHeader
            } else if self.current_block().len() > 0 {
                FinishStep::FinishBlock
            } else {
                FinishStep::IndexAndFooter
            },
    {
        if self.finished {
            FinishStep::Done
        } else if !self.header_written {
            FinishStep::StreamHeader
        } else if self.block_uncompressed_size > 0 {
            FinishStep::FinishBlock
        } else {
            FinishStep::IndexAndFooter
        }
    }

    /// The index and the footer have been written.
    pub fn finish(&mut self)
        requires
            old(self).wf(),
            old(self).current_block().len() == 0,
        ensures
            final(self).wf(),
            final(self).is_finished(),
            final(self).settings() == old(self).settings(),
            final(self).current_block() == old(self).current_block(),
            final(self).finished_blocks() == old(self).finished_blocks(),
            final(self).index() == old(self).index(),
            final(self).all_input() == old(self).all_input(),
            final(self).has_header() == old(self).has_header(),
    {
        self.finished = true;
    }

    /// The records of the finished blocks.
    pub fn index_records(&self) -> (records: &Vec<IndexRecord>)
        ensures
            records@ == self.index(),
    {
        &self.index_records
    }

    /// While a block is open, all that were finished have the block size, and it holds the rest:
    /// however the bytes came in, their number alone decides where blocks end. Without a block size
    /// the open block holds all of them.
    pub proof fn lemma_blocks_while_writing(&self)
        requires
            self.wf(),
            self.current_block().len() > 0,
        ensures
            self.all_full(),
            match self.settings().block_size {
                Some(size) => {
                    let closed = (self.all_input().len() - 1) / (size as int);
                    &&& self.finished_blocks().len() == closed
                    &&& self.index().len() == closed
                    &&& self.current_block().len() == self.all_input().len() - size * closed
                    &&& 0 < self.current_block().len() <= size
                },
                None => {
                    &&& self.finished_blocks().len() == 0
                    &&& self.current_block() == self.all_input()
                },
            },
    {
        let blocks = self.finished_blocks();
        match self.settings().block_size {
            Some(size) => {
                let b = size as int;
                let k = blocks.len() as int;
                let c = self.current_block().len() as int;
                let n = self.all_input().len() as int;
                crate::mt::splitter::lemma_joined_len(blocks, b);
                assert(n == b * k + c);
                assert((n - 1) / b == k) by (nonlinear_arith)
                    requires
                        n == b * k + c,
                        0 < c <= b,
                ;
            },
            None => {
                assert(Seq::<u8>::empty() + self.current_block() =~= self.current_block());
            },
        }
    }

    /// Once the last block has been finished, the blocks in the index make up the input, all but
    /// the last have the block size, and without input there are none.
    pub proof fn lemma_blocks_make_up_input(&self)
        requires
            self.wf(),
            self.current_block().len() == 0,
        ensures
            crate::mt::splitter::joined(self.finished_blocks()) == self.all_input(),
            self.index().len() == self.finished_blocks().len(),
            self.settings().block_size matches Some(size) ==> forall|i: int|
                0 <= i < self.finished_blocks().len() - 1
                    ==> (#[trigger] self.finished_blocks()[i]).len() == size,
            self.settings().block_size is None ==> self.finished_blocks().len() <= 1,
            self.finished_blocks().len() == 0 <==> self.all_input().len() == 0,
    {
        let blocks = self.finished_blocks();
        assert(self.current_block() =~= Seq::<u8>::empty());
        assert(crate::mt::splitter::joined(blocks) + Seq::<u8>::empty()
            =~= crate::mt::splitter::joined(blocks));
        if blocks.len() > 0 {
            assert(blocks.last().len() > 0);
        }
    }
}

/// Behind a block come zeros up to a multiple of four and the checksum of all its bytes. The index
/// says how long it is before compression, and how long after: header, data and checksum count, and
/// the zeros do not.
#[verifier::spinoff_prover]
#[verifier::rlimit(60)]
pub proof fn lemma_block_is_closed(
    writer: &mut XZWriter,
    compressed_bytes_written: u64,
    tail: Vec<u8>,
    padding: int,
)
    requires
        old(writer).wf(),
        old(writer).current_block().len() > 0,
        old(writer).block_start() <= compressed_bytes_written,
        call_ensures(
            XZWriter::finish_current_block,
            (writer, compressed_bytes_written),
            tail,
        ),
        0 <= padding < 4,
        (compressed_bytes_written - old(writer).block_start() + padding) % 4 == 0,
    ensures
        ({
            let size = compressed_bytes_written - old(writer).block_start();
            let data = old(writer).current_block();
            let s = tail@.skip(padding);
            let low = s[0] + 0x100 * s[1] + 0x10000 * s[2] + 0x1000000 * s[3];
            let high = s[4] + 0x100 * s[5] + 0x10000 * s[6] + 0x1000000 * s[7];
            let record = final(writer).index().last();
            &&& padding <= tail@.len()
            &&& forall|i: int| 0 <= i < padding ==> tail@[i] == 0
            &&& match old(writer).settings().check_type {
                CheckType::NoCheck => s.len() == 0,
                CheckType::Crc32 => s.len() == 4 && low == super::check::crc32_of(data),
                CheckType::Crc64 => s.len() == 8 && low + 0x1_0000_0000 * high
                    == super::check::crc64_of(data),
                CheckType::Sha256 => s == super::check::sha256_of(data),
            }
            &&& record.unpadded_size == old(writer).block_header_size() + size + s.len()
            &&& record.uncompressed_size == data.len()
            &&& final(writer).index().drop_last() == old(writer).index()
            &&& final(writer).finished_blocks() == old(writer).finished_blocks().push(data)
            &&& final(writer).current_block().len() == 0
            &&& final(writer).all_input() == old(writer).all_input()
        }),
{
    let size = compressed_bytes_written - old(writer).block_start();
    let data = old(writer).current_block();
    let check_type = old(writer).settings().check_type;
    assert(super::block::padding_for(size) == padding);
    CheckType::lemma_checksum_is_of_all_data(data);
    assert(tail@.skip(padding) =~= check_type.checksum(data));
    assert(final(writer).index().drop_last() =~= old(writer).index());
}

/// A writer that has bytes to write either finishes a full block, or writes as many as there are or
/// as the block has room for. It is done only when there are none.
pub proof fn lemma_write_step_is_right(
    writer: &XZWriter,
    remaining: usize,
    result: Result<WriteStep, Error>,
)
    requires
        writer.wf(),
        call_ensures(XZWriter::next_write_step, (writer, remaining), result),
        writer.has_header(),
        !writer.is_finished(),
    ensures
        result is Ok,
        result->Ok_0 == WriteStep::Done <==> remaining == 0,
        remaining > 0 ==> match writer.settings().block_size {
            Some(size) => {
                let len = writer.current_block().len();
                &&& result->Ok_0 == WriteStep::FinishBlock <==> len == size
                &&& match result->Ok_0 {
                    WriteStep::PrepareBlock(n) => len == 0 && 1 <= n <= remaining && n <= size && (n
                        == remaining || n == size),
                    WriteStep::Write(n) => len > 0 && 1 <= n <= remaining && len + n <= size && (n
                        == remaining || len + n == size),
                    WriteStep::FinishBlock => true,
                    _ => false,
                }
            },
            None => result->Ok_0 == if writer.current_block().len() == 0 {
                WriteStep::PrepareBlock(remaining)
            } else {
                WriteStep::Write(remaining)
            },
        },
{
}

/// The bytes that were written are in the current block, behind those before, and nowhere else.
pub proof fn lemma_written_bytes_are_kept(writer: &mut XZWriter, bytes: &[u8])
    requires
        old(writer).wf(),
        call_ensures(XZWriter::bytes_written, (writer, bytes), ()),
    ensures
        final(writer).current_block() == old(writer).current_block() + bytes@,
        final(writer).all_input() == old(writer).all_input() + bytes@,
        final(writer).finished_blocks() == old(writer).finished_blocks(),
        final(writer).index() == old(writer).index(),
{
}

} // verus!
