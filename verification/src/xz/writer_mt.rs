//! What a multi-threaded XZ writer decides.

use vstd::prelude::*;

use super::block::{padding_needed, IndexRecord};
use super::check::{CheckType, ChecksumCalculator};
use super::filter::{FilterConfig, FilterType};
use super::options::{XZOptions, PRE_FILTERS_MAX};
use crate::error::Error;
use crate::mt::collector::{Collector, LostChunk, PullStep, SendStep, State};
use crate::mt::splitter::Splitter;
use crate::mt::workers::clamp_workers;
use crate::options::clamp_size;

verus! {

/// The result of a unit of work.
pub struct CompressedBlock {
    pub compressed_data: Vec<u8>,
    pub checksum: Vec<u8>,
    pub uncompressed_size: u64,
}

/// Puts together the result of a unit of work: the compressed form, and the checksum and the size
/// of the bytes themselves.
pub fn finish_unit(check_type: CheckType, data: &[u8], compressed_data: Vec<u8>) -> (block:
    CompressedBlock)
    ensures
        block.compressed_data == compressed_data,
        block.checksum@ == check_type.checksum(data@),
        block.uncompressed_size == data@.len(),
{
    let uncompressed_size: u64 = data.len() as u64;
    let mut checksum_calculator = ChecksumCalculator::new(check_type);
    checksum_calculator.update(data);
    let checksum = checksum_calculator.finalize_to_bytes();
    assert(check_type != CheckType::NoCheck ==> Seq::<u8>::empty() + data@ =~= data@);
    CompressedBlock { compressed_data, checksum, uncompressed_size }
}

/// The state of a multi-threaded XZ compressor.
pub struct XZWriterMT {
    options: XZOptions,
    splitter: Splitter,
    collector: Collector<CompressedBlock>,
    max_workers: u32,
    in_hand: bool,
    index_records: Vec<IndexRecord>,
    header_written: bool,
    total_uncompressed_pos: u64,
}

impl XZWriterMT {
    /// The options.
    pub closed spec fn settings(&self) -> XZOptions {
        self.options
    }

    /// The input that has been cut up.
    pub closed spec fn input(&self) -> Splitter {
        self.splitter
    }

    /// The results that have come.
    pub closed spec fn results(&self) -> Collector<CompressedBlock> {
        self.collector
    }

    /// A unit of work has been taken but not queued yet.
    pub closed spec fn holds_work(&self) -> bool {
        self.in_hand
    }

    /// The most workers that are started.
    pub closed spec fn worker_limit(&self) -> u32 {
        self.max_workers
    }

    /// The records of the blocks that were written.
    pub closed spec fn index(&self) -> Seq<IndexRecord> {
        self.index_records@
    }

    /// Whether the stream header has been written.
    pub closed spec fn has_header(&self) -> bool {
        self.header_written
    }

    /// How many bytes the blocks that were written stand for.
    pub closed spec fn total(&self) -> int {
        self.total_uncompressed_pos as int
    }

    /// The number of units is that of the numbers that were given out.
    pub open spec fn wf(&self) -> bool {
        &&& self.input().wf()
        &&& self.results().wf()
        &&& self.input().taken().len() == self.results().next_sequence_to_dispatch
            + if self.holds_work() {
            1int
        } else {
            0
        }
    }

    /// Creates a new multi-threaded XZ writer.
    ///
    /// - `options`: The XZ options used for compressing. Block size must be set when using the
    ///   multi-threaded encoder. If you need just one block, then use the single-threaded encoder.
    /// - `num_workers`: The maximum number of worker threads for compression.
    ///   Currently capped at 256 threads.
    pub fn new(options: XZOptions, num_workers: u32) -> (result: Result<Self, Error>)
        requires
            options.block_size != Some(0u64) || options.lzma_options.dict_size > 0,
        ensures
            match result {
                Ok(writer) => {
                    &&& options.filters@.len() <= PRE_FILTERS_MAX
                    &&& options.block_size is Some
                    &&& writer.wf()
                    &&& writer.settings() == options
                    &&& writer.input().size() == crate::options::clamped_size(
                        options.block_size->0,
                        options.lzma_options.dict_size,
                    )
                    &&& writer.input().all_input() == Seq::<u8>::empty()
                    &&& writer.input().taken() == Seq::<Seq<u8>>::empty()
                    &&& writer.input().collected() == Seq::<u8>::empty()
                    &&& writer.results().state == State::Writing
                    &&& writer.results().next_sequence_to_dispatch == 0
                    &&& writer.results().order.next_number() == 0
                    &&& writer.results().order.arrived_numbers() == Set::<u64>::empty()
                    &&& writer.results().order.handed_out() == Seq::<CompressedBlock>::empty()
                    &&& !writer.holds_work()
                    &&& writer.index() == Seq::<IndexRecord>::empty()
                    &&& !writer.has_header()
                    &&& writer.total() == 0
                    &&& writer.worker_limit() == if num_workers < 1 {
                        1
                    } else if num_workers > 256 {
                        256
                    } else {
                        num_workers
                    }
                },
                Err(error) => if options.filters@.len() > PRE_FILTERS_MAX {
                    error == Error::InvalidInput("XZ allows only at most 3 pre-filters plus LZMA2")
                } else {
                    match options.block_size {
                        None => error == Error::InvalidInput("block size must be set"),
                        Some(size) => {
                            &&& error == Error::InvalidInput("block size bigger than usize")
                            &&& crate::options::clamped_size(size, options.lzma_options.dict_size)
                                > usize::MAX
                        },
                    }
                },
            },
    {
        let max_workers: u32 = clamp_workers(num_workers);
        if options.filters.len() > PRE_FILTERS_MAX {
            return Err(Error::InvalidInput("XZ allows only at most 3 pre-filters plus LZMA2"));
        }
        let block_size: u64 = match options.block_size {
            None => {
                return Err(Error::InvalidInput("block size must be set"));
            },
            Some(block_size) => clamp_size(block_size, options.lzma_options.dict_size),
        };
        if block_size > usize::MAX as u64 {
            return Err(Error::InvalidInput("block size bigger than usize"));
        }
        Ok(
            XZWriterMT {
                options,
                splitter: Splitter::new(block_size as usize),
                collector: Collector::new(),
                max_workers,
                in_hand: false,
                index_records: Vec::new(),
                header_written: false,
                total_uncompressed_pos: 0,
            },
        )
    }

    /// Whether the stream header has still to be written.
    pub fn needs_header(&self) -> (needs: bool)
        ensures
            needs == !self.has_header(),
    {
        !self.header_written
    }

    /// All but the header flag, the index and the total is the same.
    pub open spec fn same_work(&self, other: &Self) -> bool {
        &&& self.settings() == other.settings()
        &&& self.input() == other.input()
        &&& self.results() == other.results()
        &&& self.holds_work() == other.holds_work()
        &&& self.worker_limit() == other.worker_limit()
    }

    /// The header flag, the index and the total are the same.
    pub open spec fn same_output(&self, other: &Self) -> bool {
        &&& self.index() == other.index()
        &&& self.has_header() == other.has_header()
        &&& self.total() == other.total()
    }

    /// The stream header has been written.
    pub fn stream_header_written(&mut self)
        requires
            old(self).wf(),
        ensures
            final(self).wf(),
            final(self).same_work(old(self)),
            final(self).has_header(),
            final(self).index() == old(self).index(),
            final(self).total() == old(self).total(),
    {
        self.header_written = true;
    }

    /// The options.
    pub fn options(&self) -> (options: &XZOptions)
        ensures
            *options == self.settings(),
    {
        &self.options
    }

    /// The filters of each block: those that were chosen, and LZMA2.
    pub fn block_filters(&self) -> (filters: Vec<FilterConfig>)
        ensures
            filters@ == super::writer::full_chain(self.settings().filters@),
    {
        let mut filters: Vec<FilterConfig> = Vec::new();
        let mut i: usize = 0;
        while i < self.options.filters.len()
            invariant
                i <= self.options.filters@.len(),
                filters@ == self.options.filters@.take(i as int),
            decreases self.options.filters@.len() - i,
        {
            filters.push(self.options.filters[i]);
            i += 1;
            assert(filters@ =~= self.options.filters@.take(i as int));
        }
        assert(filters@ =~= self.options.filters@);
        filters.push(FilterConfig { filter_type: FilterType::LZMA2, property: 0 });
        filters
    }

    /// A block header of `header_size` bytes and the compressed data have been written. Returns
    /// what follows them: padding and checksum.
    pub fn write_compressed_block(&mut self, header_size: u64, block: &CompressedBlock) -> (tail:
        Vec<u8>)
        requires
            old(self).wf(),
            header_size + block.compressed_data@.len() + 32 <= u64::MAX,
            old(self).total() + block.uncompressed_size <= u64::MAX,
        ensures
            final(self).wf(),
            final(self).same_work(old(self)),
            final(self).has_header() == old(self).has_header(),
            tail@ == super::writer::zeros(
                super::block::padding_for(block.compressed_data@.len() as int),
            ) + block.checksum@,
            final(self).index() == old(self).index().push(
                IndexRecord {
                    unpadded_size: (header_size + block.compressed_data@.len()
                        + old(self).settings().check_type.size()) as u64,
                    uncompressed_size: block.uncompressed_size,
                },
            ),
            final(self).total() == old(self).total() + block.uncompressed_size,
    {
        let data_size: u64 = block.compressed_data.len() as u64;
        let padding: usize = padding_needed(data_size);
        let mut tail: Vec<u8> = vec![0u8; padding];
        tail.extend_from_slice(block.checksum.as_slice());
        assert(tail@ =~= super::writer::zeros(padding as int) + block.checksum@);
        let unpadded_size: u64 = header_size + data_size + self.options.check_type.checksum_size();
        self.index_records.push(
            IndexRecord { unpadded_size, uncompressed_size: block.uncompressed_size },
        );
        self.total_uncompressed_pos = self.total_uncompressed_pos + block.uncompressed_size;
        tail
    }

    /// The records of the blocks that were written.
    pub fn index_records(&self) -> (records: &Vec<IndexRecord>)
        ensures
            records@ == self.index(),
    {
        &self.index_records
    }

    /// The most workers that are started.
    pub fn max_workers(&self) -> (max_workers: u32)
        ensures
            max_workers == self.worker_limit(),
    {
        self.max_workers
    }

    /// Whether more input can come.
    pub fn is_writing(&self) -> (writing: bool)
        ensures
            writing == (self.results().state == State::Writing),
    {
        self.collector.state == State::Writing
    }

    /// Whether there is anything to do for a write of `len` bytes.
    pub fn begin_write(&self, len: usize) -> (result: Result<bool, Error>)
        ensures
            result == if len == 0 {
                Ok::<bool, Error>(false)
            } else if self.results().state != State::Writing {
                Err(Error::InvalidInput("cannot write after finishing"))
            } else {
                Ok(true)
            },
    {
        if len == 0 {
            return Ok(false);
        }
        if self.collector.state != State::Writing {
            return Err(Error::InvalidInput("cannot write after finishing"));
        }
        Ok(true)
    }

    /// Takes as much of `buf` as belongs to the current unit of work.
    pub fn write(&mut self, buf: &[u8]) -> (taken: usize)
        requires
            old(self).wf(),
        ensures
            final(self).wf(),
            final(self).settings() == old(self).settings(),
            final(self).same_output(old(self)),
            final(self).results() == old(self).results(),
            final(self).holds_work() == old(self).holds_work(),
            final(self).worker_limit() == old(self).worker_limit(),
            final(self).input().size() == old(self).input().size(),
            final(self).input().taken() == old(self).input().taken(),
            taken == if buf@.len() < old(self).input().size() - old(
                self,
            ).input().collected().len() {
                buf@.len() as int
            } else {
                old(self).input().size() - old(self).input().collected().len()
            },
            final(self).input().collected() == old(self).input().collected() + buf@.take(
                taken as int,
            ),
            final(self).input().all_input() == old(self).input().all_input() + buf@.take(
                taken as int,
            ),
    {
        self.splitter.fill(buf)
    }

    /// Whether the current unit of work is complete.
    pub fn unit_is_full(&self) -> (full: bool)
        ensures
            full == (self.input().collected().len() >= self.input().size()),
    {
        self.splitter.is_full()
    }

    /// Decides how to send the current unit of work while `queue_len` units are queued. Nothing is
    /// sent behind a unit that was refused.
    pub fn next_send_step(&self, queue_len: usize) -> (step: SendStep)
        ensures
            step == if self.input().collected().len() == 0 || self.holds_work() {
                SendStep::Idle
            } else if queue_len >= 4 {
                SendStep::Drain
            } else {
                SendStep::Push
            },
    {
        let unit_len: usize = if self.splitter.is_empty() || self.in_hand { 0 } else { 1 };
        self.collector.next_send_step(unit_len, queue_len)
    }

    /// What to do when no result came while the queue is full.
    pub fn drained_nothing(&self) -> (result: Result<(), Error>)
        ensures
            result == if self.results().state != State::Writing {
                Err::<(), Error>(
                    Error::BrokenPipe("stream has been closed or is in an error state."),
                )
            } else {
                Ok(())
            },
    {
        if self.collector.state != State::Writing {
            return Err(Error::BrokenPipe("stream has been closed or is in an error state."));
        }
        Ok(())
    }

    /// Takes the current unit of work, with its number.
    pub fn take_work(&mut self) -> (work: (u64, Vec<u8>))
        requires
            old(self).wf(),
            !old(self).holds_work(),
            old(self).input().collected().len() > 0,
        ensures
            final(self).wf(),
            final(self).settings() == old(self).settings(),
            final(self).same_output(old(self)),
            final(self).results() == old(self).results(),
            final(self).holds_work(),
            final(self).worker_limit() == old(self).worker_limit(),
            final(self).input().size() == old(self).input().size(),
            work.0 == old(self).results().next_sequence_to_dispatch,
            work.1@ == old(self).input().collected(),
            final(self).input().collected() == Seq::<u8>::empty(),
            final(self).input().taken() == old(self).input().taken().push(work.1@),
            final(self).input().all_input() == old(self).input().all_input(),
    {
        self.in_hand = true;
        (self.collector.next_sequence_to_dispatch, self.splitter.take_unit())
    }

    /// The unit has been queued.
    pub fn work_pushed(&mut self)
        requires
            old(self).wf(),
            old(self).holds_work(),
            old(self).results().next_sequence_to_dispatch < u64::MAX,
        ensures
            final(self).wf(),
            final(self).settings() == old(self).settings(),
            final(self).same_output(old(self)),
            final(self).input() == old(self).input(),
            !final(self).holds_work(),
            final(self).worker_limit() == old(self).worker_limit(),
            final(self).results() == (Collector {
                next_sequence_to_dispatch: (old(self).results().next_sequence_to_dispatch
                    + 1) as u64,
                ..old(self).results()
            }),
    {
        self.in_hand = false;
        self.collector.dispatched();
    }

    /// The queue takes no more work. Returns the error to store and to fail with.
    pub fn work_refused(&mut self) -> (error: Error)
        requires
            old(self).wf(),
        ensures
            final(self).wf(),
            error == Error::BrokenPipe("worker threads have shut down"),
            final(self).settings() == old(self).settings(),
            final(self).same_output(old(self)),
            final(self).input() == old(self).input(),
            final(self).holds_work() == old(self).holds_work(),
            final(self).worker_limit() == old(self).worker_limit(),
            final(self).results() == (Collector { state: State::Error, ..old(self).results() }),
    {
        self.collector.queue_closed();
        Error::BrokenPipe("worker threads have shut down")
    }

    /// Decides how to get the next compressed block. `stored` is an error that was stored by a
    /// worker. While writing, the writer waits for a worker only if it is `blocking`.
    pub fn next_chunk_step(&mut self, stored: Option<Error>, blocking: bool) -> (step: PullStep<
        CompressedBlock,
    >)
        requires
            old(self).wf(),
            old(self).results().order.next_number() < u64::MAX,
        ensures
            final(self).wf(),
            final(self).settings() == old(self).settings(),
            final(self).same_output(old(self)),
            final(self).input() == old(self).input(),
            final(self).holds_work() == old(self).holds_work(),
            final(self).worker_limit() == old(self).worker_limit(),
            final(self).results().pulled_from(
                &old(self).results(),
                stored,
                "compression failed with an unknown error",
                blocking,
                &step,
            ),
    {
        self.collector.next_step(stored, "compression failed with an unknown error", blocking)
    }

    /// A compressed block has come. It is handed out at once if it is the next one.
    pub fn received(&mut self, sequence: u64, chunk: CompressedBlock) -> (out: Option<
        CompressedBlock,
    >)
        requires
            old(self).wf(),
            old(self).results().order.next_number() < u64::MAX,
        ensures
            final(self).wf(),
            final(self).settings() == old(self).settings(),
            final(self).same_output(old(self)),
            final(self).input() == old(self).input(),
            final(self).holds_work() == old(self).holds_work(),
            final(self).worker_limit() == old(self).worker_limit(),
            final(self).results().received_from(&old(self).results(), sequence, chunk, &out),
    {
        self.collector.received(sequence, chunk)
    }

    /// All workers are gone.
    pub fn disconnected(&mut self) -> (lost: Option<LostChunk>)
        requires
            old(self).wf(),
            old(self).results().state == State::Writing || old(self).results().state
                == State::Finishing,
        ensures
            final(self).wf(),
            final(self).settings() == old(self).settings(),
            final(self).same_output(old(self)),
            final(self).input() == old(self).input(),
            final(self).holds_work() == old(self).holds_work(),
            final(self).worker_limit() == old(self).worker_limit(),
            final(self).results().disconnected_from(&old(self).results(), lost),
    {
        self.collector.disconnected()
    }

    /// No more input will come. Returns whether any did; if so, all results are to be written
    /// before the stream ends.
    pub fn finish(&mut self) -> (any: bool)
        requires
            old(self).wf(),
        ensures
            final(self).wf(),
            final(self).settings() == old(self).settings(),
            final(self).same_output(old(self)),
            final(self).input() == old(self).input(),
            final(self).holds_work() == old(self).holds_work(),
            final(self).worker_limit() == old(self).worker_limit(),
            any == (old(self).results().next_sequence_to_dispatch > 0),
            final(self).results() == if any {
                Collector {
                    last_sequence_id: Some(
                        (old(self).results().next_sequence_to_dispatch - 1) as u64,
                    ),
                    state: State::Finishing,
                    ..old(self).results()
                }
            } else {
                old(self).results()
            },
    {
        self.collector.finish()
    }

    /// The number that a flush waits for.
    pub fn flush_target(&self) -> (sequence: u64)
        ensures
            sequence == self.results().next_sequence_to_dispatch,
    {
        self.collector.next_sequence_to_dispatch
    }

    /// Whether a flush has to wait for more results.
    pub fn must_wait(&self, sequence_to_wait: u64) -> (wait: bool)
        ensures
            wait == (self.results().order.next_number() < sequence_to_wait),
    {
        self.collector.must_wait(sequence_to_wait)
    }

    /// The error of a flush that gets no more results.
    pub fn flush_ended(&self) -> (error: Error)
        ensures
            error == Error::BrokenPipe("compression stream ended unexpectedly during flush"),
    {
        Error::BrokenPipe("compression stream ended unexpectedly during flush")
    }

    /// A finished stream holds the compressed form of all the input: if every result is what
    /// `compress` makes of the unit with its number, then the results that were handed out are
    /// those of all units, in order, and the units make up the input.
    pub proof fn lemma_finished_stream(&self, compress: spec_fn(Seq<u8>) -> CompressedBlock)
        requires
            self.wf(),
            !self.holds_work(),
            self.input().collected().len() == 0,
            self.results().state is Finished,
            self.results().next_sequence_to_dispatch > 0,
            self.results().last_sequence_id == Some(
                (self.results().next_sequence_to_dispatch - 1) as u64,
            ),
            forall|number: u64| #[trigger]
                self.results().order.arrived_numbers().contains(number) ==> number
                    < self.results().next_sequence_to_dispatch,
            self.results().order.in_order(
                (|number: u64| compress(self.input().taken()[number as int])),
            ),
        ensures
            self.results().order.handed_out() == self.input().taken().map_values(compress),
            crate::mt::splitter::joined(self.input().taken()) == self.input().all_input(),
    {
        let chunks = |number: u64| compress(self.input().taken()[number as int]);
        self.results().lemma_end_means_all(chunks);
        assert(self.results().order.handed_out() =~= self.input().taken().map_values(compress));
        assert(self.input().collected() =~= Seq::<u8>::empty());
        assert(crate::mt::splitter::joined(self.input().taken()) + Seq::<u8>::empty()
            =~= crate::mt::splitter::joined(self.input().taken()));
    }
}

/// The result of a unit holds the checksum and the size of all its bytes, and its compressed form.
pub proof fn lemma_unit_is_finished(
    check_type: CheckType,
    data: &[u8],
    compressed_data: Vec<u8>,
    block: CompressedBlock,
)
    requires
        call_ensures(finish_unit, (check_type, data, compressed_data), block),
    ensures
        ({
            let s = block.checksum@;
            let low = s[0] + 0x100 * s[1] + 0x10000 * s[2] + 0x1000000 * s[3];
            let high = s[4] + 0x100 * s[5] + 0x10000 * s[6] + 0x1000000 * s[7];
            match check_type {
                CheckType::NoCheck => s.len() == 0,
                CheckType::Crc32 => s.len() == 4 && low == super::check::crc32_of(data@),
                CheckType::Crc64 => s.len() == 8 && low + 0x1_0000_0000 * high
                    == super::check::crc64_of(data@),
                CheckType::Sha256 => s == super::check::sha256_of(data@),
            }
        }),
        block.uncompressed_size == data@.len(),
        block.compressed_data@ == compressed_data@,
{
    CheckType::lemma_checksum_is_of_all_data(data@);
}

/// Behind the compressed data of a block come zeros up to a multiple of four and its checksum, and
/// the index says how long the block is without the zeros.
pub proof fn lemma_block_is_written(
    writer: &mut XZWriterMT,
    header_size: u64,
    block: &CompressedBlock,
    tail: Vec<u8>,
    padding: int,
)
    requires
        old(writer).wf(),
        header_size + block.compressed_data@.len() + 32 <= u64::MAX,
        call_ensures(XZWriterMT::write_compressed_block, (writer, header_size, block), tail),
        0 <= padding < 4,
        (block.compressed_data@.len() + padding) % 4 == 0,
    ensures
        tail@.len() == padding + block.checksum@.len(),
        forall|i: int| 0 <= i < padding ==> tail@[i] == 0,
        tail@.skip(padding) == block.checksum@,
        final(writer).index().drop_last() == old(writer).index(),
        ({
            let sum: int = match old(writer).settings().check_type {
                CheckType::NoCheck => 0,
                CheckType::Crc32 => 4,
                CheckType::Crc64 => 8,
                CheckType::Sha256 => 32,
            };
            let record = final(writer).index().last();
            &&& record.unpadded_size == header_size + block.compressed_data@.len() + sum
            &&& record.uncompressed_size == block.uncompressed_size
        }),
        final(writer).total() == old(writer).total() + block.uncompressed_size,
{
    assert(super::block::padding_for(block.compressed_data@.len() as int) == padding);
    assert(tail@.skip(padding) =~= block.checksum@);
    assert(final(writer).index().drop_last() =~= old(writer).index());
}

} // verus!
