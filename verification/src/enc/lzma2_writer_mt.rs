//! What a multi-threaded LZMA2 writer decides.

use vstd::prelude::*;

use crate::error::Error;
use crate::mt::collector::{Collector, LostChunk, PullStep, SendStep, State};
use crate::mt::splitter::Splitter;
use crate::mt::workers::clamp_workers;
use crate::options::{clamp_size, LZMA2Options, LZMAOptions};

verus! {

/// The control byte that ends an LZMA2 stream.
pub const END_OF_STREAM: u8 = 0x00;

/// The state of a multi-threaded LZMA2 compressor.
pub struct LZMA2WriterMT {
    options: LZMA2Options,
    splitter: Splitter,
    collector: Collector<Vec<u8>>,
    max_workers: u32,
    in_hand: bool,
}

impl LZMA2WriterMT {
    /// The options.
    pub closed spec fn settings(&self) -> LZMA2Options {
        self.options
    }

    /// The input that has been cut up.
    pub closed spec fn input(&self) -> Splitter {
        self.splitter
    }

    /// The results that have come.
    pub closed spec fn results(&self) -> Collector<Vec<u8>> {
        self.collector
    }

    /// A unit of work has been taken but not queued yet.
    pub closed spec fn holds_work(&self) -> bool {
        self.in_hand
    }

    /// The most workers that are started.
    pub closed spec fn worker_limit(&self) -> u32 {
        self.max_workers
    }

    /// The number of units is that of the numbers that were given out.
    pub open spec fn wf(&self) -> bool {
        &&& self.input().wf()
        &&& self.results().wf()
        &&& self.input().taken().len() == self.results().next_sequence_to_dispatch
            + if self.holds_work() {
            1int
        } else {
            0
        }
    }

    /// Creates a new multi-threaded LZMA2 writer.
    ///
    /// - `options`: The LZMA2 options used for compressing. Stream size must be set when using the
    ///   multi-threaded encoder. If you need just one stream, then use the single-threaded encoder.
    /// - `num_workers`: The maximum number of worker threads for compression.
    ///   Currently capped at 256 Threads.
    pub fn new(options: LZMA2Options, num_workers: u32) -> (result: Result<Self, Error>)
        requires
            options.stream_size != Some(0u64) || options.lzma_options.dict_size > 0,
        ensures
            match result {
                Ok(writer) => {
                    &&& options.stream_size is Some
                    &&& writer.wf()
                    &&& writer.settings() == options
                    &&& writer.input().size() == crate::options::clamped_size(
                        options.stream_size->0,
                        options.lzma_options.dict_size,
                    )
                    &&& writer.input().all_input() == Seq::<u8>::empty()
                    &&& writer.input().taken() == Seq::<Seq<u8>>::empty()
                    &&& writer.input().collected() == Seq::<u8>::empty()
                    &&& writer.results().state == State::Writing
                    &&& writer.results().next_sequence_to_dispatch == 0
                    &&& writer.results().order.next_number() == 0
                    &&& writer.results().order.arrived_numbers() == Set::<u64>::empty()
                    &&& writer.results().order.handed_out() == Seq::<Vec<u8>>::empty()
                    &&& !writer.holds_work()
                    &&& writer.worker_limit() == if num_workers < 1 {
                        1
                    } else if num_workers > 256 {
                        256
                    } else {
                        num_workers
                    }
                },
                Err(error) => match options.stream_size {
                    None => error == Error::InvalidInput("stream size must be set"),
                    Some(size) => {
                        &&& error == Error::InvalidInput("stream size bigger than usize")
                        &&& crate::options::clamped_size(size, options.lzma_options.dict_size)
                            > usize::MAX
                    },
                },
            },
    {
        let max_workers: u32 = clamp_workers(num_workers);
        let stream_size: u64 = match options.stream_size {
            None => {
                return Err(Error::InvalidInput("stream size must be set"));
            },
            Some(stream_size) => clamp_size(stream_size, options.lzma_options.dict_size),
        };
        if stream_size > usize::MAX as u64 {
            return Err(Error::InvalidInput("stream size bigger than usize"));
        }
        Ok(
            LZMA2WriterMT {
                options,
                splitter: Splitter::new(stream_size as usize),
                collector: Collector::new(),
                max_workers,
                in_hand: false,
            },
        )
    }

    /// The most workers that are started.
    pub fn max_workers(&self) -> (max_workers: u32)
        ensures
            max_workers == self.worker_limit(),
    {
        self.max_workers
    }

    /// The options for the workers. Only the first part of a stream could use a preset dictionary,
    /// so they get none.
    pub fn worker_options(&self) -> (options: LZMA2Options)
        ensures
            options == (LZMA2Options {
                lzma_options: LZMAOptions { preset_dict: None, ..self.settings().lzma_options },
                stream_size: self.settings().stream_size,
            }),
    {
        let lzma = &self.options.lzma_options;
        LZMA2Options {
            lzma_options: LZMAOptions {
                dict_size: lzma.dict_size,
                lc: lzma.lc,
                lp: lzma.lp,
                pb: lzma.pb,
                mode: lzma.mode,
                nice_len: lzma.nice_len,
                mf: lzma.mf,
                depth_limit: lzma.depth_limit,
                preset_dict: None,
            },
            stream_size: self.options.stream_size,
        }
    }

    /// Whether more input can come.
    pub fn is_writing(&self) -> (writing: bool)
        ensures
            writing == (self.results().state == State::Writing),
    {
        self.collector.state == State::Writing
    }

    /// Whether there is anything to do for a write of `len` bytes.
    pub fn begin_write(&self, len: usize) -> (result: Result<bool, Error>)
        ensures
            result == if len == 0 {
                Ok::<bool, Error>(false)
            } else if self.results().state != State::Writing {
                Err(Error::InvalidInput("Cannot write after finishing"))
            } else {
                Ok(true)
            },
    {
        if len == 0 {
            return Ok(false);
        }
        if self.collector.state != State::Writing {
            return Err(Error::InvalidInput("Cannot write after finishing"));
        }
        Ok(true)
    }

    /// Takes as much of `buf` as belongs to the current unit of work.
    pub fn write(&mut self, buf: &[u8]) -> (taken: usize)
        requires
            old(self).wf(),
        ensures
            final(self).wf(),
            final(self).settings() == old(self).settings(),
            final(self).results() == old(self).results(),
            final(self).holds_work() == old(self).holds_work(),
            final(self).worker_limit() == old(self).worker_limit(),
            final(self).input().size() == old(self).input().size(),
            final(self).input().taken() == old(self).input().taken(),
            taken == if buf@.len() < old(self).input().size() - old(
                self,
            ).input().collected().len() {
                buf@.len() as int
            } else {
                old(self).input().size() - old(self).input().collected().len()
            },
            final(self).input().collected() == old(self).input().collected() + buf@.take(
                taken as int,
            ),
            final(self).input().all_input() == old(self).input().all_input() + buf@.take(
                taken as int,
            ),
    {
        self.splitter.fill(buf)
    }

    /// Whether the current unit of work is complete.
    pub fn unit_is_full(&self) -> (full: bool)
        ensures
            full == (self.input().collected().len() >= self.input().size()),
    {
        self.splitter.is_full()
    }

    /// Decides how to send the current unit of work while `queue_len` units are queued. Nothing is
    /// sent behind a unit that was refused.
    pub fn next_send_step(&self, queue_len: usize) -> (step: SendStep)
        ensures
            step == if self.input().collected().len() == 0 || self.holds_work() {
                SendStep::Idle
            } else if queue_len >= 4 {
                SendStep::Drain
            } else {
                SendStep::Push
            },
    {
        let unit_len: usize = if self.splitter.is_empty() || self.in_hand { 0 } else { 1 };
        self.collector.next_send_step(unit_len, queue_len)
    }

    /// What to do when no result came while the queue is full.
    pub fn drained_nothing(&self) -> (result: Result<(), Error>)
        ensures
            result == if self.results().state != State::Writing {
                Err::<(), Error>(
                    Error::BrokenPipe("Stream has been closed or is in an error state."),
                )
            } else {
                Ok(())
            },
    {
        if self.collector.state != State::Writing {
            return Err(Error::BrokenPipe("Stream has been closed or is in an error state."));
        }
        Ok(())
    }

    /// Takes the current unit of work, with its number.
    pub fn take_work(&mut self) -> (work: (u64, Vec<u8>))
        requires
            old(self).wf(),
            !old(self).holds_work(),
            old(self).input().collected().len() > 0,
        ensures
            final(self).wf(),
            final(self).settings() == old(self).settings(),
            final(self).results() == old(self).results(),
            final(self).holds_work(),
            final(self).worker_limit() == old(self).worker_limit(),
            final(self).input().size() == old(self).input().size(),
            work.0 == old(self).results().next_sequence_to_dispatch,
            work.1@ == old(self).input().collected(),
            final(self).input().collected() == Seq::<u8>::empty(),
            final(self).input().taken() == old(self).input().taken().push(work.1@),
            final(self).input().all_input() == old(self).input().all_input(),
    {
        self.in_hand = true;
        (self.collector.next_sequence_to_dispatch, self.splitter.take_unit())
    }

    /// The unit has been queued.
    pub fn work_pushed(&mut self)
        requires
            old(self).wf(),
            old(self).holds_work(),
            old(self).results().next_sequence_to_dispatch < u64::MAX,
        ensures
            final(self).wf(),
            final(self).settings() == old(self).settings(),
            final(self).input() == old(self).input(),
            !final(self).holds_work(),
            final(self).worker_limit() == old(self).worker_limit(),
            final(self).results() == (Collector {
                next_sequence_to_dispatch: (old(self).results().next_sequence_to_dispatch
                    + 1) as u64,
                ..old(self).results()
            }),
    {
        self.in_hand = false;
        self.collector.dispatched();
    }

    /// The queue takes no more work. Returns the error to store and to fail with.
    pub fn work_refused(&mut self) -> (error: Error)
        requires
            old(self).wf(),
        ensures
            final(self).wf(),
            error == Error::BrokenPipe("Worker threads have shut down"),
            final(self).settings() == old(self).settings(),
            final(self).input() == old(self).input(),
            final(self).holds_work() == old(self).holds_work(),
            final(self).worker_limit() == old(self).worker_limit(),
            final(self).results() == (Collector { state: State::Error, ..old(self).results() }),
    {
        self.collector.queue_closed();
        Error::BrokenPipe("Worker threads have shut down")
    }

    /// Decides how to get the next compressed chunk. `stored` is an error that was stored by a
    /// worker. While writing, the writer waits for a worker only if it is `blocking`.
    pub fn next_chunk_step(&mut self, stored: Option<Error>, blocking: bool) -> (step: PullStep<
        Vec<u8>,
    >)
        requires
            old(self).wf(),
            old(self).results().order.next_number() < u64::MAX,
        ensures
            final(self).wf(),
            final(self).settings() == old(self).settings(),
            final(self).input() == old(self).input(),
            final(self).holds_work() == old(self).holds_work(),
            final(self).worker_limit() == old(self).worker_limit(),
            final(self).results().pulled_from(
                &old(self).results(),
                stored,
                "Compression failed with an unknown error",
                blocking,
                &step,
            ),
    {
        self.collector.next_step(stored, "Compression failed with an unknown error", blocking)
    }

    /// A compressed chunk has come. It is handed out at once if it is the next one.
    pub fn received(&mut self, sequence: u64, chunk: Vec<u8>) -> (out: Option<Vec<u8>>)
        requires
            old(self).wf(),
            old(self).results().order.next_number() < u64::MAX,
        ensures
            final(self).wf(),
            final(self).settings() == old(self).settings(),
            final(self).input() == old(self).input(),
            final(self).holds_work() == old(self).holds_work(),
            final(self).worker_limit() == old(self).worker_limit(),
            final(self).results().received_from(&old(self).results(), sequence, chunk, &out),
    {
        self.collector.received(sequence, chunk)
    }

    /// All workers are gone.
    pub fn disconnected(&mut self) -> (lost: Option<LostChunk>)
        requires
            old(self).wf(),
            old(self).results().state == State::Writing || old(self).results().state
                == State::Finishing,
        ensures
            final(self).wf(),
            final(self).settings() == old(self).settings(),
            final(self).input() == old(self).input(),
            final(self).holds_work() == old(self).holds_work(),
            final(self).worker_limit() == old(self).worker_limit(),
            final(self).results().disconnected_from(&old(self).results(), lost),
    {
        self.collector.disconnected()
    }

    /// No more input will come. Returns whether any did; if so, all results are to be written
    /// before the stream ends.
    pub fn finish(&mut self) -> (any: bool)
        requires
            old(self).wf(),
        ensures
            final(self).wf(),
            final(self).settings() == old(self).settings(),
            final(self).input() == old(self).input(),
            final(self).holds_work() == old(self).holds_work(),
            final(self).worker_limit() == old(self).worker_limit(),
            any == (old(self).results().next_sequence_to_dispatch > 0),
            final(self).results() == if any {
                Collector {
                    last_sequence_id: Some(
                        (old(self).results().next_sequence_to_dispatch - 1) as u64,
                    ),
                    state: State::Finishing,
                    ..old(self).results()
                }
            } else {
                old(self).results()
            },
    {
        self.collector.finish()
    }

    /// The number that a flush waits for.
    pub fn flush_target(&self) -> (sequence: u64)
        ensures
            sequence == self.results().next_sequence_to_dispatch,
    {
        self.collector.next_sequence_to_dispatch
    }

    /// Whether a flush has to wait for more results.
    pub fn must_wait(&self, sequence_to_wait: u64) -> (wait: bool)
        ensures
            wait == (self.results().order.next_number() < sequence_to_wait),
    {
        self.collector.must_wait(sequence_to_wait)
    }

    /// The error of a flush that gets no more results.
    pub fn flush_ended(&self) -> (error: Error)
        ensures
            error == Error::BrokenPipe("Compression stream ended unexpectedly during flush"),
    {
        Error::BrokenPipe("Compression stream ended unexpectedly during flush")
    }

    /// A finished stream holds the compressed form of all the input: if every result is what
    /// `compress` makes of the unit with its number, then the results that were handed out are
    /// those of all units, in order, and the units make up the input.
    pub proof fn lemma_finished_stream(&self, compress: spec_fn(Seq<u8>) -> Vec<u8>)
        requires
            self.wf(),
            !self.holds_work(),
            self.input().collected().len() == 0,
            self.results().state is Finished,
            self.results().next_sequence_to_dispatch > 0,
            self.results().last_sequence_id == Some(
                (self.results().next_sequence_to_dispatch - 1) as u64,
            ),
            forall|number: u64| #[trigger]
                self.results().order.arrived_numbers().contains(number) ==> number
                    < self.results().next_sequence_to_dispatch,
            self.results().order.in_order(
                (|number: u64| compress(self.input().taken()[number as int])),
            ),
        ensures
            self.results().order.handed_out() == self.input().taken().map_values(compress),
            crate::mt::splitter::joined(self.input().taken()) == self.input().all_input(),
    {
        let chunks = |number: u64| compress(self.input().taken()[number as int]);
        self.results().lemma_end_means_all(chunks);
        assert(self.results().order.handed_out() =~= self.input().taken().map_values(compress));
        assert(self.input().collected() =~= Seq::<u8>::empty());
        assert(crate::mt::splitter::joined(self.input().taken()) + Seq::<u8>::empty()
            =~= crate::mt::splitter::joined(self.input().taken()));
    }
}

} // verus!
