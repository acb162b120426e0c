//! What a multi-threaded LZIP reader decides.

use vstd::prelude::*;

use super::members::LZIPMember;
use crate::error::Error;
use crate::mt::order::Order;
use crate::mt::workers::{clamp_workers, QUEUE_LIMIT};

verus! {

/// What a multi-threaded reader is doing.
#[derive(Debug, Clone, Copy, PartialEq, Eq, Structural)]
pub enum State {
    /// Dispatching members to worker threads.
    Dispatching,
    /// All members dispatched, waiting for workers to complete.
    Draining,
    /// All data has been decompressed and returned. The stream is exhausted.
    Finished,
    /// A fatal error occurred in either the reader or a worker thread.
    Error,
}

/// What a reader that wants the next chunk does.
pub enum ChunkStep {
    /// This is the next chunk.
    Chunk(Vec<u8>),
    /// There are no more chunks.
    End,
    /// The reader fails.
    Fail(Error),
    /// Look whether a worker is done, without waiting.
    TryReceive,
    /// Wait for a worker.
    Receive,
}

/// What a reader does when no worker is done.
#[derive(Debug, Clone, Copy, PartialEq, Eq, Structural)]
pub enum DispatchStep {
    /// Read this member and queue it under this number.
    Dispatch(u64, LZIPMember),
    /// All members have been queued.
    AllDispatched,
    /// The queue is full: wait for a worker.
    Wait,
}

/// The state of a multi-threaded LZIP decompressor.
pub struct LZIPReaderMT {
    members: Vec<LZIPMember>,
    next_sequence_to_dispatch: u64,
    last_sequence_id: Option<u64>,
    order: Order<Vec<u8>>,
    current_chunk: Vec<u8>,
    chunk_pos: usize,
    state: State,
    max_workers: u32,
    deserted: Ghost<bool>,
}

impl LZIPReaderMT {
    /// The members of the file.
    pub closed spec fn file_members(&self) -> Seq<LZIPMember> {
        self.members@
    }

    /// How many members have been queued.
    pub closed spec fn dispatched(&self) -> int {
        self.next_sequence_to_dispatch as int
    }

    /// The number of the last member, once all have been queued.
    pub closed spec fn last(&self) -> Option<u64> {
        self.last_sequence_id
    }

    /// The chunks that have come.
    pub closed spec fn chunks(&self) -> Order<Vec<u8>> {
        self.order
    }

    /// The rest of the chunk that is being read.
    pub closed spec fn unread(&self) -> Seq<u8> {
        self.current_chunk@.skip(self.chunk_pos as int)
    }

    /// What the reader is doing.
    pub closed spec fn phase(&self) -> State {
        self.state
    }

    /// The most workers that are started.
    pub closed spec fn worker_limit(&self) -> u32 {
        self.max_workers
    }

    /// All workers have gone at some time.
    pub closed spec fn lost_workers(&self) -> bool {
        self.deserted@
    }

    /// The position in the current chunk is in range.
    pub closed spec fn in_range(&self) -> bool {
        self.chunk_pos <= self.current_chunk@.len()
    }

    /// No more members are queued than there are. Once all have been, the last number is known. A
    /// reader that has its workers comes to its end only behind the last chunk.
    pub open spec fn wf(&self) -> bool {
        &&& self.in_range()
        &&& self.chunks().wf()
        &&& self.dispatched() <= self.file_members().len()
        &&& self.last() matches Some(last) ==> self.dispatched() == self.file_members().len()
            && last == if self.dispatched() == 0 {
            0
        } else {
            self.dispatched() - 1
        }
        &&& self.phase() == State::Draining && !self.lost_workers() ==> self.last() is Some
        &&& self.phase() == State::Finished && !self.lost_workers() ==> self.last() is Some
            && self.chunks().next_number() > self.last()->0
    }

    /// All but the phase, the last number and the count of queued members is the same.
    pub open spec fn same_data(&self, other: &Self) -> bool {
        &&& self.file_members() == other.file_members()
        &&& self.unread() == other.unread()
        &&& self.worker_limit() == other.worker_limit()
        &&& self.lost_workers() == other.lost_workers()
    }

    /// Creates a new multi-threaded LZIP reader.
    ///
    /// - `members`: The members of the file.
    /// - `num_workers`: The maximum number of worker threads for decompression. Currently capped
    ///   at 256 threads.
    pub fn new(members: Vec<LZIPMember>, num_workers: u32) -> (reader: Self)
        ensures
            reader.wf(),
            reader.file_members() == members@,
            reader.dispatched() == 0,
            reader.last() is None,
            reader.chunks().next_number() == 0,
            reader.chunks().arrived_numbers() == Set::<u64>::empty(),
            reader.chunks().waiting_chunks() == Map::<u64, Vec<u8>>::empty(),
            reader.chunks().handed_out() == Seq::<Vec<u8>>::empty(),
            reader.unread() == Seq::<u8>::empty(),
            reader.phase() == State::Dispatching,
            !reader.lost_workers(),
            reader.worker_limit() == if num_workers < 1 {
                1
            } else if num_workers > 256 {
                256
            } else {
                num_workers
            },
    {
        let reader = LZIPReaderMT {
            members,
            next_sequence_to_dispatch: 0,
            last_sequence_id: None,
            order: Order::new(),
            current_chunk: Vec::new(),
            chunk_pos: 0,
            state: State::Dispatching,
            max_workers: clamp_workers(num_workers),
            deserted: Ghost(false),
        };
        assert(reader.unread() =~= Seq::<u8>::empty());
        reader
    }

    /// The most workers that are started.
    pub fn max_workers(&self) -> (max_workers: u32)
        ensures
            max_workers == self.worker_limit(),
    {
        self.max_workers
    }

    /// Get the count of LZIP members found in the file.
    pub fn member_count(&self) -> (count: usize)
        ensures
            count == self.file_members().len(),
    {
        self.members.len()
    }

    /// The number of the chunk that is handed out next.
    pub fn next_sequence(&self) -> (sequence: u64)
        ensures
            sequence == self.chunks().next_number(),
    {
        self.order.next()
    }

    /// Decides how to get the next uncompressed chunk. `stored` is an error that was stored by a
    /// worker.
    pub fn next_chunk_step(&mut self, stored: Option<Error>) -> (step: ChunkStep)
        requires
            old(self).wf(),
            old(self).chunks().next_number() < u64::MAX,
        ensures
            final(self).wf(),
            final(self).same_data(old(self)),
            final(self).dispatched() == old(self).dispatched(),
            final(self).last() == old(self).last(),
            final(self).chunks().arrived_numbers() == old(self).chunks().arrived_numbers(),
            if old(self).chunks().waiting_chunks().contains_key(old(self).chunks().next_number()) {
                let chunk = old(self).chunks().waiting_chunks()[old(self).chunks().next_number()];
                &&& step == ChunkStep::Chunk(chunk)
                &&& final(self).chunks().next_number() == old(self).chunks().next_number() + 1
                &&& final(self).chunks().handed_out() == old(self).chunks().handed_out().push(
                    chunk,
                )
                &&& final(self).chunks().waiting_chunks()
                    == old(self).chunks().waiting_chunks().remove(
                    old(self).chunks().next_number(),
                )
                &&& final(self).phase() == old(self).phase()
            } else {
                &&& final(self).chunks().next_number() == old(self).chunks().next_number()
                &&& final(self).chunks().handed_out() == old(self).chunks().handed_out()
                &&& final(self).chunks().waiting_chunks() == old(self).chunks().waiting_chunks()
                &&& match stored {
                    Some(error) => {
                        &&& step == ChunkStep::Fail(error)
                        &&& final(self).phase() == State::Error
                    },
                    None => match old(self).phase() {
                        State::Dispatching => {
                            &&& step == ChunkStep::TryReceive
                            &&& final(self).phase() == State::Dispatching
                        },
                        State::Draining => if old(self).last() matches Some(last)
                            && old(self).chunks().next_number() > last {
                            &&& step == ChunkStep::End
                            &&& final(self).phase() == State::Finished
                        } else {
                            &&& step == ChunkStep::Receive
                            &&& final(self).phase() == State::Draining
                        },
                        State::Finished => {
                            &&& step == ChunkStep::End
                            &&& final(self).phase() == State::Finished
                        },
                        State::Error => {
                            &&& step == ChunkStep::Fail(
                                Error::Other("decompression failed with an unknown error"),
                            )
                            &&& final(self).phase() == State::Error
                        },
                    },
                }
            },
    {
        if let Some(chunk) = self.order.take_next() {
            return ChunkStep::Chunk(chunk);
        }
        if let Some(error) = stored {
            self.state = State::Error;
            return ChunkStep::Fail(error);
        }
        match self.state {
            State::Dispatching => ChunkStep::TryReceive,
            State::Draining => {
                if let Some(last) = self.last_sequence_id {
                    if self.order.next() > last {
                        self.state = State::Finished;
                        return ChunkStep::End;
                    }
                }
                ChunkStep::Receive
            },
            State::Finished => ChunkStep::End,
            State::Error => ChunkStep::Fail(
                Error::Other("decompression failed with an unknown error"),
            ),
        }
    }

    /// A chunk has come. It is handed out at once if it is the next one.
    pub fn received(&mut self, sequence: u64, chunk: Vec<u8>) -> (out: Option<Vec<u8>>)
        requires
            old(self).wf(),
            old(self).chunks().next_number() < u64::MAX,
        ensures
            final(self).wf(),
            final(self).same_data(old(self)),
            final(self).dispatched() == old(self).dispatched(),
            final(self).last() == old(self).last(),
            final(self).phase() == old(self).phase(),
            final(self).chunks().arrived_numbers() == old(self).chunks().arrived_numbers().insert(
                sequence,
            ),
            if sequence == old(self).chunks().next_number() {
                &&& out == Some(chunk)
                &&& final(self).chunks().next_number() == old(self).chunks().next_number() + 1
                &&& final(self).chunks().handed_out() == old(self).chunks().handed_out().push(
                    chunk,
                )
                &&& final(self).chunks().waiting_chunks() == old(self).chunks().waiting_chunks()
            } else {
                &&& out is None
                &&& final(self).chunks().next_number() == old(self).chunks().next_number()
                &&& final(self).chunks().handed_out() == old(self).chunks().handed_out()
                &&& final(self).chunks().waiting_chunks()
                    == old(self).chunks().waiting_chunks().insert(sequence, chunk)
            },
    {
        self.order.accept(sequence, chunk)
    }

    /// All workers are gone, so that no more chunks will come.
    pub fn disconnected(&mut self)
        requires
            old(self).wf(),
        ensures
            final(self).wf(),
            final(self).file_members() == old(self).file_members(),
            final(self).unread() == old(self).unread(),
            final(self).worker_limit() == old(self).worker_limit(),
            final(self).dispatched() == old(self).dispatched(),
            final(self).last() == old(self).last(),
            final(self).chunks() == old(self).chunks(),
            final(self).lost_workers(),
            final(self).phase() == match old(self).phase() {
                State::Dispatching => State::Draining,
                State::Draining => State::Finished,
                other => other,
            },
    {
        proof {
            self.deserted@ = true;
        }
        match self.state {
            State::Dispatching => {
                self.state = State::Draining;
            },
            State::Draining => {
                self.state = State::Finished;
            },
            _ => {},
        }
    }

    /// Decides what to do while no worker is done and `queue_len` members are queued.
    pub fn next_dispatch_step(&mut self, queue_len: usize) -> (step: DispatchStep)
        requires
            old(self).wf(),
            old(self).phase() == State::Dispatching,
        ensures
            final(self).wf(),
            final(self).same_data(old(self)),
            final(self).dispatched() == old(self).dispatched(),
            final(self).chunks() == old(self).chunks(),
            if queue_len >= QUEUE_LIMIT {
                &&& step == DispatchStep::Wait
                &&& final(self).phase() == State::Dispatching
                &&& final(self).last() == old(self).last()
            } else if old(self).dispatched() < old(self).file_members().len() {
                &&& step == DispatchStep::Dispatch(
                    old(self).dispatched() as u64,
                    old(self).file_members()[old(self).dispatched()],
                )
                &&& final(self).phase() == State::Dispatching
                &&& final(self).last() == old(self).last()
            } else {
                &&& step == DispatchStep::AllDispatched
                &&& final(self).phase() == State::Draining
                &&& final(self).last() == Some(
                    if old(self).dispatched() == 0 {
                        0
                    } else {
                        (old(self).dispatched() - 1) as u64
                    },
                )
            },
    {
        if queue_len >= QUEUE_LIMIT {
            return DispatchStep::Wait;
        }
        let sequence: u64 = self.next_sequence_to_dispatch;
        assert(sequence <= self.members.len());
        if sequence < self.members.len() as u64 {
            return DispatchStep::Dispatch(sequence, self.members[sequence as usize]);
        }
        self.last_sequence_id = Some(if sequence == 0 { 0 } else { sequence - 1 });
        self.state = State::Draining;
        DispatchStep::AllDispatched
    }

    /// The next member has been queued.
    pub fn member_dispatched(&mut self)
        requires
            old(self).wf(),
            old(self).dispatched() < old(self).file_members().len(),
        ensures
            final(self).wf(),
            final(self).same_data(old(self)),
            final(self).dispatched() == old(self).dispatched() + 1,
            final(self).last() == old(self).last(),
            final(self).chunks() == old(self).chunks(),
            final(self).phase() == old(self).phase(),
    {
        assert(self.next_sequence_to_dispatch < self.members.len());
        self.next_sequence_to_dispatch = self.next_sequence_to_dispatch + 1;
    }

    /// The next member could not be read or queued.
    pub fn dispatch_failed(&mut self)
        requires
            old(self).wf(),
        ensures
            final(self).wf(),
            final(self).same_data(old(self)),
            final(self).dispatched() == old(self).dispatched(),
            final(self).last() == old(self).last(),
            final(self).chunks() == old(self).chunks(),
            final(self).phase() == State::Error,
    {
        self.state = State::Error;
    }

    /// The error when the queue takes no more members.
    pub fn queue_closed_error(&self) -> (error: Error)
        ensures
            error == Error::BrokenPipe("Worker threads have shut down"),
    {
        Error::BrokenPipe("Worker threads have shut down")
    }

    /// Reads from the current chunk, and returns how many bytes.
    pub fn read(&mut self, buf: &mut [u8]) -> (read: usize)
        requires
            old(self).wf(),
        ensures
            final(self).wf(),
            final(self).file_members() == old(self).file_members(),
            final(self).worker_limit() == old(self).worker_limit(),
            final(self).lost_workers() == old(self).lost_workers(),
            final(self).dispatched() == old(self).dispatched(),
            final(self).last() == old(self).last(),
            final(self).chunks() == old(self).chunks(),
            final(self).phase() == old(self).phase(),
            read == if old(buf)@.len() < old(self).unread().len() {
                old(buf)@.len()
            } else {
                old(self).unread().len()
            },
            final(buf)@ == old(self).unread().take(read as int) + old(buf)@.skip(read as int),
            final(self).unread() == old(self).unread().skip(read as int),
    {
        let left: usize = self.current_chunk.len() - self.chunk_pos;
        let count: usize = if buf.len() < left { buf.len() } else { left };
        let mut i: usize = 0;
        while i < count
            invariant
                i <= count,
                count <= buf@.len(),
                *self == *old(self),
                self.chunk_pos + count <= self.current_chunk.len(),
                buf@.len() == old(buf)@.len(),
                forall|j: int|
                    0 <= j < buf@.len() ==> #[trigger] buf@[j] == if j < i {
                        self.current_chunk@[self.chunk_pos + j]
                    } else {
                        old(buf)@[j]
                    },
            decreases count - i,
        {
            buf[i] = self.current_chunk[self.chunk_pos + i];
            i += 1;
        }
        self.chunk_pos = self.chunk_pos + count;
        assert(buf@ =~= old(self).unread().take(count as int) + old(buf)@.skip(count as int));
        assert(self.unread() =~= old(self).unread().skip(count as int));
        count
    }

    /// Goes on with the next chunk.
    pub fn set_chunk(&mut self, chunk: Vec<u8>)
        requires
            old(self).wf(),
        ensures
            final(self).wf(),
            final(self).file_members() == old(self).file_members(),
            final(self).worker_limit() == old(self).worker_limit(),
            final(self).lost_workers() == old(self).lost_workers(),
            final(self).dispatched() == old(self).dispatched(),
            final(self).last() == old(self).last(),
            final(self).chunks() == old(self).chunks(),
            final(self).phase() == old(self).phase(),
            final(self).unread() == chunk@,
    {
        self.current_chunk = chunk;
        self.chunk_pos = 0;
        assert(self.unread() =~= chunk@);
    }

    /// Once a reader that has not lost its workers has come to its end, no chunk is left to hand
    /// out: it stays at its end, behind exactly as many chunks as there are members.
    pub proof fn lemma_end_is_final(&self)
        requires
            self.wf(),
            self.file_members().len() > 0,
            self.phase() == State::Finished,
            !self.lost_workers(),
            forall|number: u64| #[trigger]
                self.chunks().arrived_numbers().contains(number) ==> number
                    < self.file_members().len(),
        ensures
            !self.chunks().waiting_chunks().contains_key(self.chunks().next_number()),
            self.chunks().next_number() == self.file_members().len(),
            self.chunks().handed_out().len() == self.file_members().len(),
    {
        let next = self.chunks().next_number();
        let count = self.file_members().len();
        if next > count {
            assert(self.chunks().arrived_numbers().contains(count as u64));
        }
        if self.chunks().waiting_chunks().contains_key(next) {
            assert(self.chunks().arrived_numbers().contains(next));
        }
    }

    /// A reader that comes to its end without having lost its workers has handed out the chunks of
    /// all members, in order, if every chunk is what `decompress` makes of the member with its
    /// number.
    pub proof fn lemma_end_means_all(&self, decompress: spec_fn(LZIPMember) -> Vec<u8>)
        requires
            self.wf(),
            self.file_members().len() > 0,
            self.phase() == State::Finished,
            !self.lost_workers(),
            forall|number: u64| #[trigger]
                self.chunks().arrived_numbers().contains(number) ==> number
                    < self.file_members().len(),
            self.chunks().in_order((|number: u64| decompress(self.file_members()[number as int]))),
        ensures
            self.chunks().handed_out() == self.file_members().map_values(decompress),
    {
        let next = self.chunks().next_number();
        let count = self.file_members().len();
        if next > count {
            assert(self.chunks().arrived_numbers().contains(count as u64));
        }
        assert(self.chunks().handed_out() =~= self.file_members().map_values(decompress));
    }
}

/// The chunks of the members come out one behind the other, whatever order they arrive in: if every
/// chunk that arrives is that of the member with its number, the next step hands out that of the
/// next member as soon as it has arrived, and none is skipped.
pub proof fn lemma_chunk_step_hands_out_in_order(
    reader: &mut LZIPReaderMT,
    stored: Option<Error>,
    step: ChunkStep,
    chunks: spec_fn(u64) -> Vec<u8>,
)
    requires
        old(reader).wf(),
        old(reader).chunks().in_order(chunks),
        call_ensures(LZIPReaderMT::next_chunk_step, (reader, stored), step),
    ensures
        ({
            let next = old(reader).chunks().next_number();
            let before = old(reader).chunks();
            let after = final(reader).chunks();
            &&& step is Chunk <==> before.waiting_chunks().contains_key(next)
            &&& step is Chunk ==> step->Chunk_0 == chunks(next)
            &&& after.handed_out() == if step is Chunk {
                before.handed_out().push(chunks(next))
            } else {
                before.handed_out()
            }
            &&& after.next_number() == after.handed_out().len()
            &&& after.in_order(chunks)
            &&& step is End && !old(reader).lost_workers() && old(reader).file_members().len() > 0
                ==> next >= old(reader).file_members().len()
            &&& step is Fail ==> stored is Some || old(reader).phase() == State::Error
            &&& step is End ==> final(reader).phase() == State::Finished
        }),
{
    if step is Chunk {
        crate::mt::order::lemma_take_next_in_order(
            &old(reader).chunks(),
            &final(reader).chunks(),
            chunks,
        );
    }
}

/// A chunk that arrives is handed out if it is the next one, and otherwise waits for its turn.
pub proof fn lemma_received_chunk_keeps_order(
    reader: &mut LZIPReaderMT,
    sequence: u64,
    out: Option<Vec<u8>>,
    chunks: spec_fn(u64) -> Vec<u8>,
)
    requires
        old(reader).wf(),
        old(reader).chunks().in_order(chunks),
        call_ensures(LZIPReaderMT::received, (reader, sequence, chunks(sequence)), out),
    ensures
        out == if sequence == old(reader).chunks().next_number() {
            Some(chunks(sequence))
        } else {
            None
        },
        final(reader).chunks().in_order(chunks),
        final(reader).chunks().next_number() == final(reader).chunks().handed_out().len(),
        out is None ==> final(reader).chunks().waiting_chunks().contains_key(sequence),
{
    crate::mt::order::lemma_accept_in_order(
        &old(reader).chunks(),
        &final(reader).chunks(),
        sequence,
        chunks,
    );
}

/// Members are queued one behind the other, each with its own number, until there are no more.
pub proof fn lemma_members_are_dispatched_in_order(
    reader: &mut LZIPReaderMT,
    queue_len: usize,
    step: DispatchStep,
)
    requires
        old(reader).wf(),
        old(reader).phase() == State::Dispatching,
        call_ensures(LZIPReaderMT::next_dispatch_step, (reader, queue_len), step),
    ensures
        match step {
            DispatchStep::Dispatch(number, member) => {
                &&& number == old(reader).dispatched()
                &&& number < old(reader).file_members().len()
                &&& member == old(reader).file_members()[number as int]
            },
            DispatchStep::AllDispatched => old(reader).dispatched()
                == old(reader).file_members().len(),
            DispatchStep::Wait => queue_len > 0,
        },
        queue_len == 0 && old(reader).dispatched() < old(reader).file_members().len() ==> step
            is Dispatch,
        final(reader).file_members() == old(reader).file_members(),
{
}

/// Reading gets the bytes of the current chunk in their order, as many as fit.
pub proof fn lemma_read_gets_chunk(reader: &mut LZIPReaderMT, buf: &mut [u8], read: usize)
    requires
        old(reader).wf(),
        call_ensures(LZIPReaderMT::read, (reader, buf), read),
    ensures
        read <= old(buf)@.len(),
        read <= old(reader).unread().len(),
        read == old(buf)@.len() || read == old(reader).unread().len(),
        final(buf)@.take(read as int) + final(reader).unread() == old(reader).unread(),
        final(buf)@.skip(read as int) == old(buf)@.skip(read as int),
{
    assert(final(buf)@.take(read as int) + final(reader).unread() =~= old(reader).unread());
    assert(final(buf)@.skip(read as int) =~= old(buf)@.skip(read as int));
}

} // verus!
