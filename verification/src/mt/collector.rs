//! The order in which a multi-threaded writer gets its results.

use vstd::prelude::*;

use super::order::Order;
use super::workers::QUEUE_LIMIT;
use crate::error::Error;

verus! {

/// What a multi-threaded writer is doing.
#[derive(Debug, Clone, Copy, PartialEq, Eq, Structural)]
pub enum State {
    /// Actively accepting input data and dispatching work to threads.
    Writing,
    /// No more input data will come. We are now waiting for the remaining
    /// work to be completed by the worker threads.
    Finishing,
    /// All data has been compressed and written. The stream is finished.
    Finished,
    /// A fatal error occurred in either the writer or a worker thread.
    Error,
}

/// What a writer that wants the next result does.
pub enum PullStep<T> {
    /// This is the next result.
    Chunk(T),
    /// There are no more results.
    End,
    /// The writer fails.
    Fail(Error),
    /// Look whether a worker is done, without waiting.
    TryReceive,
    /// Wait for a worker.
    Receive,
}

/// What a writer that has a unit of work to send does.
#[derive(Debug, Clone, Copy, PartialEq, Eq, Structural)]
pub enum SendStep {
    /// There is nothing to send.
    Idle,
    /// The queue is full: get a result first.
    Drain,
    /// Put the unit into the queue.
    Push,
}

/// A result that will never come.
#[derive(Debug, Clone, Copy, PartialEq, Eq, Structural)]
pub struct LostChunk {
    /// The number of the last result that is expected.
    pub last: u64,
    /// The number of the last result that came.
    pub got: u64,
}

/// Keeps track of the units of work that were sent and of their results.
pub struct Collector<T> {
    pub order: Order<T>,
    pub next_sequence_to_dispatch: u64,
    pub last_sequence_id: Option<u64>,
    pub state: State,
}

impl<T> Collector<T> {
    /// Once finished, all results have been handed out.
    pub open spec fn wf(&self) -> bool {
        &&& self.order.wf()
        &&& self.state is Finished ==> self.last_sequence_id is Some && self.order.next_number()
            > self.last_sequence_id->0
    }

    /// All results up to the last one have been handed out.
    pub open spec fn is_done(&self) -> bool {
        &&& self.last_sequence_id is Some
        &&& self.order.next_number() > self.last_sequence_id->0
        &&& self.order.waiting_chunks().is_empty()
    }

    /// `self` is what `before` becomes when it decides to take `step`. While writing it waits for a
    /// worker only if it is `blocking`.
    pub open spec fn pulled_from(
        &self,
        before: &Self,
        stored: Option<Error>,
        unknown: &'static str,
        blocking: bool,
        step: &PullStep<T>,
    ) -> bool {
        &&& self.next_sequence_to_dispatch == before.next_sequence_to_dispatch
        &&& self.last_sequence_id == before.last_sequence_id
        &&& self.order.arrived_numbers() == before.order.arrived_numbers()
        &&& if before.order.waiting_chunks().contains_key(before.order.next_number()) {
            let chunk = before.order.waiting_chunks()[before.order.next_number()];
            &&& *step == PullStep::Chunk(chunk)
            &&& self.order.next_number() == before.order.next_number() + 1
            &&& self.order.handed_out() == before.order.handed_out().push(chunk)
            &&& self.order.waiting_chunks() == before.order.waiting_chunks().remove(
                before.order.next_number(),
            )
            &&& self.state == before.state
        } else {
            &&& self.order.next_number() == before.order.next_number()
            &&& self.order.handed_out() == before.order.handed_out()
            &&& self.order.waiting_chunks() == before.order.waiting_chunks()
            &&& match stored {
                Some(error) => {
                    &&& *step == PullStep::<T>::Fail(error)
                    &&& self.state == State::Error
                },
                None => match before.state {
                    State::Writing => {
                        &&& *step == if blocking {
                            PullStep::<T>::Receive
                        } else {
                            PullStep::TryReceive
                        }
                        &&& self.state == State::Writing
                    },
                    State::Finishing => if before.is_done() {
                        &&& *step == PullStep::<T>::End
                        &&& self.state == State::Finished
                    } else {
                        &&& *step == PullStep::<T>::Receive
                        &&& self.state == State::Finishing
                    },
                    State::Finished => {
                        &&& *step == PullStep::<T>::End
                        &&& self.state == State::Finished
                    },
                    State::Error => {
                        &&& *step == PullStep::<T>::Fail(Error::Other(unknown))
                        &&& self.state == State::Error
                    },
                },
            }
        }
    }

    /// `self` is what `before` becomes when a result comes, and `out` is handed out at once.
    pub open spec fn received_from(
        &self,
        before: &Self,
        sequence: u64,
        chunk: T,
        out: &Option<T>,
    ) -> bool {
        &&& self.next_sequence_to_dispatch == before.next_sequence_to_dispatch
        &&& self.last_sequence_id == before.last_sequence_id
        &&& self.state == before.state
        &&& self.order.arrived_numbers() == before.order.arrived_numbers().insert(sequence)
        &&& if sequence == before.order.next_number() {
            &&& *out == Some(chunk)
            &&& self.order.next_number() == before.order.next_number() + 1
            &&& self.order.handed_out() == before.order.handed_out().push(chunk)
            &&& self.order.waiting_chunks() == before.order.waiting_chunks()
        } else {
            &&& *out is None
            &&& self.order.next_number() == before.order.next_number()
            &&& self.order.handed_out() == before.order.handed_out()
            &&& self.order.waiting_chunks() == before.order.waiting_chunks().insert(
                sequence,
                chunk,
            )
        }
    }

    /// `self` is what `before` becomes when all workers are gone.
    pub open spec fn disconnected_from(&self, before: &Self, lost: Option<LostChunk>) -> bool {
        let next = before.order.next_number();
        let is_lost = before.state == State::Finishing && before.last_sequence_id is Some && next
            <= before.last_sequence_id->0 && before.order.waiting_chunks().is_empty();
        &&& self.order == before.order
        &&& self.next_sequence_to_dispatch == before.next_sequence_to_dispatch
        &&& self.last_sequence_id == before.last_sequence_id
        &&& if is_lost {
            &&& lost == Some(
                LostChunk {
                    last: before.last_sequence_id->0,
                    got: if next == 0 {
                        0
                    } else {
                        (next - 1) as u64
                    },
                },
            )
            &&& self.state == State::Error
        } else {
            &&& lost is None
            &&& self.state == State::Finishing
        }
    }

    /// Nothing has been sent yet.
    pub fn new() -> (collector: Self)
        ensures
            collector.wf(),
            collector.order.next_number() == 0,
            collector.order.waiting_chunks() == Map::<u64, T>::empty(),
            collector.order.arrived_numbers() == Set::<u64>::empty(),
            collector.order.handed_out() == Seq::<T>::empty(),
            collector.next_sequence_to_dispatch == 0,
            collector.last_sequence_id is None,
            collector.state == State::Writing,
    {
        Collector {
            order: Order::new(),
            next_sequence_to_dispatch: 0,
            last_sequence_id: None,
            state: State::Writing,
        }
    }

    /// Decides how to get the next result: hand it out if it waits, fail with an error that was
    /// stored by a worker, or go by the state. `unknown` is the message of a failure without a
    /// stored error.
    pub fn next_step(
        &mut self,
        stored: Option<Error>,
        unknown: &'static str,
        blocking: bool,
    ) -> (step: PullStep<T>)
        requires
            old(self).wf(),
            old(self).order.next_number() < u64::MAX,
        ensures
            final(self).wf(),
            final(self).pulled_from(old(self), stored, unknown, blocking, &step),
    {
        if let Some(chunk) = self.order.take_next() {
            return PullStep::Chunk(chunk);
        }
        if let Some(error) = stored {
            self.state = State::Error;
            return PullStep::Fail(error);
        }
        match self.state {
            State::Writing => if blocking {
                PullStep::Receive
            } else {
                PullStep::TryReceive
            },
            State::Finishing => {
                if let Some(last) = self.last_sequence_id {
                    if self.order.next() > last && self.order.is_empty() {
                        self.state = State::Finished;
                        return PullStep::End;
                    }
                }
                PullStep::Receive
            },
            State::Finished => PullStep::End,
            State::Error => PullStep::Fail(Error::Other(unknown)),
        }
    }

    /// A result has come. It is handed out at once if it is the next one.
    pub fn received(&mut self, sequence: u64, chunk: T) -> (out: Option<T>)
        requires
            old(self).wf(),
            old(self).order.next_number() < u64::MAX,
        ensures
            final(self).wf(),
            final(self).received_from(old(self), sequence, chunk, &out),
    {
        self.order.accept(sequence, chunk)
    }

    /// All workers are gone, so that no more results will come. While writing, the remaining
    /// results are what waits; while finishing, it is an error if none waits but more are
    /// expected.
    pub fn disconnected(&mut self) -> (lost: Option<LostChunk>)
        requires
            old(self).wf(),
            old(self).state == State::Writing || old(self).state == State::Finishing,
        ensures
            final(self).wf(),
            final(self).disconnected_from(old(self), lost),
    {
        match self.state {
            State::Writing => {
                self.state = State::Finishing;
                None
            },
            _ => {
                if let Some(last) = self.last_sequence_id {
                    let next: u64 = self.order.next();
                    if next <= last && self.order.is_empty() {
                        self.state = State::Error;
                        return Some(LostChunk { last, got: if next == 0 { 0 } else { next - 1 } });
                    }
                }
                None
            },
        }
    }

    /// Decides what to do with `unit_len` bytes of work while `queue_len` units are queued.
    pub fn next_send_step(&self, unit_len: usize, queue_len: usize) -> (step: SendStep)
        ensures
            step == if unit_len == 0 {
                SendStep::Idle
            } else if queue_len >= QUEUE_LIMIT {
                SendStep::Drain
            } else {
                SendStep::Push
            },
    {
        if unit_len == 0 {
            SendStep::Idle
        } else if queue_len >= QUEUE_LIMIT {
            SendStep::Drain
        } else {
            SendStep::Push
        }
    }

    /// A unit has been put into the queue, under the number that is returned.
    pub fn dispatched(&mut self) -> (sequence: u64)
        requires
            old(self).wf(),
            old(self).next_sequence_to_dispatch < u64::MAX,
        ensures
            final(self).wf(),
            sequence == old(self).next_sequence_to_dispatch,
            final(self).next_sequence_to_dispatch == old(self).next_sequence_to_dispatch + 1,
            final(self).order == old(self).order,
            final(self).last_sequence_id == old(self).last_sequence_id,
            final(self).state == old(self).state,
    {
        let sequence: u64 = self.next_sequence_to_dispatch;
        self.next_sequence_to_dispatch = sequence + 1;
        sequence
    }

    /// The queue takes no more work.
    pub fn queue_closed(&mut self)
        requires
            old(self).wf(),
        ensures
            final(self).wf(),
            final(self).state == State::Error,
            final(self).order == old(self).order,
            final(self).next_sequence_to_dispatch == old(self).next_sequence_to_dispatch,
            final(self).last_sequence_id == old(self).last_sequence_id,
    {
        self.state = State::Error;
    }

    /// No more work will be sent. Returns whether any was.
    pub fn finish(&mut self) -> (any: bool)
        requires
            old(self).wf(),
        ensures
            final(self).wf(),
            any == (old(self).next_sequence_to_dispatch > 0),
            final(self).order == old(self).order,
            final(self).next_sequence_to_dispatch == old(self).next_sequence_to_dispatch,
            if any {
                &&& final(self).last_sequence_id == Some(
                    (old(self).next_sequence_to_dispatch - 1) as u64,
                )
                &&& final(self).state == State::Finishing
            } else {
                *final(self) == *old(self)
            },
    {
        if self.next_sequence_to_dispatch == 0 {
            return false;
        }
        self.last_sequence_id = Some(self.next_sequence_to_dispatch - 1);
        self.state = State::Finishing;
        true
    }

    /// Whether a flush has to wait for more results: it waits for all that were sent before it.
    pub fn must_wait(&self, sequence_to_wait: u64) -> (wait: bool)
        ensures
            wait == (self.order.next_number() < sequence_to_wait),
    {
        self.order.next() < sequence_to_wait
    }

    /// Results are pulled by their numbers, 0, 1, 2 and so on: one that is handed out has the next
    /// number, and as long as none is handed out, the next number stays the same. There is an end
    /// only once the writer has finished, and a look without waiting only if it is writing and not
    /// `blocking`.
    pub proof fn lemma_pull_in_order(
        before: Self,
        after: Self,
        stored: Option<Error>,
        unknown: &'static str,
        blocking: bool,
        step: PullStep<T>,
    )
        requires
            after.pulled_from(&before, stored, unknown, blocking, &step),
        ensures
            match step {
                PullStep::Chunk(chunk) => {
                    let next = before.order.next_number();
                    &&& before.order.waiting_chunks().contains_key(next)
                    &&& chunk == before.order.waiting_chunks()[next]
                    &&& after.order.next_number() == next + 1
                    &&& after.order.handed_out() == before.order.handed_out().push(chunk)
                    &&& after.state == before.state
                },
                _ => {
                    &&& after.order.next_number() == before.order.next_number()
                    &&& after.order.handed_out() == before.order.handed_out()
                },
            },
            step is End ==> after.state == State::Finished,
            step is TryReceive ==> !blocking && after.state == State::Writing,
            step is Fail ==> after.state == State::Error,
    {
    }

    /// A result that comes is handed out if it has the next number, and otherwise the next number
    /// stays the same.
    pub proof fn lemma_receive_in_order(
        before: Self,
        after: Self,
        sequence: u64,
        chunk: T,
        out: Option<T>,
    )
        requires
            after.received_from(&before, sequence, chunk, &out),
        ensures
            match out {
                Some(result) => {
                    &&& sequence == before.order.next_number()
                    &&& result == chunk
                    &&& after.order.next_number() == before.order.next_number() + 1
                },
                None => after.order.next_number() == before.order.next_number(),
            },
    {
    }

    /// A result that is due is never kept back, and none is lost: pulling hands out the next one if
    /// it waits, and leaves all others waiting. Without it, a stored error comes first, and then
    /// the state decides. A writer that is finishing ends as soon as the last result is out and
    /// nothing waits, and not before.
    pub proof fn lemma_pull_makes_progress(
        before: Self,
        after: Self,
        stored: Option<Error>,
        unknown: &'static str,
        blocking: bool,
        step: PullStep<T>,
    )
        requires
            after.pulled_from(&before, stored, unknown, blocking, &step),
        ensures
            before.order.waiting_chunks().contains_key(before.order.next_number()) <==> step
                is Chunk,
            forall|number: u64| #[trigger]
                before.order.waiting_chunks().contains_key(number) && !(step is Chunk && number
                    == before.order.next_number())
                    ==> after.order.waiting_chunks().contains_key(number)
                    && after.order.waiting_chunks()[number]
                    == before.order.waiting_chunks()[number],
            step !is Chunk ==> match stored {
                Some(error) => step == PullStep::<T>::Fail(error),
                None => match before.state {
                    State::Writing => step is Receive || step is TryReceive,
                    State::Finishing => if before.last_sequence_id is Some
                        && before.order.next_number() > before.last_sequence_id->0
                        && before.order.waiting_chunks().is_empty() {
                        step is End
                    } else {
                        step is Receive
                    },
                    State::Finished => step is End,
                    State::Error => step == PullStep::<T>::Fail(Error::Other(unknown)),
                },
            },
            blocking ==> step !is TryReceive,
            step is Receive && before.state == State::Writing ==> blocking,
    {
    }

    /// Pulling keeps the order: if every result is what `chunks` has under its number, those that
    /// were handed out are the first ones, one behind the other, before and after.
    pub proof fn lemma_pull_keeps_order(
        before: Self,
        after: Self,
        stored: Option<Error>,
        unknown: &'static str,
        blocking: bool,
        step: PullStep<T>,
        chunks: spec_fn(u64) -> T,
    )
        requires
            before.wf(),
            before.order.in_order(chunks),
            after.pulled_from(&before, stored, unknown, blocking, &step),
        ensures
            after.order.in_order(chunks),
            step matches PullStep::Chunk(chunk) ==> chunk == chunks(before.order.next_number()),
    {
        if step is Chunk {
            super::order::lemma_take_next_in_order(&before.order, &after.order, chunks);
        }
    }

    /// A result that comes keeps the order, whichever it is. It is handed out if it is due, and
    /// otherwise it waits under its number, and so do all that waited before.
    pub proof fn lemma_receive_keeps_order(
        before: Self,
        after: Self,
        sequence: u64,
        out: Option<T>,
        chunks: spec_fn(u64) -> T,
    )
        requires
            before.wf(),
            before.order.in_order(chunks),
            after.received_from(&before, sequence, chunks(sequence), &out),
        ensures
            after.order.in_order(chunks),
            out is Some <==> sequence == before.order.next_number(),
            out is Some ==> out == Some(chunks(sequence)),
            out is None ==> after.order.waiting_chunks().contains_key(sequence),
            forall|number: u64| #[trigger]
                before.order.waiting_chunks().contains_key(number)
                    ==> after.order.waiting_chunks().contains_key(number),
    {
        super::order::lemma_accept_in_order(&before.order, &after.order, sequence, chunks);
    }

    /// When a writer that has stopped sending work comes to its end, the results of all units have
    /// been handed out, in order, and nothing else has, provided that no result has a number that
    /// was not sent.
    pub proof fn lemma_end_means_all(&self, chunks: spec_fn(u64) -> T)
        requires
            self.wf(),
            self.order.in_order(chunks),
            self.state is Finished,
            self.next_sequence_to_dispatch > 0,
            self.last_sequence_id == Some((self.next_sequence_to_dispatch - 1) as u64),
            forall|number: u64| #[trigger]
                self.order.arrived_numbers().contains(number) ==> number
                    < self.next_sequence_to_dispatch,
        ensures
            self.order.handed_out() == Seq::new(
                self.next_sequence_to_dispatch as nat,
                |i: int| chunks(i as u64),
            ),
    {
        let next = self.order.next_number();
        let count = self.next_sequence_to_dispatch;
        if next > count {
            assert(self.order.arrived_numbers().contains(count));
        }
        assert(self.order.handed_out() =~= Seq::new(count as nat, |i: int| chunks(i as u64)));
    }
}

/// Pulling hands out the next result just if it waits, in the order of the numbers, and otherwise
/// fails with a stored error, or ends once the writer is finishing and the last result is out.
pub proof fn lemma_step_hands_out_in_order<T>(
    collector: &mut Collector<T>,
    stored: Option<Error>,
    unknown: &'static str,
    blocking: bool,
    step: PullStep<T>,
    chunks: spec_fn(u64) -> T,
)
    requires
        old(collector).wf(),
        old(collector).order.in_order(chunks),
        call_ensures(
            Collector::<T>::next_step,
            (collector, stored, unknown, blocking),
            step,
        ),
    ensures
        ({
            let before = old(collector).order;
            let after = final(collector).order;
            let next = before.next_number();
            &&& step is Chunk <==> before.waiting_chunks().contains_key(next)
            &&& step is Chunk ==> step->Chunk_0 == chunks(next)
            &&& after.next_number() == if step is Chunk {
                next + 1
            } else {
                next as int
            }
            &&& after.in_order(chunks)
            &&& step !is Chunk && stored is Some ==> step == PullStep::<T>::Fail(stored->0)
            &&& step is Fail ==> stored is Some || old(collector).state == State::Error
            &&& step is End ==> {
                &&& final(collector).state == State::Finished
                &&& old(collector).last_sequence_id is Some
                &&& next > old(collector).last_sequence_id->0
            }
            &&& step is TryReceive ==> !blocking && old(collector).state == State::Writing
        }),
{
    Collector::lemma_pull_keeps_order(
        *old(collector),
        *final(collector),
        stored,
        unknown,
        blocking,
        step,
        chunks,
    );
}

/// A result that comes is handed out if it is due, and otherwise waits under its number.
pub proof fn lemma_received_keeps_order<T>(
    collector: &mut Collector<T>,
    sequence: u64,
    out: Option<T>,
    chunks: spec_fn(u64) -> T,
)
    requires
        old(collector).wf(),
        old(collector).order.in_order(chunks),
        call_ensures(Collector::<T>::received, (collector, sequence, chunks(sequence)), out),
    ensures
        out == if sequence == old(collector).order.next_number() {
            Some(chunks(sequence))
        } else {
            None
        },
        final(collector).order.in_order(chunks),
        final(collector).order.next_number() == final(collector).order.handed_out().len(),
        out is None ==> final(collector).order.waiting_chunks().contains_key(sequence),
        final(collector).state == old(collector).state,
{
    Collector::lemma_receive_keeps_order(
        *old(collector),
        *final(collector),
        sequence,
        out,
        chunks,
    );
}

/// Units get the numbers 0, 1, 2 and so on, and the last one of them is the last that a writer
/// waits for when it finishes.
pub proof fn lemma_units_are_numbered<T>(
    collector: &mut Collector<T>,
    sequence: u64,
    next: &mut Collector<T>,
    any: bool,
)
    requires
        old(collector).wf(),
        call_ensures(Collector::<T>::dispatched, (collector,), sequence),
        *old(next) == *final(collector),
        call_ensures(Collector::<T>::finish, (next,), any),
    ensures
        sequence == old(collector).next_sequence_to_dispatch,
        final(collector).next_sequence_to_dispatch == sequence + 1,
        any,
        final(next).state == State::Finishing,
        final(next).last_sequence_id == Some(sequence),
{
}

/// When all workers are gone, a writer that is finishing has lost a result just if one is missing
/// and none waits.
pub proof fn lemma_lost_chunks_are_noticed<T>(
    collector: &mut Collector<T>,
    lost: Option<LostChunk>,
)
    requires
        old(collector).wf(),
        call_ensures(Collector::<T>::disconnected, (collector,), lost),
    ensures
        lost is Some <==> {
            &&& old(collector).state == State::Finishing
            &&& old(collector).last_sequence_id is Some
            &&& old(collector).order.next_number() <= old(collector).last_sequence_id->0
            &&& old(collector).order.waiting_chunks().is_empty()
        },
        lost is Some ==> final(collector).state == State::Error,
        final(collector).order == old(collector).order,
{
}

} // verus!
