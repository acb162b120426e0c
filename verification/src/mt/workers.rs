//! When to start another worker.

use vstd::prelude::*;

verus! {

/// No more workers than this are ever started.
pub const MAX_WORKERS: u32 = 256;

/// No work is queued while this many units are waiting.
pub const QUEUE_LIMIT: usize = 4;

/// The number of workers that are allowed when `num_workers` are asked for.
pub fn clamp_workers(num_workers: u32) -> (max_workers: u32)
    ensures
        max_workers == if num_workers < 1 {
            1
        } else if num_workers > MAX_WORKERS {
            MAX_WORKERS
        } else {
            num_workers
        },
{
    if num_workers < 1 {
        1
    } else if num_workers > MAX_WORKERS {
        MAX_WORKERS
    } else {
        num_workers
    }
}

/// Whether to start another worker: if work is queued, no worker is idle, and more are allowed.
pub fn should_spawn(
    queue_len: usize,
    active_workers: u32,
    spawned_workers: u32,
    max_workers: u32,
) -> (spawn: bool)
    ensures
        spawn == (queue_len > 0 && active_workers == spawned_workers && spawned_workers
            < max_workers),
{
    queue_len > 0 && active_workers == spawned_workers && spawned_workers < max_workers
}

/// What a worker does next.
#[derive(Debug, Clone, Copy, PartialEq, Eq, Structural)]
pub enum WorkerStep {
    /// Wait for a unit of work.
    Steal,
    /// Count as active, and do the work.
    Work,
    /// Hand in the result under this number.
    Send(u64),
    /// Stop counting as active, and begin again.
    Next,
    /// Stop counting as active, store the error, and stop.
    Fail,
    /// Stop counting as active, and stop.
    Abandon,
    /// Stop.
    Stop,
}

/// What a worker is doing.
#[derive(Debug, Clone, Copy, PartialEq, Eq, Structural)]
pub enum WorkerState {
    /// It is between two units of work.
    Idle,
    /// It waits for a unit of work.
    Waiting,
    /// It does the unit of work with this number.
    Working(u64),
    /// It hands in the result of the unit with this number.
    Sending(u64),
    /// It has stopped.
    Stopped,
}

/// A worker.
pub struct Worker {
    pub state: WorkerState,
}

impl Worker {
    /// The worker counts as active: it has taken a unit of work and is not done with it.
    pub open spec fn is_active(&self) -> bool {
        self.state is Working || self.state is Sending
    }

    /// How much a step adds to the number of active workers.
    pub open spec fn counted(step: WorkerStep) -> int {
        match step {
            WorkerStep::Work => 1,
            WorkerStep::Next => -1,
            WorkerStep::Fail => -1,
            WorkerStep::Abandon => -1,
            _ => 0,
        }
    }

    /// The number of active workers is right: a step adds what the worker's own state adds.
    pub open spec fn count_is_right(&self, before: &Self, step: WorkerStep) -> bool {
        (if self.is_active() {
            1int
        } else {
            0
        }) == (if before.is_active() {
            1int
        } else {
            0
        }) + Self::counted(step)
    }

    /// A worker that is about to begin.
    pub fn new() -> (worker: Self)
        ensures
            worker.state == WorkerState::Idle,
            !worker.is_active(),
    {
        Worker { state: WorkerState::Idle }
    }

    /// Begins with the next unit of work, unless the worker is to shut down.
    pub fn begin(&mut self, shutdown: bool) -> (step: WorkerStep)
        requires
            old(self).state == WorkerState::Idle,
        ensures
            final(self).count_is_right(old(self), step),
            if shutdown {
                step == WorkerStep::Stop && final(self).state == WorkerState::Stopped
            } else {
                step == WorkerStep::Steal && final(self).state == WorkerState::Waiting
            },
    {
        if shutdown {
            self.state = WorkerState::Stopped;
            WorkerStep::Stop
        } else {
            self.state = WorkerState::Waiting;
            WorkerStep::Steal
        }
    }

    /// The unit of work with this number has come, or the queue is closed and there is none.
    pub fn stolen(&mut self, unit: Option<u64>) -> (step: WorkerStep)
        requires
            old(self).state == WorkerState::Waiting,
        ensures
            final(self).count_is_right(old(self), step),
            match unit {
                Some(number) => {
                    &&& step == WorkerStep::Work
                    &&& final(self).state == WorkerState::Working(number)
                },
                None => {
                    &&& step == WorkerStep::Stop
                    &&& final(self).state == WorkerState::Stopped
                },
            },
    {
        match unit {
            Some(number) => {
                self.state = WorkerState::Working(number);
                WorkerStep::Work
            },
            None => {
                self.state = WorkerState::Stopped;
                WorkerStep::Stop
            },
        }
    }

    /// The work is done, or has failed. The result has the number of its unit.
    pub fn worked(&mut self, ok: bool) -> (step: WorkerStep)
        requires
            old(self).state is Working,
        ensures
            final(self).count_is_right(old(self), step),
            if ok {
                &&& step == WorkerStep::Send(old(self).state->Working_0)
                &&& final(self).state == WorkerState::Sending(old(self).state->Working_0)
            } else {
                &&& step == WorkerStep::Fail
                &&& final(self).state == WorkerState::Stopped
            },
    {
        match self.state {
            WorkerState::Working(number) if ok => {
                self.state = WorkerState::Sending(number);
                WorkerStep::Send(number)
            },
            _ => {
                self.state = WorkerState::Stopped;
                WorkerStep::Fail
            },
        }
    }

    /// The result has been handed in, or nobody is there to take it.
    pub fn sent(&mut self, delivered: bool) -> (step: WorkerStep)
        requires
            old(self).state is Sending,
        ensures
            final(self).count_is_right(old(self), step),
            if delivered {
                step == WorkerStep::Next && final(self).state == WorkerState::Idle
            } else {
                step == WorkerStep::Abandon && final(self).state == WorkerState::Stopped
            },
    {
        if delivered {
            self.state = WorkerState::Idle;
            WorkerStep::Next
        } else {
            self.state = WorkerState::Stopped;
            WorkerStep::Abandon
        }
    }
}

/// At least one worker is allowed and at most 256, and in between as many as were asked for.
pub proof fn lemma_workers_are_limited(num_workers: u32, max_workers: u32)
    requires
        call_ensures(clamp_workers, (num_workers,), max_workers),
    ensures
        1 <= max_workers <= 256,
        1 <= num_workers <= 256 ==> max_workers == num_workers,
        num_workers == 0 ==> max_workers == 1,
        num_workers > 256 ==> max_workers == 256,
{
}

/// Workers are started only for work that waits, and never more than are allowed. While work waits
/// and all workers are busy, another one is started.
pub proof fn lemma_workers_are_started(
    queue_len: usize,
    active_workers: u32,
    spawned_workers: u32,
    max_workers: u32,
    spawn: bool,
)
    requires
        active_workers <= spawned_workers <= max_workers,
        call_ensures(
            should_spawn,
            (queue_len, active_workers, spawned_workers, max_workers),
            spawn,
        ),
    ensures
        spawn ==> spawned_workers + 1 <= max_workers && queue_len > 0,
        spawn ==> active_workers == spawned_workers,
        queue_len > 0 && active_workers == spawned_workers ==> spawn || spawned_workers
            == max_workers,
{
}

/// A worker hands in its result under the number of the unit that it took.
pub proof fn lemma_result_has_number_of_unit(
    worker: &mut Worker,
    number: u64,
    first: WorkerStep,
    next: &mut Worker,
    second: WorkerStep,
)
    requires
        call_ensures(Worker::stolen, (worker, Some(number)), first),
        *old(next) == *final(worker),
        call_ensures(Worker::worked, (next, true), second),
    ensures
        first == WorkerStep::Work,
        second == WorkerStep::Send(number),
{
}

} // verus!
