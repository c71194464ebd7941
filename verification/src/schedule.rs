//! When ingestion runs, and how the producer and the consumer tell each other
//! where they stand.

use crate::series::SUBSEC;
use vstd::prelude::*;

verus! {

/// Where the producer of the metrics stands.
#[derive(Debug, Clone, Copy, PartialEq, Eq)]
pub enum ProducerStatus {
    Running,
    /// It was asked to stop.
    Exiting,
    /// It has stopped.
    Exited,
}

impl ProducerStatus {
    /// Whether two states are the same.
    pub fn same(self, other: ProducerStatus) -> (r: bool)
        ensures
            r == (self == other),
    {
        match (self, other) {
            (ProducerStatus::Running, ProducerStatus::Running) => true,
            (ProducerStatus::Exiting, ProducerStatus::Exiting) => true,
            (ProducerStatus::Exited, ProducerStatus::Exited) => true,
            _ => false,
        }
    }

    /// Sets the shared state to `set` where it is `expected`, and says whether it
    /// was. The caller holds the lock that guards `shared`.
    pub fn compare_and_set(shared: &mut ProducerStatus, expected: ProducerStatus, set: ProducerStatus)
        -> (r: bool)
        ensures
            r == (*old(shared) == expected),
            *final(shared) == if *old(shared) == expected {
                set
            } else {
                *old(shared)
            },
    {
        if shared.same(expected) {
            *shared = set;
            true
        } else {
            false
        }
    }
}

/// What the consumer is showing.
#[derive(Debug, Clone, Copy, PartialEq, Eq)]
pub enum Viewing {
    /// The process tables, which change once a second.
    Proc,
    /// The system metrics, which change every tick.
    Sys,
}

impl Viewing {
    /// The number that stands for the view in the flag that producer and consumer
    /// share.
    pub open spec fn spec_flag(self) -> u8 {
        match self {
            Viewing::Proc => 0,
            Viewing::Sys => 1,
        }
    }

    /// The number that stands for the view.
    pub fn flag(self) -> (r: u8)
        ensures
            r == self.spec_flag(),
    {
        match self {
            Viewing::Proc => 0,
            Viewing::Sys => 1,
        }
    }

    /// The view that a number stands for, if it stands for one.
    pub fn from_flag(flag: u8) -> (r: Option<Viewing>)
        ensures
            r matches Some(v) ==> v.spec_flag() == flag,
            r is None <==> flag > 1,
    {
        if flag == 0 {
            Some(Viewing::Proc)
        } else if flag == 1 {
            Some(Viewing::Sys)
        } else {
            None
        }
    }
}

/// What the producer does in one tick, after the system metrics were taken.
#[derive(Debug, Clone, Copy, PartialEq, Eq)]
pub struct TickPlan {
    /// Whether the processes are read in this tick.
    pub ingest_proc: bool,
    /// Whether the consumer is woken.
    pub repaint: bool,
}

/// The producer's count of ticks until the processes are read again.
#[derive(Debug, Clone, Copy, PartialEq, Eq)]
pub struct Producer {
    pub proc_counter: u64,
}

impl Producer {
    /// A producer that reads the processes in its first tick.
    pub fn new() -> (r: Producer)
        ensures
            r.proc_counter == 0,
    {
        Producer { proc_counter: 0 }
    }

    /// What to do in a tick with the counter at `proc_counter`: the processes are
    /// read when the counter has run out, which is once in `SUBSEC` ticks, and the
    /// consumer is woken then; in between it is woken only while it shows the
    /// system metrics.
    pub open spec fn spec_plan(proc_counter: u64, viewing: Viewing) -> TickPlan {
        if proc_counter == 0 {
            TickPlan { ingest_proc: true, repaint: true }
        } else {
            TickPlan { ingest_proc: false, repaint: viewing is Sys }
        }
    }

    /// The counter after a tick.
    pub open spec fn spec_next(proc_counter: u64) -> u64 {
        if proc_counter == 0 {
            (SUBSEC - 1) as u64
        } else {
            (proc_counter - 1) as u64
        }
    }

    /// Decides what to do in this tick and counts it.
    pub fn tick(&mut self, viewing: Viewing) -> (r: TickPlan)
        ensures
            r == Self::spec_plan(old(self).proc_counter, viewing),
            final(self).proc_counter == Self::spec_next(old(self).proc_counter),
    {
        if self.proc_counter == 0 {
            self.proc_counter = SUBSEC - 1;
            TickPlan { ingest_proc: true, repaint: true }
        } else {
            self.proc_counter = self.proc_counter - 1;
            let repaint: bool = match viewing {
                Viewing::Sys => true,
                Viewing::Proc => false,
            };
            TickPlan { ingest_proc: false, repaint }
        }
    }
}

/// The schedule of a caller that polls for ticks in its own loop. Times are in
/// microseconds on the caller's clock.
#[derive(Debug, Clone, Copy, PartialEq, Eq)]
pub struct QueryState {
    /// When the next tick is due.
    pub next_update: u64,
    /// Time between two ticks.
    pub tick_delay: u64,
}

impl QueryState {
    /// A schedule whose first tick is due at `now`.
    pub fn new(now: u64, tick_delay: u64) -> (r: QueryState)
        ensures
            r.next_update == now,
            r.tick_delay == tick_delay,
    {
        QueryState { next_update: now, tick_delay }
    }

    /// Whether a tick is due at `now`.
    pub fn is_due(&self, now: u64) -> (r: bool)
        ensures
            r == (now >= self.next_update),
    {
        now >= self.next_update
    }

    /// Counts one tick as done: the next one is due one delay later. A time that the
    /// clock cannot express is put at the clock's end.
    pub fn poll_update(&mut self)
        ensures
            final(self).tick_delay == old(self).tick_delay,
            final(self).next_update == if old(self).next_update + old(self).tick_delay > u64::MAX {
                u64::MAX
            } else {
                (old(self).next_update + old(self).tick_delay) as u64
            },
    {
        self.next_update = self.next_update.saturating_add(self.tick_delay);
    }

    /// How long the caller may sleep at `now` without missing the next tick.
    pub fn safe_sleep_duration(&self, now: u64) -> (r: u64)
        ensures
            r == if self.next_update > now {
                (self.next_update - now) as u64
            } else {
                0
            },
    {
        self.next_update.saturating_sub(now)
    }
}

} // verus!
