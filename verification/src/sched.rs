//! State machines that drive the write pipeline: a two-press interrupt
//! protocol (first press drains, second press forces exit) and a
//! bounded-concurrency scheduler that accounts for every dispatched job
//! exactly once. The surrounding process performs the actual spawning,
//! waiting and signal handling; every decision it takes comes from here.

use vstd::prelude::*;

verus! {

/// Phase of the cooperative shutdown protocol.
#[derive(Debug, Clone, Copy, PartialEq, Eq, Structural)]
pub enum ShutdownPhase {
    /// No interrupt received; dispatch may proceed.
    Running,
    /// First interrupt received: no new work starts, in-flight work drains.
    DrainRequested,
}

/// What the process must do in response to an interrupt.
#[derive(Debug, Clone, Copy, PartialEq, Eq, Structural)]
pub enum InterruptAction {
    /// First press: announce the drain and keep already-started work.
    AnnounceDrain,
    /// Second press: terminate immediately without further cleanup.
    ForceExit,
}

/// The process-wide cancellation state machine. The phase moves from
/// `Running` to `DrainRequested` once and never back: no operation of
/// this type resets it.
#[derive(Debug, Clone, Copy, PartialEq, Eq, Structural)]
pub struct ShutdownCoordinator {
    pub phase: ShutdownPhase,
}

impl ShutdownCoordinator {
    /// True once the first interrupt has been seen.
    pub open spec fn spec_shutdown_requested(self) -> bool {
        self.phase is DrainRequested
    }

    /// A fresh coordinator, installed before any other pipeline stage.
    pub fn new() -> (r: ShutdownCoordinator)
        ensures
            r.phase == ShutdownPhase::Running,
            !r.spec_shutdown_requested(),
    {
        ShutdownCoordinator { phase: ShutdownPhase::Running }
    }

    /// Level-triggered flag the dispatch loop consults before starting a job.
    pub fn shutdown_requested(&self) -> (r: bool)
        ensures
            r == self.spec_shutdown_requested(),
    {
        match self.phase {
            ShutdownPhase::Running => false,
            ShutdownPhase::DrainRequested => true,
        }
    }

    /// One interrupt press. The first press arms the drain and asks the
    /// process to announce it; any further press asks for an immediate
    /// exit. Afterwards the shutdown flag is set in either case.
    pub fn on_interrupt(&mut self) -> (a: InterruptAction)
        ensures
            final(self).phase == ShutdownPhase::DrainRequested,
            final(self).spec_shutdown_requested(),
            a == (if old(self).phase == ShutdownPhase::Running {
                InterruptAction::AnnounceDrain
            } else {
                InterruptAction::ForceExit
            }),
    {
        match self.phase {
            ShutdownPhase::Running => {
                self.phase = ShutdownPhase::DrainRequested;
                InterruptAction::AnnounceDrain
            },
            ShutdownPhase::DrainRequested => InterruptAction::ForceExit,
        }
    }
}

/// Outcome of one finished write job.
#[derive(Debug, Clone, Copy, PartialEq, Eq, Structural)]
pub enum JobOutcome {
    /// The profile file was written.
    Succeeded,
    /// The write failed; the error is collected, siblings continue.
    Failed,
    /// The job exceeded its completion deadline during the final drain.
    TimedOut,
}

/// Decision of the dispatch loop for its next step.
#[derive(Debug, Clone, Copy, PartialEq, Eq, Structural)]
pub enum DispatchDecision {
    /// Start the next queued job now.
    Start,
    /// The concurrency ceiling is reached: wait for a slot to free.
    Wait,
    /// Stop dispatching (queue exhausted or shutdown requested) and
    /// await the jobs already in flight.
    Drain,
}

/// Bookkeeping for a bounded-concurrency batch of write jobs. At most
/// `limit` jobs are in flight at any instant, and when the batch has
/// drained, every dispatched job has been completed and counted exactly
/// once as succeeded, failed or timed out.
#[derive(Debug, Clone, Copy, PartialEq, Eq, Structural)]
pub struct WriteScheduler {
    /// Hard ceiling on simultaneously in-flight jobs.
    pub limit: usize,
    /// Number of jobs the batch was created with.
    pub total: usize,
    /// Jobs started so far.
    pub dispatched: usize,
    /// Jobs finished so far (with any outcome).
    pub completed: usize,
    /// Completed jobs whose write succeeded.
    pub succeeded: usize,
    /// Completed jobs whose write failed.
    pub failed: usize,
    /// Completed jobs that exceeded the drain deadline.
    pub timed_out: usize,
    /// Set once shutdown is observed: no further job ever starts.
    pub halted: bool,
}

impl WriteScheduler {
    /// Jobs dispatched but not yet completed.
    pub open spec fn spec_in_flight(self) -> int {
        self.dispatched - self.completed
    }

    /// Invariant of every reachable scheduler state. In particular the
    /// number of in-flight jobs never exceeds the ceiling, and the
    /// outcome counters partition the completed count.
    pub open spec fn wf(self) -> bool {
        &&& 1 <= self.limit
        &&& self.completed <= self.dispatched <= self.total
        &&& self.spec_in_flight() <= self.limit
        &&& self.succeeded + self.failed + self.timed_out == self.completed
    }

    /// The batch is drained: nothing is in flight any more.
    pub open spec fn spec_drained(self) -> bool {
        self.completed == self.dispatched
    }

    /// A fresh batch of `total` jobs under ceiling `limit`.
    pub fn new(total: usize, limit: usize) -> (r: WriteScheduler)
        requires
            1 <= limit,
        ensures
            r.wf(),
            r.total == total,
            r.limit == limit,
            r.dispatched == 0,
            r.completed == 0,
            r.succeeded == 0,
            r.failed == 0,
            r.timed_out == 0,
            !r.halted,
    {
        WriteScheduler {
            limit,
            total,
            dispatched: 0,
            completed: 0,
            succeeded: 0,
            failed: 0,
            timed_out: 0,
            halted: false,
        }
    }

    /// One step of the dispatch loop. Shutdown (once observed) halts all
    /// further dispatch for good; otherwise a job starts exactly when
    /// the queue is non-empty and a slot is free. Only `Start` moves the
    /// dispatched count, and only by one.
    pub fn next_dispatch(&mut self, shutdown_requested: bool) -> (d: DispatchDecision)
        requires
            old(self).wf(),
        ensures
            final(self).wf(),
            final(self).limit == old(self).limit,
            final(self).total == old(self).total,
            final(self).completed == old(self).completed,
            final(self).succeeded == old(self).succeeded,
            final(self).failed == old(self).failed,
            final(self).timed_out == old(self).timed_out,
            (shutdown_requested || old(self).halted) ==> (d == DispatchDecision::Drain
                && final(self).halted),
            !(shutdown_requested || old(self).halted) ==> final(self).halted == old(self).halted,
            d == (if shutdown_requested || old(self).halted {
                DispatchDecision::Drain
            } else if old(self).dispatched == old(self).total {
                DispatchDecision::Drain
            } else if old(self).spec_in_flight() == old(self).limit {
                DispatchDecision::Wait
            } else {
                DispatchDecision::Start
            }),
            d == DispatchDecision::Start ==> final(self).dispatched == old(self).dispatched + 1,
            d != DispatchDecision::Start ==> final(self).dispatched == old(self).dispatched,
            final(self).spec_in_flight() <= final(self).limit,
    {
        if shutdown_requested || self.halted {
            self.halted = true;
            DispatchDecision::Drain
        } else if self.dispatched == self.total {
            DispatchDecision::Drain
        } else if self.dispatched - self.completed == self.limit {
            DispatchDecision::Wait
        } else {
            self.dispatched = self.dispatched + 1;
            DispatchDecision::Start
        }
    }

    /// Record the end of one in-flight job. Every call moves the
    /// completed counter by exactly one and exactly one outcome counter
    /// by exactly one, whatever the outcome was.
    pub fn record_completion(&mut self, outcome: JobOutcome)
        requires
            old(self).wf(),
            old(self).completed < old(self).dispatched,
        ensures
            final(self).wf(),
            final(self).limit == old(self).limit,
            final(self).total == old(self).total,
            final(self).dispatched == old(self).dispatched,
            final(self).halted == old(self).halted,
            final(self).completed == old(self).completed + 1,
            final(self).succeeded == old(self).succeeded + (if outcome == JobOutcome::Succeeded {
                1int
            } else {
                0int
            }),
            final(self).failed == old(self).failed + (if outcome == JobOutcome::Failed {
                1int
            } else {
                0int
            }),
            final(self).timed_out == old(self).timed_out + (if outcome == JobOutcome::TimedOut {
                1int
            } else {
                0int
            }),
    {
        self.completed = self.completed + 1;
        match outcome {
            JobOutcome::Succeeded => {
                self.succeeded = self.succeeded + 1;
            },
            JobOutcome::Failed => {
                self.failed = self.failed + 1;
            },
            JobOutcome::TimedOut => {
                self.timed_out = self.timed_out + 1;
            },
        }
    }

    /// Nothing is in flight: every dispatched job has reported back.
    pub fn drained(&self) -> (r: bool)
        ensures
            r == self.spec_drained(),
    {
        self.completed == self.dispatched
    }

    /// Completed-counter accounting: in every reachable state the
    /// outcome counters sum to the completed count, and once the batch
    /// has drained, the completed count equals the dispatched count —
    /// every dispatched job was counted exactly once, regardless of
    /// mixed success, failure or timeout outcomes.
    pub proof fn lemma_completions_match_dispatches(s: WriteScheduler)
        requires
            s.wf(),
        ensures
            s.succeeded + s.failed + s.timed_out == s.completed,
            s.spec_drained() ==> s.completed == s.dispatched,
    {
    }

    /// Concurrency ceiling: in every reachable state, at most `limit`
    /// jobs are mid-write.
    pub proof fn lemma_concurrency_ceiling(s: WriteScheduler)
        requires
            s.wf(),
        ensures
            s.spec_in_flight() <= s.limit,
    {
    }
}

} // verus!
