use nordconf::sched::{
    DispatchDecision, InterruptAction, JobOutcome, ShutdownCoordinator, ShutdownPhase,
    WriteScheduler,
};

#[test]
fn sched_concurrency_ceiling_holds() {
    let mut s = WriteScheduler::new(5, 2);
    assert_eq!(s.next_dispatch(false), DispatchDecision::Start);
    assert_eq!(s.next_dispatch(false), DispatchDecision::Start);
    // ceiling reached: the loop must wait for a slot
    assert_eq!(s.next_dispatch(false), DispatchDecision::Wait);
    assert!(s.dispatched - s.completed <= s.limit);
    s.record_completion(JobOutcome::Succeeded);
    assert_eq!(s.next_dispatch(false), DispatchDecision::Start);
    assert!(s.dispatched - s.completed <= s.limit);
}

#[test]
fn sched_every_dispatched_job_counted_once() {
    let mut s = WriteScheduler::new(3, 8);
    assert_eq!(s.next_dispatch(false), DispatchDecision::Start);
    assert_eq!(s.next_dispatch(false), DispatchDecision::Start);
    assert_eq!(s.next_dispatch(false), DispatchDecision::Start);
    assert_eq!(s.next_dispatch(false), DispatchDecision::Drain);
    s.record_completion(JobOutcome::Succeeded);
    s.record_completion(JobOutcome::Failed);
    s.record_completion(JobOutcome::TimedOut);
    assert!(s.drained());
    assert_eq!(s.completed, s.dispatched);
    assert_eq!(s.succeeded + s.failed + s.timed_out, s.completed);
    assert_eq!(s.succeeded, 1);
    assert_eq!(s.failed, 1);
    assert_eq!(s.timed_out, 1);
}

#[test]
fn sched_first_interrupt_drains_second_forces_exit() {
    let mut coord = ShutdownCoordinator::new();
    assert_eq!(coord.phase, ShutdownPhase::Running);
    assert!(!coord.shutdown_requested());

    let mut s = WriteScheduler::new(3, 2);
    assert_eq!(s.next_dispatch(coord.shutdown_requested()), DispatchDecision::Start);
    assert_eq!(s.next_dispatch(coord.shutdown_requested()), DispatchDecision::Start);

    // first press: drain announced, no new job ever starts
    assert_eq!(coord.on_interrupt(), InterruptAction::AnnounceDrain);
    assert!(coord.shutdown_requested());
    assert_eq!(s.next_dispatch(coord.shutdown_requested()), DispatchDecision::Drain);
    assert_eq!(s.next_dispatch(false), DispatchDecision::Drain); // halted for good

    // the two already-dispatched jobs still report their results
    s.record_completion(JobOutcome::Succeeded);
    s.record_completion(JobOutcome::Failed);
    assert!(s.drained());
    assert_eq!(s.completed, 2);
    assert_eq!(s.dispatched, 2);

    // second press: immediate exit requested
    assert_eq!(coord.on_interrupt(), InterruptAction::ForceExit);
}

#[test]
fn sched_drain_when_queue_exhausted() {
    let mut s = WriteScheduler::new(1, 4);
    assert_eq!(s.next_dispatch(false), DispatchDecision::Start);
    assert_eq!(s.next_dispatch(false), DispatchDecision::Drain);
    s.record_completion(JobOutcome::Succeeded);
    assert!(s.drained());
}
