use ploscaru::lifecycle::FailureReason;
use ploscaru::lifecycle::LifecycleEvent;
use ploscaru::lifecycle::LifecycleState;
use ploscaru::lifecycle::lifecycle_step;

#[test]
fn bind_outcome_decides_startup() {
    assert_eq!(
        lifecycle_step(LifecycleState::Starting, LifecycleEvent::BindSucceeded),
        LifecycleState::Serving
    );
    assert_eq!(
        lifecycle_step(LifecycleState::Starting, LifecycleEvent::BindFailed),
        LifecycleState::Failed {
            reason: FailureReason::BindFailed
        }
    );
}

#[test]
fn serve_loop_ending_on_its_own_is_a_fault() {
    assert_eq!(
        lifecycle_step(LifecycleState::Serving, LifecycleEvent::ServeLoopEnded),
        LifecycleState::Failed {
            reason: FailureReason::ServeLoopEnded
        }
    );
}

#[test]
fn signal_during_serving_starts_graceful_shutdown() {
    let s = lifecycle_step(LifecycleState::Serving, LifecycleEvent::TerminationSignal);
    assert_eq!(s, LifecycleState::ShuttingDown);
    // The serve loop finishes within the grace period: clean stop.
    assert_eq!(
        lifecycle_step(s, LifecycleEvent::ServeLoopEnded),
        LifecycleState::Stopped
    );
    // The grace period expires first: the timeout is reported as a failure.
    assert_eq!(
        lifecycle_step(s, LifecycleEvent::GraceExpired),
        LifecycleState::Failed {
            reason: FailureReason::ShutdownTimedOut
        }
    );
}

#[test]
fn duplicate_signals_during_shutdown_are_noops() {
    let mut s = lifecycle_step(LifecycleState::Serving, LifecycleEvent::TerminationSignal);
    for _ in 0..3 {
        s = lifecycle_step(s, LifecycleEvent::TerminationSignal);
        assert_eq!(s, LifecycleState::ShuttingDown);
    }
}

#[test]
fn terminal_states_absorb_every_event() {
    for event in [
        LifecycleEvent::BindSucceeded,
        LifecycleEvent::BindFailed,
        LifecycleEvent::ServeLoopEnded,
        LifecycleEvent::TerminationSignal,
        LifecycleEvent::GraceExpired,
    ] {
        assert_eq!(
            lifecycle_step(LifecycleState::Stopped, event),
            LifecycleState::Stopped
        );
        let failed = LifecycleState::Failed {
            reason: FailureReason::BindFailed,
        };
        assert_eq!(lifecycle_step(failed, event), failed);
    }
}
