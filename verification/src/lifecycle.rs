//! The server lifecycle state machine: startup, serving, signal-triggered
//! graceful shutdown bounded by a grace period, and the failure states.
//! The surrounding process drives this machine; every transition it takes
//! goes through `lifecycle_step`.

use vstd::prelude::*;

verus! {

/// Why the lifecycle ended in failure.
#[derive(Clone, Copy, PartialEq, Eq, Structural, Debug)]
pub enum FailureReason {
    /// The listening socket could not be bound.
    BindFailed,
    /// The serve loop ended on its own while serving.
    ServeLoopEnded,
    /// The serve loop did not finish within the shutdown grace period.
    ShutdownTimedOut,
}

/// The lifecycle states.
#[derive(Clone, Copy, PartialEq, Eq, Structural, Debug)]
pub enum LifecycleState {
    Starting,
    Serving,
    ShuttingDown,
    Stopped,
    Failed { reason: FailureReason },
}

/// The events the lifecycle reacts to.
#[derive(Clone, Copy, PartialEq, Eq, Structural, Debug)]
pub enum LifecycleEvent {
    /// The listening socket was bound.
    BindSucceeded,
    /// Binding the listening socket failed.
    BindFailed,
    /// The serve loop ended: a fault while serving, a clean finish while
    /// shutting down.
    ServeLoopEnded,
    /// An external termination signal arrived.
    TerminationSignal,
    /// The shutdown grace period ran out before the serve loop ended.
    GraceExpired,
}

/// The transition table.  Pairs not listed leave the state unchanged; in
/// particular the two final states absorb every event, and a duplicate
/// termination signal during shutdown is a no-op.
pub open spec fn lifecycle_next(s: LifecycleState, e: LifecycleEvent) -> LifecycleState {
    match (s, e) {
        (LifecycleState::Starting, LifecycleEvent::BindSucceeded) => LifecycleState::Serving,
        (LifecycleState::Starting, LifecycleEvent::BindFailed) => LifecycleState::Failed {
            reason: FailureReason::BindFailed,
        },
        (LifecycleState::Serving, LifecycleEvent::ServeLoopEnded) => LifecycleState::Failed {
            reason: FailureReason::ServeLoopEnded,
        },
        (LifecycleState::Serving, LifecycleEvent::TerminationSignal) => LifecycleState::ShuttingDown,
        (LifecycleState::ShuttingDown, LifecycleEvent::ServeLoopEnded) => LifecycleState::Stopped,
        (LifecycleState::ShuttingDown, LifecycleEvent::GraceExpired) => LifecycleState::Failed {
            reason: FailureReason::ShutdownTimedOut,
        },
        _ => s,
    }
}

/// Whether the lifecycle has ended, cleanly or not.
pub open spec fn is_terminal(s: LifecycleState) -> bool {
    s is Stopped || s is Failed
}

/// Takes one lifecycle transition.
pub fn lifecycle_step(state: LifecycleState, event: LifecycleEvent) -> (r: LifecycleState)
    ensures
        r == lifecycle_next(state, event),
{
    match (state, event) {
        (LifecycleState::Starting, LifecycleEvent::BindSucceeded) => LifecycleState::Serving,
        (LifecycleState::Starting, LifecycleEvent::BindFailed) => LifecycleState::Failed {
            reason: FailureReason::BindFailed,
        },
        (LifecycleState::Serving, LifecycleEvent::ServeLoopEnded) => LifecycleState::Failed {
            reason: FailureReason::ServeLoopEnded,
        },
        (LifecycleState::Serving, LifecycleEvent::TerminationSignal) => LifecycleState::ShuttingDown,
        (LifecycleState::ShuttingDown, LifecycleEvent::ServeLoopEnded) => LifecycleState::Stopped,
        (LifecycleState::ShuttingDown, LifecycleEvent::GraceExpired) => LifecycleState::Failed {
            reason: FailureReason::ShutdownTimedOut,
        },
        (s, _) => s,
    }
}

/// The state after a whole sequence of events.
pub open spec fn run_events(s: LifecycleState, es: Seq<LifecycleEvent>) -> LifecycleState
    decreases es.len(),
{
    if es.len() == 0 {
        s
    } else {
        run_events(lifecycle_next(s, es[0]), es.drop_first())
    }
}

/// A termination signal during active serving starts a graceful shutdown;
/// if the serve loop then ends within the grace period the lifecycle stops
/// cleanly, and if the grace period expires first the shutdown is reported
/// as timed out.
pub proof fn lemma_shutdown_outcome(within_grace: bool)
    ensures
        ({
            let second = if within_grace {
                LifecycleEvent::ServeLoopEnded
            } else {
                LifecycleEvent::GraceExpired
            };
            let end = run_events(
                LifecycleState::Serving,
                seq![LifecycleEvent::TerminationSignal, second],
            );
            end == if within_grace {
                LifecycleState::Stopped
            } else {
                LifecycleState::Failed { reason: FailureReason::ShutdownTimedOut }
            }
        }),
{
    let second = if within_grace {
        LifecycleEvent::ServeLoopEnded
    } else {
        LifecycleEvent::GraceExpired
    };
    let es = seq![LifecycleEvent::TerminationSignal, second];
    assert(es.drop_first() =~= seq![second]);
    assert(seq![second].drop_first() =~= Seq::<LifecycleEvent>::empty());
    assert(run_events(LifecycleState::ShuttingDown, seq![second])
        == run_events(lifecycle_next(LifecycleState::ShuttingDown, second), Seq::<
            LifecycleEvent,
        >::empty()));
}

/// Any number of further termination signals while already shutting down
/// changes nothing.
pub proof fn lemma_duplicate_signals_idempotent(es: Seq<LifecycleEvent>)
    requires
        forall|i: int| 0 <= i < es.len() ==> es[i] == LifecycleEvent::TerminationSignal,
    ensures
        run_events(LifecycleState::ShuttingDown, es) == LifecycleState::ShuttingDown,
    decreases es.len(),
{
    if es.len() > 0 {
        lemma_duplicate_signals_idempotent(es.drop_first());
    }
}

} // verus!
