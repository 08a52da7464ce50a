//! The server's accept/dispatch/shutdown state machine.
//!
//! The running server is a listener socket, an accept thread, a worker pool
//! and an atomic stop flag; none of that lives here.  What lives here is
//! every decision that machinery takes: which phase follows which event, and
//! which action the runtime must perform on the way.  The runtime feeds each
//! observation — a connection accepted, a stop request (the interrupt
//! handler's only work is to raise it), the accept loop winding down — into
//! `step` and performs the action it is told.

use vstd::prelude::*;

verus! {

/// The phases of a server's lifetime, in the order they are reached.
#[derive(Clone, Copy, Debug, PartialEq, Eq, Structural)]
pub enum ServerPhase {
    /// Store, pool and stop flag exist; no listener yet.
    Created,
    /// The accept loop runs: connections are served.
    Listening,
    /// A stop was requested: nothing new is accepted, in-flight work finishes.
    Stopping,
    /// The accept loop has exited and the pool may be joined.
    Stopped,
}

/// What the runtime observes and reports to the state machine.
#[derive(Clone, Copy, Debug, PartialEq, Eq, Structural)]
pub enum ServerEvent {
    /// The listener is bound and the accept loop is about to run.
    Started,
    /// The accept loop accepted one connection.
    ConnectionAccepted,
    /// The stop flag was raised (operator interrupt, or `stop`).
    StopRequested,
    /// The accept loop observed the stop flag and returned.
    AcceptLoopExited,
}

/// What the runtime must do after a step.
#[derive(Clone, Copy, Debug, PartialEq, Eq, Structural)]
pub enum ServerAction {
    /// Begin accepting connections on the bound listener.
    StartAccepting,
    /// Hand the accepted connection to the worker pool as one handler job.
    SubmitHandler,
    /// Close the accepted connection unserved.
    DropConnection,
    /// Close the pool's queue and join every worker.
    ShutdownPool,
    /// Nothing.
    DoNothing,
}

/// How far along its lifetime a phase is.
pub open spec fn phase_rank(phase: ServerPhase) -> int {
    match phase {
        ServerPhase::Created => 0,
        ServerPhase::Listening => 1,
        ServerPhase::Stopping => 2,
        ServerPhase::Stopped => 3,
    }
}

/// The transition table: the phase after an event, and the action the
/// runtime owes.  Connections are served only while listening; a stop
/// request is honoured from any live phase and is idempotent; the pool is
/// shut down exactly when the machine reaches `Stopped`.
pub open spec fn spec_step(phase: ServerPhase, event: ServerEvent) -> (ServerPhase, ServerAction) {
    match (phase, event) {
        (ServerPhase::Created, ServerEvent::Started) => (
            ServerPhase::Listening,
            ServerAction::StartAccepting,
        ),
        (ServerPhase::Created, ServerEvent::ConnectionAccepted) => (
            ServerPhase::Created,
            ServerAction::DropConnection,
        ),
        (ServerPhase::Created, ServerEvent::StopRequested) => (
            ServerPhase::Stopped,
            ServerAction::ShutdownPool,
        ),
        (ServerPhase::Created, ServerEvent::AcceptLoopExited) => (
            ServerPhase::Created,
            ServerAction::DoNothing,
        ),
        (ServerPhase::Listening, ServerEvent::Started) => (
            ServerPhase::Listening,
            ServerAction::DoNothing,
        ),
        (ServerPhase::Listening, ServerEvent::ConnectionAccepted) => (
            ServerPhase::Listening,
            ServerAction::SubmitHandler,
        ),
        (ServerPhase::Listening, ServerEvent::StopRequested) => (
            ServerPhase::Stopping,
            ServerAction::DoNothing,
        ),
        (ServerPhase::Listening, ServerEvent::AcceptLoopExited) => (
            ServerPhase::Stopped,
            ServerAction::ShutdownPool,
        ),
        (ServerPhase::Stopping, ServerEvent::Started) => (
            ServerPhase::Stopping,
            ServerAction::DoNothing,
        ),
        (ServerPhase::Stopping, ServerEvent::ConnectionAccepted) => (
            ServerPhase::Stopping,
            ServerAction::DropConnection,
        ),
        (ServerPhase::Stopping, ServerEvent::StopRequested) => (
            ServerPhase::Stopping,
            ServerAction::DoNothing,
        ),
        (ServerPhase::Stopping, ServerEvent::AcceptLoopExited) => (
            ServerPhase::Stopped,
            ServerAction::ShutdownPool,
        ),
        (ServerPhase::Stopped, ServerEvent::ConnectionAccepted) => (
            ServerPhase::Stopped,
            ServerAction::DropConnection,
        ),
        (ServerPhase::Stopped, _) => (ServerPhase::Stopped, ServerAction::DoNothing),
    }
}

/// Take one step of the server state machine.
pub fn step(phase: ServerPhase, event: ServerEvent) -> (r: (ServerPhase, ServerAction))
    ensures
        r == spec_step(phase, event),
{
    match (phase, event) {
        (ServerPhase::Created, ServerEvent::Started) => (
            ServerPhase::Listening,
            ServerAction::StartAccepting,
        ),
        (ServerPhase::Created, ServerEvent::ConnectionAccepted) => (
            ServerPhase::Created,
            ServerAction::DropConnection,
        ),
        (ServerPhase::Created, ServerEvent::StopRequested) => (
            ServerPhase::Stopped,
            ServerAction::ShutdownPool,
        ),
        (ServerPhase::Created, ServerEvent::AcceptLoopExited) => (
            ServerPhase::Created,
            ServerAction::DoNothing,
        ),
        (ServerPhase::Listening, ServerEvent::Started) => (
            ServerPhase::Listening,
            ServerAction::DoNothing,
        ),
        (ServerPhase::Listening, ServerEvent::ConnectionAccepted) => (
            ServerPhase::Listening,
            ServerAction::SubmitHandler,
        ),
        (ServerPhase::Listening, ServerEvent::StopRequested) => (
            ServerPhase::Stopping,
            ServerAction::DoNothing,
        ),
        (ServerPhase::Listening, ServerEvent::AcceptLoopExited) => (
            ServerPhase::Stopped,
            ServerAction::ShutdownPool,
        ),
        (ServerPhase::Stopping, ServerEvent::Started) => (
            ServerPhase::Stopping,
            ServerAction::DoNothing,
        ),
        (ServerPhase::Stopping, ServerEvent::ConnectionAccepted) => (
            ServerPhase::Stopping,
            ServerAction::DropConnection,
        ),
        (ServerPhase::Stopping, ServerEvent::StopRequested) => (
            ServerPhase::Stopping,
            ServerAction::DoNothing,
        ),
        (ServerPhase::Stopping, ServerEvent::AcceptLoopExited) => (
            ServerPhase::Stopped,
            ServerAction::ShutdownPool,
        ),
        (ServerPhase::Stopped, ServerEvent::ConnectionAccepted) => (
            ServerPhase::Stopped,
            ServerAction::DropConnection,
        ),
        (ServerPhase::Stopped, _) => (ServerPhase::Stopped, ServerAction::DoNothing),
    }
}

/// Connections are served only while listening: in every other phase, no
/// event makes the runtime submit a handler job, so no new connection is
/// accepted once a stop was requested.
pub proof fn lemma_no_service_outside_listening(phase: ServerPhase, event: ServerEvent)
    ensures
        spec_step(phase, event).1 == ServerAction::SubmitHandler ==> phase
            == ServerPhase::Listening && event == ServerEvent::ConnectionAccepted,
{
}

/// The lifetime only moves forward: no event returns the server to an
/// earlier phase, so a stopped server never listens again.
pub proof fn lemma_phase_monotone(phase: ServerPhase, event: ServerEvent)
    ensures
        phase_rank(spec_step(phase, event).0) >= phase_rank(phase),
{
}

/// Requesting a stop is idempotent: a second request leaves the phase where
/// the first one put it and asks nothing further of the runtime.
pub proof fn lemma_stop_idempotent(phase: ServerPhase)
    ensures
        spec_step(spec_step(phase, ServerEvent::StopRequested).0, ServerEvent::StopRequested).0
            == spec_step(phase, ServerEvent::StopRequested).0,
        spec_step(spec_step(phase, ServerEvent::StopRequested).0, ServerEvent::StopRequested).1
            == ServerAction::DoNothing,
{
}

/// The pool is shut down only as the machine reaches `Stopped`, so workers
/// are joined exactly once on the way down.
pub proof fn lemma_shutdown_reaches_stopped(phase: ServerPhase, event: ServerEvent)
    ensures
        spec_step(phase, event).1 == ServerAction::ShutdownPool ==> spec_step(phase, event).0
            == ServerPhase::Stopped && phase != ServerPhase::Stopped,
{
}

} // verus!
