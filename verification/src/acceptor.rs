//! The session acceptor's decisions: admit every session that completes its
//! handshake, hand it to a handler of its own, and never wait for one. Only
//! a failure of the accept call itself ends the acceptor.

use vstd::prelude::*;
use crate::session::Lifecycle;
use crate::session::RemoteEndpoint;
use crate::session::Session;

verus! {

/// Where the acceptor stands.
#[derive(Clone, Copy, Debug, PartialEq, Eq, Structural)]
pub enum AcceptorState {
    /// Not started yet.
    Idle,
    /// Waiting for the next session, as long as the listener lives.
    Accepting,
    /// The accept call failed for good; nothing more is admitted.
    Failed,
}

/// What can happen to the acceptor.
#[derive(Clone, Copy, Debug, PartialEq, Eq, Structural)]
pub enum AcceptorEvent {
    /// The listener is ready.
    Start,
    /// A session from this endpoint completed its handshake.
    Accepted(RemoteEndpoint),
    /// The accept call itself failed.
    AcceptFailed,
    /// A handler that was spawned earlier has finished.
    HandlerFinished,
}

/// What the acceptor's loop does next.
#[derive(Clone, Copy, Debug, PartialEq, Eq, Structural)]
pub enum AcceptorAction {
    /// Wait for the next session.
    AwaitSession,
    /// Hand this session to a new handler and, without waiting for it, wait
    /// for the next session.
    Spawn(Session),
    /// Give up: the failure goes to the process.
    Shutdown,
    /// Nothing: the event has no bearing on the acceptor as it stands.
    Ignore,
}

/// The acceptor's state after an event.
pub open spec fn acceptor_after(state: AcceptorState, event: AcceptorEvent) -> AcceptorState {
    match (state, event) {
        (AcceptorState::Idle, AcceptorEvent::Start) => AcceptorState::Accepting,
        (AcceptorState::Accepting, AcceptorEvent::AcceptFailed) => AcceptorState::Failed,
        _ => state,
    }
}

/// What the acceptor does on an event.
pub open spec fn acceptor_action(state: AcceptorState, event: AcceptorEvent) -> AcceptorAction {
    match (state, event) {
        (AcceptorState::Failed, _) => AcceptorAction::Shutdown,
        (AcceptorState::Idle, AcceptorEvent::Start) => AcceptorAction::AwaitSession,
        (AcceptorState::Accepting, AcceptorEvent::Accepted(remote)) => AcceptorAction::Spawn(
            Session { remote, state: Lifecycle::Active },
        ),
        (AcceptorState::Accepting, AcceptorEvent::AcceptFailed) => AcceptorAction::Shutdown,
        _ => AcceptorAction::Ignore,
    }
}

/// The acceptor's state after a run of events, in their order.
pub open spec fn acceptor_after_all(state: AcceptorState, events: Seq<AcceptorEvent>) -> AcceptorState
    decreases events.len(),
{
    if events.len() == 0 {
        state
    } else {
        acceptor_after(acceptor_after_all(state, events.drop_last()), events.last())
    }
}

/// The session acceptor.
#[derive(Clone, Copy, Debug, PartialEq, Eq, Structural)]
pub struct Acceptor {
    pub state: AcceptorState,
}

impl Acceptor {
    /// An acceptor that has not started.
    pub fn new() -> (acceptor: Acceptor)
        ensures
            acceptor.state == AcceptorState::Idle,
    {
        Acceptor { state: AcceptorState::Idle }
    }

    /// Takes one event: moves to the state after it and says what to do.
    pub fn on_event(&mut self, event: AcceptorEvent) -> (action: AcceptorAction)
        ensures
            final(self).state == acceptor_after(old(self).state, event),
            action == acceptor_action(old(self).state, event),
    {
        match self.state {
            AcceptorState::Failed => AcceptorAction::Shutdown,
            AcceptorState::Idle => match event {
                AcceptorEvent::Start => {
                    self.state = AcceptorState::Accepting;
                    AcceptorAction::AwaitSession
                },
                _ => AcceptorAction::Ignore,
            },
            AcceptorState::Accepting => match event {
                AcceptorEvent::Accepted(remote) => AcceptorAction::Spawn(Session::open(remote)),
                AcceptorEvent::AcceptFailed => {
                    self.state = AcceptorState::Failed;
                    AcceptorAction::Shutdown
                },
                _ => AcceptorAction::Ignore,
            },
        }
    }

    /// The listener is ready: start accepting.
    pub fn start(&mut self) -> (action: AcceptorAction)
        ensures
            final(self).state == acceptor_after(old(self).state, AcceptorEvent::Start),
            action == acceptor_action(old(self).state, AcceptorEvent::Start),
    {
        self.on_event(AcceptorEvent::Start)
    }

    /// A session completed its handshake: it gets a handler of its own, and
    /// the acceptor goes on accepting.
    pub fn on_accepted(&mut self, remote: RemoteEndpoint) -> (action: AcceptorAction)
        ensures
            final(self).state == acceptor_after(old(self).state, AcceptorEvent::Accepted(remote)),
            action == acceptor_action(old(self).state, AcceptorEvent::Accepted(remote)),
    {
        self.on_event(AcceptorEvent::Accepted(remote))
    }

    /// The accept call failed: the acceptor is done.
    pub fn on_accept_failed(&mut self) -> (action: AcceptorAction)
        ensures
            final(self).state == acceptor_after(old(self).state, AcceptorEvent::AcceptFailed),
            action == acceptor_action(old(self).state, AcceptorEvent::AcceptFailed),
    {
        self.on_event(AcceptorEvent::AcceptFailed)
    }
}

/// Whether a run of events holds no failure of the accept call.
pub open spec fn no_accept_failure(events: Seq<AcceptorEvent>) -> bool {
    forall|i: int| 0 <= i < events.len() ==> #[trigger] events[i] != AcceptorEvent::AcceptFailed
}

/// As long as the accept call does not fail, an accepting acceptor goes on
/// accepting: however many sessions it has admitted and whatever became of
/// their handlers, the next session is handed to a handler at once.
pub proof fn lemma_admission_never_waits(events: Seq<AcceptorEvent>, remote: RemoteEndpoint)
    requires
        no_accept_failure(events),
    ensures
        acceptor_after_all(AcceptorState::Accepting, events) == AcceptorState::Accepting,
        acceptor_action(
            acceptor_after_all(AcceptorState::Accepting, events),
            AcceptorEvent::Accepted(remote),
        ) == AcceptorAction::Spawn(Session { remote, state: Lifecycle::Active }),
    decreases events.len(),
{
    if events.len() > 0 {
        let earlier = events.drop_last();
        assert forall|i: int| 0 <= i < earlier.len() implies #[trigger] earlier[i]
            != AcceptorEvent::AcceptFailed by {
            assert(earlier[i] == events[i]);
        }
        lemma_admission_never_waits(earlier, remote);
        assert(events.last() == events[events.len() - 1]);
    }
}

/// A failure of the accept call is final: after it the acceptor is failed,
/// and every later event is answered with shutdown.
pub proof fn lemma_accept_failure_is_fatal(later: Seq<AcceptorEvent>, event: AcceptorEvent)
    ensures
        acceptor_after(AcceptorState::Accepting, AcceptorEvent::AcceptFailed)
            == AcceptorState::Failed,
        acceptor_after_all(AcceptorState::Failed, later) == AcceptorState::Failed,
        acceptor_action(acceptor_after_all(AcceptorState::Failed, later), event)
            == AcceptorAction::Shutdown,
    decreases later.len(),
{
    if later.len() > 0 {
        lemma_accept_failure_is_fatal(later.drop_last(), event);
    }
}

/// The end of a handler changes nothing for the acceptor: it neither waits
/// for it nor reacts to it.
pub proof fn lemma_handlers_are_not_awaited(state: AcceptorState)
    ensures
        acceptor_after(state, AcceptorEvent::HandlerFinished) == state,
        state != AcceptorState::Failed ==> acceptor_action(state, AcceptorEvent::HandlerFinished)
            == AcceptorAction::Ignore,
{
}

} // verus!
