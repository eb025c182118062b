//! The session handler's decisions: what one persistent session does with
//! each datagram, and when it ends. The handler's loop lives with the
//! transport; it hands each event to the session and performs the reaction.

use vstd::prelude::*;
use crate::nearest::reading_seconds;
use crate::nearest::seconds_from_timestamp;
use crate::clock::respond;
use crate::clock::ClockError;
use crate::clock::Timestamp;
use crate::wire::build_response;
use crate::wire::request_token;
use crate::wire::response_bytes;
use crate::wire::TOKEN_LEN;

verus! {

/// Who is at the other end of a session: an address, as the 128 bits of an
/// IPv6 address, and a port.
#[derive(Clone, Copy, Debug, PartialEq, Eq, Structural)]
pub struct RemoteEndpoint {
    pub address: u128,
    pub port: u16,
}

/// Where a session stands in its life.
#[derive(Clone, Copy, Debug, PartialEq, Eq, Structural)]
pub enum Lifecycle {
    /// Datagrams are served.
    Active,
    /// The session is over; nothing is served any more.
    Closed,
}

/// One persistent connection, owned by the one handler that serves it.
#[derive(Clone, Copy, Debug, PartialEq, Eq, Structural)]
pub struct Session {
    pub remote: RemoteEndpoint,
    pub state: Lifecycle,
}

/// What the handler does after an event.
#[derive(Debug, PartialEq, Eq)]
pub enum Reaction {
    /// Send nothing and wait for the next event.
    Wait,
    /// Send these bytes back as one datagram, then wait for the next event.
    Reply(Vec<u8>),
    /// Leave the loop: the session is over.
    Stop,
}

/// The response owed for a datagram when the clock gave `reading`: none for
/// a datagram too short to hold a token and none without a reading;
/// otherwise the datagram's first eight bytes, untouched, and the reading.
pub open spec fn response_for(datagram: Seq<u8>, reading: Result<Timestamp, ClockError>) -> Option<
    Seq<u8>,
> {
    if datagram.len() < TOKEN_LEN {
        None
    } else {
        match reading {
            Ok(t) => Some(response_bytes(datagram.subrange(0, 8), reading_seconds(t.nanos()))),
            Err(_) => None,
        }
    }
}

/// What can happen to a session while its handler waits.
pub enum SessionEvent {
    /// A datagram of these bytes arrived, and the time responder, where it
    /// is asked, returns this reading.
    Datagram { bytes: Seq<u8>, reading: Result<Timestamp, ClockError> },
    /// The session's close signal fired.
    Closed,
    /// The transport failed to send or to receive.
    TransportFailure,
}

/// The state of a session after an event: datagrams leave it as it is,
/// everything else closes it.
pub open spec fn state_after(state: Lifecycle, event: SessionEvent) -> Lifecycle {
    match event {
        SessionEvent::Datagram { .. } => state,
        SessionEvent::Closed => Lifecycle::Closed,
        SessionEvent::TransportFailure => Lifecycle::Closed,
    }
}

/// The response that a session in `state` emits for an event: only an
/// active session emits one, and only for a datagram.
pub open spec fn response_to(state: Lifecycle, event: SessionEvent) -> Option<Seq<u8>> {
    match (state, event) {
        (Lifecycle::Active, SessionEvent::Datagram { bytes, reading }) => response_for(
            bytes,
            reading,
        ),
        _ => None,
    }
}

/// The state of a session after a run of events, in their order.
pub open spec fn state_after_all(state: Lifecycle, events: Seq<SessionEvent>) -> Lifecycle
    decreases events.len(),
{
    if events.len() == 0 {
        state
    } else {
        state_after(state_after_all(state, events.drop_last()), events.last())
    }
}

/// Whether `reaction` is what the handler does when the session stands in
/// `next` after an event and owes `response` for it: it stops where the
/// session is closed, replies where a response is owed, and waits
/// otherwise.
pub open spec fn is_reaction(reaction: Reaction, next: Lifecycle, response: Option<Seq<u8>>) -> bool {
    match next {
        Lifecycle::Closed => reaction == Reaction::Stop,
        Lifecycle::Active => match response {
            Some(bytes) => reaction matches Reaction::Reply(sent) && sent@ == bytes,
            None => reaction == Reaction::Wait,
        },
    }
}

/// Which event the handler acts on when it wakes with the close signal
/// fired or not and a datagram at hand or not. The close signal is looked
/// at first: where both are there, the datagram is passed over.
pub open spec fn event_on_wake(
    close_fired: bool,
    datagram: Option<Seq<u8>>,
    reading: Result<Timestamp, ClockError>,
) -> Option<SessionEvent> {
    if close_fired {
        Some(SessionEvent::Closed)
    } else {
        match datagram {
            Some(bytes) => Some(SessionEvent::Datagram { bytes, reading }),
            None => None,
        }
    }
}

/// The bytes of the datagram at hand, if there is one.
pub open spec fn bytes_at_hand(datagram: Option<&[u8]>) -> Option<Seq<u8>> {
    match datagram {
        Some(bytes) => Some(bytes@),
        None => None,
    }
}

/// The reaction of an active session to a datagram, given the reading that
/// the time responder returned for it.
pub fn answer(datagram: &[u8], reading: Result<Timestamp, ClockError>) -> (reaction: Reaction)
    ensures
        is_reaction(reaction, Lifecycle::Active, response_for(datagram@, reading)),
{
    match request_token(datagram) {
        None => Reaction::Wait,
        Some(token) => match reading {
            Ok(t) => Reaction::Reply(build_response(&token, seconds_from_timestamp(&t))),
            Err(_) => Reaction::Wait,
        },
    }
}

impl Session {
    /// A session as it is when its handshake has completed: active.
    pub fn open(remote: RemoteEndpoint) -> (session: Session)
        ensures
            session == (Session { remote, state: Lifecycle::Active }),
    {
        Session { remote, state: Lifecycle::Active }
    }

    /// Whether the session still serves datagrams.
    pub fn is_active(&self) -> (active: bool)
        ensures
            active == (self.state == Lifecycle::Active),
    {
        match self.state {
            Lifecycle::Active => true,
            Lifecycle::Closed => false,
        }
    }

    /// A datagram arrived. A closed session stops without a response. An
    /// active one stays active: it waits on where the datagram is shorter
    /// than a token, and otherwise asks the time responder once and either
    /// replies with the token and the reading or, where the clock failed,
    /// drops the request in silence. Whatever the clock returned, a reply
    /// is sixteen bytes that open with the datagram's own first eight.
    pub fn on_datagram(&mut self, datagram: &[u8]) -> (reaction: Reaction)
        ensures
            *final(self) == *old(self),
            exists|reading: Result<Timestamp, ClockError>|
                is_reaction(
                    reaction,
                    old(self).state,
                    #[trigger] response_to(
                        old(self).state,
                        SessionEvent::Datagram { bytes: datagram@, reading },
                    ),
                ),
            datagram@.len() < TOKEN_LEN ==> !(reaction is Reply),
            reaction matches Reaction::Reply(sent) ==> sent@.len() == 16 && sent@.subrange(0, 8)
                == datagram@.subrange(0, 8),
    {
        match self.state {
            Lifecycle::Closed => {
                assert(is_reaction(
                    Reaction::Stop,
                    Lifecycle::Closed,
                    response_to(
                        Lifecycle::Closed,
                        SessionEvent::Datagram {
                            bytes: datagram@,
                            reading: Err(ClockError::BeforeEpoch),
                        },
                    ),
                ));
                Reaction::Stop
            },
            Lifecycle::Active => {
                if datagram.len() < TOKEN_LEN {
                    assert(is_reaction(
                        Reaction::Wait,
                        Lifecycle::Active,
                        response_to(
                            Lifecycle::Active,
                            SessionEvent::Datagram {
                                bytes: datagram@,
                                reading: Err(ClockError::BeforeEpoch),
                            },
                        ),
                    ));
                    Reaction::Wait
                } else {
                    let reading = respond();
                    let reaction = answer(datagram, reading);
                    proof {
                        assert(is_reaction(
                            reaction,
                            Lifecycle::Active,
                            response_to(
                                Lifecycle::Active,
                                SessionEvent::Datagram { bytes: datagram@, reading },
                            ),
                        ));
                        if reaction is Reply {
                            let sent = reaction->Reply_0;
                            crate::wire::lemma_value_of_digits(
                                reading_seconds(reading->Ok_0.nanos()) as nat,
                                8,
                            );
                            assert(sent@.subrange(0, 8) =~= datagram@.subrange(0, 8));
                        }
                    }
                    reaction
                }
            },
        }
    }

    /// The close signal fired: the session is closed and the handler stops,
    /// whatever else is waiting.
    pub fn on_closed(&mut self) -> (reaction: Reaction)
        ensures
            final(self).remote == old(self).remote,
            final(self).state == state_after(old(self).state, SessionEvent::Closed),
            is_reaction(
                reaction,
                final(self).state,
                response_to(old(self).state, SessionEvent::Closed),
            ),
    {
        self.state = Lifecycle::Closed;
        Reaction::Stop
    }

    /// The transport failed to send or to receive: this session ends, and
    /// only this one.
    pub fn on_transport_failure(&mut self) -> (reaction: Reaction)
        ensures
            final(self).remote == old(self).remote,
            final(self).state == state_after(old(self).state, SessionEvent::TransportFailure),
            is_reaction(
                reaction,
                final(self).state,
                response_to(old(self).state, SessionEvent::TransportFailure),
            ),
    {
        self.state = Lifecycle::Closed;
        Reaction::Stop
    }

    /// The handler woke with the close signal fired or not, and with a
    /// datagram at hand or not. The close signal is looked at first: where
    /// it has fired the session closes and the datagram, though received,
    /// gets no response. Otherwise the datagram, if any, is served.
    pub fn on_wake(&mut self, close_fired: bool, datagram: Option<&[u8]>) -> (reaction: Reaction)
        ensures
            final(self).remote == old(self).remote,
            exists|reading: Result<Timestamp, ClockError>|
                match #[trigger] event_on_wake(
                    close_fired,
                    bytes_at_hand(datagram),
                    reading,
                ) {
                    Some(event) => {
                        &&& final(self).state == state_after(old(self).state, event)
                        &&& is_reaction(
                            reaction,
                            final(self).state,
                            response_to(old(self).state, event),
                        )
                    },
                    None => {
                        &&& final(self).state == old(self).state
                        &&& is_reaction(reaction, final(self).state, None)
                    },
                },
            close_fired ==> reaction == Reaction::Stop,
            reaction matches Reaction::Reply(sent) ==> datagram matches Some(bytes) && sent@.len()
                == 16 && sent@.subrange(0, 8) == bytes@.subrange(0, 8),
    {
        if close_fired {
            let reaction = self.on_closed();
            assert(event_on_wake(
                close_fired,
                bytes_at_hand(datagram),
                Err(ClockError::BeforeEpoch),
            ) == Some(SessionEvent::Closed));
            reaction
        } else {
            match datagram {
                Some(bytes) => {
                    let reaction = self.on_datagram(bytes);
                    proof {
                        let reading = choose|reading: Result<Timestamp, ClockError>|
                            is_reaction(
                                reaction,
                                old(self).state,
                                #[trigger] response_to(
                                    old(self).state,
                                    SessionEvent::Datagram { bytes: bytes@, reading },
                                ),
                            );
                        assert(event_on_wake(close_fired, bytes_at_hand(datagram), reading) == Some(
                            SessionEvent::Datagram { bytes: bytes@, reading },
                        ));
                    }
                    reaction
                },
                None => {
                    assert(event_on_wake(
                        close_fired,
                        bytes_at_hand(datagram),
                        Err(ClockError::BeforeEpoch),
                    ) is None);
                    match self.state {
                        Lifecycle::Active => Reaction::Wait,
                        Lifecycle::Closed => Reaction::Stop,
                    }
                },
            }
        }
    }
}

/// A closed session stays closed, whatever happens to it.
pub proof fn lemma_closed_is_final(events: Seq<SessionEvent>)
    ensures
        state_after_all(Lifecycle::Closed, events) == Lifecycle::Closed,
    decreases events.len(),
{
    if events.len() > 0 {
        lemma_closed_is_final(events.drop_last());
    }
}

/// Once the close signal has fired, nothing that arrives afterward gets a
/// response: not after any run of further events, and not a datagram that
/// is well formed.
pub proof fn lemma_no_response_after_close(
    start: Lifecycle,
    before: Seq<SessionEvent>,
    after: Seq<SessionEvent>,
    event: SessionEvent,
)
    ensures
        state_after_all(start, before.push(SessionEvent::Closed) + after) == Lifecycle::Closed,
        response_to(state_after_all(start, before.push(SessionEvent::Closed) + after), event)
            is None,
    decreases after.len(),
{
    let closed = before.push(SessionEvent::Closed);
    if after.len() == 0 {
        assert(closed + after =~= closed);
        assert(closed.drop_last() =~= before);
    } else {
        lemma_no_response_after_close(start, before, after.drop_last(), event);
        assert((closed + after).drop_last() =~= closed + after.drop_last());
    }
}

/// A datagram too short to hold a token gets no response and leaves the
/// session as it was, so that the datagram after it is served as if the
/// short one had never come.
pub proof fn lemma_short_datagram_is_passed_over(
    state: Lifecycle,
    short: Seq<u8>,
    reading: Result<Timestamp, ClockError>,
    next: SessionEvent,
)
    requires
        short.len() < TOKEN_LEN,
    ensures
        response_to(state, SessionEvent::Datagram { bytes: short, reading }) is None,
        state_after(state, SessionEvent::Datagram { bytes: short, reading }) == state,
        response_to(state_after(state, SessionEvent::Datagram { bytes: short, reading }), next)
            == response_to(state, next),
{
}

/// An active session answers a datagram of eight bytes or more, when the
/// clock can be read, with sixteen bytes: the datagram's first eight and
/// the reading.
pub proof fn lemma_response_echoes_token(bytes: Seq<u8>, reading: Timestamp)
    requires
        bytes.len() >= TOKEN_LEN,
    ensures
        response_to(Lifecycle::Active, SessionEvent::Datagram { bytes, reading: Ok(reading) })
            is Some,
        response_to(
            Lifecycle::Active,
            SessionEvent::Datagram { bytes, reading: Ok(reading) },
        )->0.len() == 16,
        response_to(
            Lifecycle::Active,
            SessionEvent::Datagram { bytes, reading: Ok(reading) },
        )->0.subrange(0, 8) == bytes.subrange(0, 8),
{
    let bits = reading_seconds(reading.nanos());
    crate::wire::lemma_value_of_digits(bits as nat, 8);
    assert(response_bytes(bytes.subrange(0, 8), bits).subrange(0, 8) =~= bytes.subrange(0, 8));
}

/// Two sessions that are sent differently tagged datagrams each answer with
/// their own tag: what one session emits depends on its own datagram and on
/// the clock, and on nothing that the other session received.
pub proof fn lemma_sessions_do_not_mix(
    first: Seq<u8>,
    second: Seq<u8>,
    first_reading: Timestamp,
    second_reading: Timestamp,
)
    requires
        first.len() >= TOKEN_LEN,
        second.len() >= TOKEN_LEN,
        first.subrange(0, 8) != second.subrange(0, 8),
    ensures
        ({
            let a = response_to(
                Lifecycle::Active,
                SessionEvent::Datagram { bytes: first, reading: Ok(first_reading) },
            );
            let b = response_to(
                Lifecycle::Active,
                SessionEvent::Datagram { bytes: second, reading: Ok(second_reading) },
            );
            &&& a is Some && b is Some
            &&& a->0.subrange(0, 8) == first.subrange(0, 8)
            &&& b->0.subrange(0, 8) == second.subrange(0, 8)
            &&& a->0.subrange(0, 8) != second.subrange(0, 8)
            &&& b->0.subrange(0, 8) != first.subrange(0, 8)
        }),
{
    lemma_response_echoes_token(first, first_reading);
    lemma_response_echoes_token(second, second_reading);
}

} // verus!
