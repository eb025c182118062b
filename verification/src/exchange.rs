//! The client estimator's sequence: one measurement, step by step. The
//! transport and the clock live outside; each thing they report is handed to
//! the exchange, which says what to do next and, in the end, gives the
//! sample or the reason why there is none.

use vstd::prelude::*;
use crate::clock::ClockError;
use crate::clock::Timestamp;
use crate::error::EstimatorError;
use crate::error::Phase;
use crate::error::ProtocolError;
use crate::estimator::ServerTime;
use crate::estimator::SyncSample;
use crate::http::read_time_reply;
use crate::http::reading_in_reply;
use crate::http::value_at_hand;
use crate::nearest::reading_seconds;
use crate::nearest::seconds_from_timestamp;
use crate::wire::encode_u64_le;
use crate::wire::le_digits;
use crate::wire::le_value;
use crate::wire::parse_response;
use crate::wire::response_bytes;
use crate::wire::RESPONSE_LEN;

verus! {

/// The two transports a measurement can go over.
#[derive(Clone, Copy, Debug, PartialEq, Eq, Structural)]
pub enum Transport {
    /// One request and one response, the reading in a response header.
    SingleShot,
    /// Datagrams over a persistent session.
    Session,
}

/// How far a measurement has come.
#[derive(Clone, Copy, Debug, PartialEq, Eq)]
pub enum Stage {
    /// Nothing has been done.
    Ready,
    /// The connection is being set up: over the single-shot transport by a
    /// throwaway request, whose time is thereby kept out of the measurement.
    Connecting,
    /// Waiting for the local reading before the send.
    ReadingSendClock,
    /// The timed datagram has been handed to the transport.
    Sending { t1: Timestamp },
    /// Waiting for the server's answer.
    Awaiting { t1: Timestamp },
    /// The measurement has ended, with a sample or without.
    Finished,
}

/// What the driver of a measurement does next.
#[derive(Clone, Copy, Debug, PartialEq, Eq)]
pub enum Step {
    /// Send the throwaway request and report how it went.
    SendWarmUp,
    /// Connect the session and report how it went.
    Connect,
    /// Read the clock and report the reading.
    ReadClock,
    /// Send the timed request; when the response is there, read the clock,
    /// and report both.
    SendRequest,
    /// Send these eight bytes as one datagram and report how it went.
    SendDatagram([u8; 8]),
    /// Wait for one datagram; when it is there, read the clock, and report
    /// both.
    AwaitDatagram,
    /// The measurement is over: this is its result.
    Finish(Result<SyncSample, EstimatorError>),
    /// Nothing: the report does not fit the stage, and the stage stands.
    Ignore,
}

/// One measurement over one transport.
#[derive(Clone, Copy, Debug, PartialEq, Eq)]
pub struct Exchange {
    pub transport: Transport,
    pub stage: Stage,
}

/// What a response datagram holds for the client: the server's time, the
/// eight bytes of the timestamp field as they are, where the datagram has
/// its sixteen bytes. No datagram of sixteen bytes or more is turned down.
pub open spec fn served_by_datagram(datagram: Seq<u8>) -> Result<ServerTime, ProtocolError> {
    if datagram.len() < RESPONSE_LEN {
        Err(ProtocolError::ShortDatagram { len: datagram.len() as usize })
    } else {
        Ok(ServerTime::Binary64(le_value(datagram.subrange(8, 16)) as u64))
    }
}

/// Whether `result` is what a measurement gives for the first local reading
/// `t1`, the outcome `reading` of the look at the clock on receipt of the
/// answer, and what the answer holds, `served`. The clock is judged first:
/// it was read before the answer was looked at. Then comes a bad answer,
/// then a clock that went backward.
pub open spec fn is_outcome(
    result: Result<SyncSample, EstimatorError>,
    t1: Timestamp,
    served: Result<ServerTime, ProtocolError>,
    reading: Result<Timestamp, ClockError>,
) -> bool {
    match reading {
        Err(e) => result == Err::<SyncSample, EstimatorError>(EstimatorError::Clock(e)),
        Ok(t2) => match served {
            Err(e) => result == Err::<SyncSample, EstimatorError>(EstimatorError::Protocol(e)),
            Ok(server_time) => if t1.nanos() <= t2.nanos() {
                &&& result is Ok
                &&& result->Ok_0.sent() == t1
                &&& result->Ok_0.served() == server_time
                &&& result->Ok_0.received() == t2
                &&& result->Ok_0.wf()
            } else {
                result == Err::<SyncSample, EstimatorError>(EstimatorError::ClockWentBackward)
            },
        },
    }
}

/// The stage after the driver was told to begin, or to go again.
pub open spec fn stage_on_begin(transport: Transport, stage: Stage) -> Stage {
    match stage {
        Stage::Ready => Stage::Connecting,
        Stage::Finished => match transport {
            Transport::SingleShot => Stage::Connecting,
            Transport::Session => Stage::ReadingSendClock,
        },
        _ => stage,
    }
}

/// The step on beginning, or on going again. A finished measurement over a
/// session is followed by another on the same session, with no new
/// connection and nothing carried over.
pub open spec fn step_on_begin(transport: Transport, stage: Stage) -> Step {
    match stage {
        Stage::Ready => match transport {
            Transport::SingleShot => Step::SendWarmUp,
            Transport::Session => Step::Connect,
        },
        Stage::Finished => match transport {
            Transport::SingleShot => Step::SendWarmUp,
            Transport::Session => Step::ReadClock,
        },
        _ => Step::Ignore,
    }
}

/// The stage after the transport reported that what it was asked to do
/// succeeded.
pub open spec fn stage_on_completed(stage: Stage) -> Stage {
    match stage {
        Stage::Connecting => Stage::ReadingSendClock,
        Stage::Sending { t1 } => Stage::Awaiting { t1 },
        _ => stage,
    }
}

/// The step after such a report.
pub open spec fn step_on_completed(stage: Stage) -> Step {
    match stage {
        Stage::Connecting => Step::ReadClock,
        Stage::Sending { .. } => Step::AwaitDatagram,
        _ => Step::Ignore,
    }
}

/// The phase that a transport failure at `stage` is charged to, where a
/// transport operation is outstanding at that stage.
pub open spec fn failed_phase(stage: Stage) -> Option<Phase> {
    match stage {
        Stage::Connecting => Some(Phase::Connect),
        Stage::Sending { .. } => Some(Phase::Send),
        Stage::Awaiting { .. } => Some(Phase::Receive),
        _ => None,
    }
}

/// Reads a response datagram for the client: the server's time, or why
/// there is none.
pub fn read_datagram(datagram: &[u8]) -> (served: Result<ServerTime, ProtocolError>)
    ensures
        served == served_by_datagram(datagram@),
{
    match parse_response(datagram) {
        Err(e) => Err(e),
        Ok(response) => Ok(ServerTime::Binary64(response.timestamp_bits)),
    }
}

/// The result of a measurement, from the first local reading, what was read
/// of the answer, and the look at the clock on its receipt.
pub fn conclude(
    t1: Timestamp,
    served: Result<ServerTime, ProtocolError>,
    reading: Result<Timestamp, ClockError>,
) -> (result: Result<SyncSample, EstimatorError>)
    ensures
        is_outcome(result, t1, served, reading),
{
    match reading {
        Err(e) => Err(EstimatorError::Clock(e)),
        Ok(t2) => match served {
            Err(e) => Err(EstimatorError::Protocol(e)),
            Ok(server_time) => SyncSample::new(t1, server_time, t2),
        },
    }
}

impl Exchange {
    /// A measurement that has not begun.
    pub fn new(transport: Transport) -> (exchange: Exchange)
        ensures
            exchange == (Exchange { transport, stage: Stage::Ready }),
    {
        Exchange { transport, stage: Stage::Ready }
    }

    /// Whether the measurement has ended.
    pub fn is_finished(&self) -> (finished: bool)
        ensures
            finished == (self.stage == Stage::Finished),
    {
        match self.stage {
            Stage::Finished => true,
            _ => false,
        }
    }

    /// Begins the measurement, or the next one after a finished one.
    pub fn begin(&mut self) -> (step: Step)
        ensures
            final(self).transport == old(self).transport,
            final(self).stage == stage_on_begin(old(self).transport, old(self).stage),
            step == step_on_begin(old(self).transport, old(self).stage),
    {
        match self.stage {
            Stage::Ready => {
                self.stage = Stage::Connecting;
                match self.transport {
                    Transport::SingleShot => Step::SendWarmUp,
                    Transport::Session => Step::Connect,
                }
            },
            Stage::Finished => match self.transport {
                Transport::SingleShot => {
                    self.stage = Stage::Connecting;
                    Step::SendWarmUp
                },
                Transport::Session => {
                    self.stage = Stage::ReadingSendClock;
                    Step::ReadClock
                },
            },
            _ => Step::Ignore,
        }
    }

    /// The transport did what it was asked: the connection stands, or the
    /// datagram is out.
    pub fn on_completed(&mut self) -> (step: Step)
        ensures
            final(self).transport == old(self).transport,
            final(self).stage == stage_on_completed(old(self).stage),
            step == step_on_completed(old(self).stage),
    {
        match self.stage {
            Stage::Connecting => {
                self.stage = Stage::ReadingSendClock;
                Step::ReadClock
            },
            Stage::Sending { t1 } => {
                self.stage = Stage::Awaiting { t1 };
                Step::AwaitDatagram
            },
            _ => Step::Ignore,
        }
    }

    /// The transport failed at what it was asked. That ends the measurement,
    /// with the phase that was under way.
    pub fn on_failed(&mut self) -> (step: Step)
        ensures
            final(self).transport == old(self).transport,
            match failed_phase(old(self).stage) {
                Some(phase) => {
                    &&& final(self).stage == Stage::Finished
                    &&& step == Step::Finish(Err(EstimatorError::Transport(phase)))
                },
                None => final(self).stage == old(self).stage && step == Step::Ignore,
            },
    {
        let phase = match self.stage {
            Stage::Connecting => Phase::Connect,
            Stage::Sending { .. } => Phase::Send,
            Stage::Awaiting { .. } => Phase::Receive,
            _ => {
                return Step::Ignore;
            },
        };
        self.stage = Stage::Finished;
        Step::Finish(Err(EstimatorError::Transport(phase)))
    }

    /// The clock was read before the send. A reading starts the timed
    /// request: over a session the datagram to send holds the reading as a
    /// little-endian binary64 of seconds. A clock that could not be read
    /// ends the measurement.
    pub fn on_clock(&mut self, reading: Result<Timestamp, ClockError>) -> (step: Step)
        ensures
            final(self).transport == old(self).transport,
            match old(self).stage {
                Stage::ReadingSendClock => match reading {
                    Err(e) => {
                        &&& final(self).stage == Stage::Finished
                        &&& step == Step::Finish(Err(EstimatorError::Clock(e)))
                    },
                    Ok(t1) => match old(self).transport {
                        Transport::SingleShot => {
                            &&& final(self).stage == (Stage::Awaiting { t1 })
                            &&& step == Step::SendRequest
                        },
                        Transport::Session => {
                            &&& final(self).stage == (Stage::Sending { t1 })
                            &&& step is SendDatagram
                            &&& step->SendDatagram_0@ == le_digits(
                                reading_seconds(t1.nanos()) as nat,
                                8,
                            )
                        },
                    },
                },
                _ => final(self).stage == old(self).stage && step == Step::Ignore,
            },
    {
        match self.stage {
            Stage::ReadingSendClock => match reading {
                Err(e) => {
                    self.stage = Stage::Finished;
                    Step::Finish(Err(EstimatorError::Clock(e)))
                },
                Ok(t1) => match self.transport {
                    Transport::SingleShot => {
                        self.stage = Stage::Awaiting { t1 };
                        Step::SendRequest
                    },
                    Transport::Session => {
                        self.stage = Stage::Sending { t1 };
                        Step::SendDatagram(encode_u64_le(seconds_from_timestamp(&t1)))
                    },
                },
            },
            _ => Step::Ignore,
        }
    }

    /// The response to the timed request came, with this status and this
    /// value of the timestamp header, and on its receipt the clock gave
    /// `reading`. The reading was taken before anything of the response was
    /// looked at, so it is judged first; only then is the response read.
    /// That ends the measurement.
    pub fn on_reply(
        &mut self,
        status: u16,
        header: Option<&[u8]>,
        reading: Result<Timestamp, ClockError>,
    ) -> (step: Step)
        ensures
            final(self).transport == old(self).transport,
            match (old(self).transport, old(self).stage) {
                (Transport::SingleShot, Stage::Awaiting { t1 }) => {
                    &&& final(self).stage == Stage::Finished
                    &&& step is Finish
                    &&& is_outcome(
                        step->Finish_0,
                        t1,
                        reading_in_reply(status, value_at_hand(header)),
                        reading,
                    )
                },
                _ => final(self).stage == old(self).stage && step == Step::Ignore,
            },
    {
        match (self.transport, self.stage) {
            (Transport::SingleShot, Stage::Awaiting { t1 }) => {
                self.stage = Stage::Finished;
                match reading {
                    Err(e) => Step::Finish(Err(EstimatorError::Clock(e))),
                    Ok(_) => Step::Finish(conclude(t1, read_time_reply(status, header), reading)),
                }
            },
            _ => Step::Ignore,
        }
    }

    /// The response datagram came, and on its receipt the clock gave
    /// `reading`. The reading was taken before anything of the datagram was
    /// looked at, so it is judged first; only then is the datagram's length
    /// checked and its timestamp field read. That ends the measurement.
    pub fn on_datagram(&mut self, datagram: &[u8], reading: Result<Timestamp, ClockError>) -> (step:
        Step)
        ensures
            final(self).transport == old(self).transport,
            match (old(self).transport, old(self).stage) {
                (Transport::Session, Stage::Awaiting { t1 }) => {
                    &&& final(self).stage == Stage::Finished
                    &&& step is Finish
                    &&& is_outcome(step->Finish_0, t1, served_by_datagram(datagram@), reading)
                },
                _ => final(self).stage == old(self).stage && step == Step::Ignore,
            },
    {
        match (self.transport, self.stage) {
            (Transport::Session, Stage::Awaiting { t1 }) => {
                self.stage = Stage::Finished;
                match reading {
                    Err(e) => Step::Finish(Err(EstimatorError::Clock(e))),
                    Ok(_) => Step::Finish(conclude(t1, read_datagram(datagram), reading)),
                }
            },
            _ => Step::Ignore,
        }
    }
}

/// The timestamp field loses nothing. Whatever binary64 a server wrote, a
/// client reads that same binary64 out of the response, bit for bit,
/// whatever the token and whatever follows the sixteen bytes.
pub proof fn lemma_datagram_round_trip(token: Seq<u8>, bits: u64, trailing: Seq<u8>)
    requires
        token.len() == 8,
    ensures
        served_by_datagram(response_bytes(token, bits) + trailing) == Ok::<
            ServerTime,
            ProtocolError,
        >(ServerTime::Binary64(bits)),
{
    crate::wire::lemma_response_round_trip(token, bits, trailing);
}

/// The token that a client sends for its reading, echoed by a server in
/// front of the server's own reading, holds the client's binary64 as it
/// was written; and read in the place of the timestamp field, as it would
/// be were it echoed there, it is that binary64 again.
pub proof fn lemma_token_round_trip(sent: nat, served: nat)
    ensures
        le_digits(reading_seconds(sent) as nat, 8).len() == 8,
        le_value(le_digits(reading_seconds(sent) as nat, 8)) == reading_seconds(sent),
        served_by_datagram(
            response_bytes(le_digits(reading_seconds(sent) as nat, 8), reading_seconds(served)),
        ) == Ok::<ServerTime, ProtocolError>(ServerTime::Binary64(reading_seconds(served))),
        served_by_datagram(
            response_bytes(le_digits(reading_seconds(sent) as nat, 8), reading_seconds(sent)),
        ) == Ok::<ServerTime, ProtocolError>(ServerTime::Binary64(reading_seconds(sent))),
{
    let token = le_digits(reading_seconds(sent) as nat, 8);
    crate::wire::lemma_value_of_digits(reading_seconds(sent) as nat, 8);
    crate::wire::lemma_u64_round_trip(reading_seconds(sent));
    lemma_datagram_round_trip(token, reading_seconds(served), Seq::empty());
    lemma_datagram_round_trip(token, reading_seconds(sent), Seq::empty());
    assert(response_bytes(token, reading_seconds(served)) + Seq::<u8>::empty()
        =~= response_bytes(token, reading_seconds(served)));
    assert(response_bytes(token, reading_seconds(sent)) + Seq::<u8>::empty() =~= response_bytes(
        token,
        reading_seconds(sent),
    ));
}

/// Over a session, the length of the response and the order of the two
/// local readings decide, and nothing else does: with the clock read on
/// receipt, a response of fewer than sixteen bytes gives a protocol error
/// that names its length, and every response of sixteen bytes or more gives
/// a sample, whatever its bytes, unless the clock went backward. The sample
/// holds the two readings and the timestamp field bit for bit.
pub proof fn lemma_session_outcome(
    result: Result<SyncSample, EstimatorError>,
    t1: Timestamp,
    datagram: Seq<u8>,
    t2: Timestamp,
)
    requires
        is_outcome(result, t1, served_by_datagram(datagram), Ok(t2)),
    ensures
        datagram.len() < RESPONSE_LEN ==> result == Err::<SyncSample, EstimatorError>(
            EstimatorError::Protocol(ProtocolError::ShortDatagram { len: datagram.len() as usize }),
        ),
        datagram.len() >= RESPONSE_LEN && t1.nanos() > t2.nanos() ==> result == Err::<
            SyncSample,
            EstimatorError,
        >(EstimatorError::ClockWentBackward),
        result is Ok <==> datagram.len() >= RESPONSE_LEN && t1.nanos() <= t2.nanos(),
        result matches Ok(sample) ==> {
            &&& sample.sent() == t1
            &&& sample.received() == t2
            &&& sample.served() == ServerTime::Binary64(le_value(datagram.subrange(8, 16)) as u64)
        },
{
}

/// Over the single-shot transport, with the clock read on receipt, a sample
/// is owed exactly where the status is a success, the timestamp header is
/// there, is text and is a number in decimal notation, and the clock did
/// not go backward.
pub proof fn lemma_single_shot_outcome(
    result: Result<SyncSample, EstimatorError>,
    t1: Timestamp,
    status: u16,
    header: Option<Seq<u8>>,
    t2: Timestamp,
)
    requires
        is_outcome(result, t1, reading_in_reply(status, header), Ok(t2)),
    ensures
        result is Ok <==> {
            &&& crate::http::is_success(status)
            &&& header is Some
            &&& crate::http::is_text(header->0)
            &&& crate::decimal::text_reading(header->0) is Some
            &&& t1.nanos() <= t2.nanos()
        },
        result matches Ok(sample) ==> {
            &&& sample.sent() == t1
            &&& sample.received() == t2
            &&& sample.served() == ServerTime::Decimal(crate::decimal::text_reading(header->0)->0)
        },
{
}

} // verus!
