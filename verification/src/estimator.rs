//! The client estimator's arithmetic: one sample of two local readings
//! around one server time, and the round-trip time and clock offset that
//! follow from it.
//!
//! The local readings are whole nanoseconds. The server's time is kept as it
//! came, and enters the arithmetic to the nanosecond.

use vstd::prelude::*;
use vstd::arithmetic::power2::pow2;
use crate::binary64::power_of_two;
use crate::binary64::reading_from_seconds;
use crate::binary64::seconds_reading;
use crate::clock::Timestamp;
use crate::clock::MAX_NANOS;
use crate::clock::NANOS_PER_SEC;
use crate::error::EstimatorError;

verus! {

/// What a server time amounts to in the estimator's arithmetic.
#[derive(Clone, Copy, Debug, PartialEq, Eq, Structural)]
pub enum ServerReading {
    /// No number at all.
    NotANumber,
    /// An infinity, or a number of 2^64 seconds or more of which no more is
    /// known: further from the epoch, before it or after it, than anything
    /// can be set against.
    Beyond { negative: bool },
    /// A whole number of 2^64 seconds or more: `significand` times two to
    /// the `doublings`. It is too large for 128 bits of nanoseconds, but it
    /// is known to the last digit.
    Far { negative: bool, significand: u64, doublings: u16 },
    /// A number within 2^64 seconds of the epoch: its sign, and its whole
    /// nanoseconds, what is below a nanosecond being dropped; `exact` says
    /// that nothing was. A zero keeps its sign.
    At { negative: bool, nanos: u128, exact: bool },
}

impl ServerReading {
    /// Whether each number stands in the form that is meant for it: below
    /// 2^64 seconds as nanoseconds, from 2^64 seconds on as a whole number
    /// of seconds.
    pub open spec fn wf(self) -> bool {
        match self {
            ServerReading::At { nanos, .. } => nanos <= MAX_NANOS,
            ServerReading::Far { significand, doublings, .. } => significand * pow2(
                doublings as nat,
            ) > u64::MAX,
            _ => true,
        }
    }

    /// The reading with each number in the form that is meant for it.
    /// Nanoseconds of 2^64 seconds or more are beyond reach.
    pub open spec fn normal(self) -> ServerReading {
        match self {
            ServerReading::At { negative, nanos, .. } => if nanos > MAX_NANOS {
                ServerReading::Beyond { negative }
            } else {
                self
            },
            ServerReading::Far { negative, significand, doublings } => if significand * pow2(
                doublings as nat,
            ) > u64::MAX {
                self
            } else {
                ServerReading::At {
                    negative,
                    nanos: (significand * pow2(doublings as nat) * NANOS_PER_SEC) as u128,
                    exact: true,
                }
            },
            _ => self,
        }
    }

    /// The whole nanoseconds of a number, whatever its size; none for what
    /// is no number or beyond reach.
    pub open spec fn whole_nanos(self) -> nat {
        match self {
            ServerReading::At { nanos, .. } => nanos as nat,
            ServerReading::Far { significand, doublings, .. } => (significand * pow2(
                doublings as nat,
            ) * NANOS_PER_SEC) as nat,
            _ => 0,
        }
    }

    /// Whether the number is its whole nanoseconds to the last digit.
    pub open spec fn is_exact(self) -> bool {
        match self {
            ServerReading::At { exact, .. } => exact,
            _ => true,
        }
    }

    /// Whether the number has the minus sign.
    pub open spec fn is_negative(self) -> bool {
        match self {
            ServerReading::At { negative, .. } => negative,
            ServerReading::Far { negative, .. } => negative,
            ServerReading::Beyond { negative } => negative,
            ServerReading::NotANumber => false,
        }
    }

    /// The reading in its normal form.
    pub fn normalized(self) -> (r: ServerReading)
        ensures
            r == self.normal(),
            r.wf(),
    {
        match self {
            ServerReading::At { negative, nanos, .. } => if nanos > MAX_NANOS {
                ServerReading::Beyond { negative }
            } else {
                self
            },
            ServerReading::Far { negative, significand, doublings } => {
                if significand == 0 {
                    assert(0 * pow2(doublings as nat) * NANOS_PER_SEC == 0) by (nonlinear_arith);
                    assert(0 * pow2(doublings as nat) == 0) by (nonlinear_arith);
                    return ServerReading::At { negative, nanos: 0, exact: true };
                }
                proof {
                    vstd::arithmetic::power2::lemma2_to64();
                }
                if doublings >= 64 {
                    proof {
                        if doublings > 64 {
                            vstd::arithmetic::power2::lemma_pow2_strictly_increases(
                                64,
                                doublings as nat,
                            );
                        }
                        assert(significand * pow2(doublings as nat) > u64::MAX) by (nonlinear_arith)
                            requires
                                significand >= 1,
                                pow2(doublings as nat) >= 0x1_0000_0000_0000_0000,
                        ;
                    }
                    return self;
                }
                let scale: u128 = power_of_two(doublings as u32);
                proof {
                    if doublings < 63 {
                        vstd::arithmetic::power2::lemma_pow2_strictly_increases(
                            doublings as nat,
                            63,
                        );
                    }
                    vstd::arithmetic::power2::lemma2_to64_rest();
                    assert(significand * scale <= 0xffff_ffff_ffff_ffff * 0x8000_0000_0000_0000)
                        by (nonlinear_arith)
                        requires
                            significand <= 0xffff_ffff_ffff_ffff,
                            scale <= 0x8000_0000_0000_0000,
                    ;
                }
                let whole: u128 = (significand as u128) * scale;
                if whole > u64::MAX as u128 {
                    self
                } else {
                    assert(whole * NANOS_PER_SEC <= MAX_NANOS) by (nonlinear_arith)
                        requires
                            whole <= u64::MAX,
                    ;
                    ServerReading::At { negative, nanos: whole * NANOS_PER_SEC, exact: true }
                }
            },
            _ => self,
        }
    }
}

/// The server's time as it came over the transport.
#[derive(Clone, Copy, Debug, PartialEq, Eq, Structural)]
pub enum ServerTime {
    /// Out of a datagram: the bit pattern of a binary64 of seconds, whatever
    /// it holds.
    Binary64(u64),
    /// Out of a response header: a decimal number of seconds, read to the
    /// nanosecond.
    Decimal(ServerReading),
}

impl ServerTime {
    /// What the server time amounts to.
    pub open spec fn value(self) -> ServerReading {
        match self {
            ServerTime::Binary64(bits) => seconds_reading(bits),
            ServerTime::Decimal(reading) => reading.normal(),
        }
    }

    /// What the server time amounts to.
    pub fn reading(&self) -> (r: ServerReading)
        ensures
            r == self.value(),
            r.wf(),
    {
        match self {
            ServerTime::Binary64(bits) => reading_from_seconds(*bits),
            ServerTime::Decimal(reading) => reading.normalized(),
        }
    }
}

/// By how much the local clock is ahead of the server's.
#[derive(Clone, Copy, Debug, PartialEq, Eq, Structural)]
pub enum Offset {
    /// Nothing: the server time is no number.
    NotANumber,
    /// More than 128 bits of nanoseconds hold, because the server time is
    /// 2^64 seconds or more from the epoch: behind a server time after the
    /// epoch (`negative`), ahead of one before it.
    Beyond { negative: bool },
    /// So many nanoseconds; negative where the local clock is behind.
    Nanos(i128),
}

/// The time a round trip took: local receive reading less local send
/// reading.
pub open spec fn rtt_nanos(t1: nat, t2: nat) -> int {
    t2 - t1
}

/// The local instant halfway between the two readings, rounded down to a
/// whole nanosecond: the local time that is set against the server's.
pub open spec fn midpoint_nanos(t1: nat, t2: nat) -> int {
    ((t1 + t2) / 2) as int
}

/// By how much the local clock is ahead of the server's: the midpoint of the
/// two local readings less the server's time, all in whole nanoseconds.
/// Negative where the local clock is behind.
pub open spec fn offset_nanos(t1: nat, server_time: int, t2: nat) -> int {
    midpoint_nanos(t1, t2) - server_time
}

/// Nanoseconds with their sign.
pub open spec fn signed_nanos(negative: bool, nanos: nat) -> int {
    if negative {
        -(nanos as int)
    } else {
        nanos as int
    }
}

/// The offset of local readings `t1` and `t2` against a server time.
pub open spec fn offset_against(t1: nat, server: ServerReading, t2: nat) -> Offset {
    match server {
        ServerReading::NotANumber => Offset::NotANumber,
        ServerReading::Beyond { negative } => Offset::Beyond { negative: !negative },
        ServerReading::Far { negative, .. } => Offset::Beyond { negative: !negative },
        ServerReading::At { negative, nanos, .. } => Offset::Nanos(
            offset_nanos(t1, signed_nanos(negative, nanos as nat), t2) as i128,
        ),
    }
}

/// One measurement: the local reading before the request left, the
/// server's time, and the local reading after the response came. The
/// first never lies after the last.
#[derive(Clone, Copy, Debug, PartialEq, Eq, Structural)]
pub struct SyncSample {
    t1: Timestamp,
    server_time: ServerTime,
    t2: Timestamp,
}

impl SyncSample {
    #[verifier::type_invariant]
    spec fn ordered(self) -> bool {
        &&& self.t1.wf()
        &&& self.t2.wf()
        &&& self.t1.nanos() <= self.t2.nanos()
    }

    /// The local reading taken before sending.
    pub closed spec fn sent(self) -> Timestamp {
        self.t1
    }

    /// The server's time.
    pub closed spec fn served(self) -> ServerTime {
        self.server_time
    }

    /// The local reading taken after receiving.
    pub closed spec fn received(self) -> Timestamp {
        self.t2
    }

    /// Whether the sample keeps its invariant. Every sample that executable
    /// code holds does.
    pub open spec fn wf(self) -> bool {
        &&& self.sent().wf()
        &&& self.received().wf()
        &&& self.sent().nanos() <= self.received().nanos()
    }

    /// The sample of the two readings and the server time between them,
    /// whatever the server time holds. Where the second local reading lies
    /// before the first, the local clock moved backward and there is no
    /// sample.
    pub fn new(t1: Timestamp, server_time: ServerTime, t2: Timestamp) -> (r: Result<
        SyncSample,
        EstimatorError,
    >)
        ensures
            r is Ok <==> t1.nanos() <= t2.nanos(),
            r matches Ok(s) ==> s.sent() == t1 && s.served() == server_time && s.received() == t2
                && s.wf(),
            r matches Err(e) ==> e == EstimatorError::ClockWentBackward,
    {
        let a: u128 = t1.as_nanos();
        let b: u128 = t2.as_nanos();
        if a <= b {
            Ok(SyncSample { t1, server_time, t2 })
        } else {
            Err(EstimatorError::ClockWentBackward)
        }
    }

    /// The local reading taken before sending.
    pub fn t1(&self) -> (t: Timestamp)
        ensures
            t == self.sent(),
    {
        self.t1
    }

    /// The server's time.
    pub fn server_time(&self) -> (t: ServerTime)
        ensures
            t == self.served(),
    {
        self.server_time
    }

    /// The local reading taken after receiving.
    pub fn t2(&self) -> (t: Timestamp)
        ensures
            t == self.received(),
    {
        self.t2
    }

    /// The round-trip time in nanoseconds, which is never negative.
    pub fn rtt(&self) -> (rtt: u128)
        ensures
            rtt == rtt_nanos(self.sent().nanos(), self.received().nanos()),
            self.wf(),
    {
        proof {
            use_type_invariant(self);
        }
        self.t2.as_nanos() - self.t1.as_nanos()
    }

    /// The local time set against the server's: the midpoint of the two
    /// local readings.
    pub fn adjusted_local_time(&self) -> (mid: Timestamp)
        ensures
            mid.nanos() == midpoint_nanos(self.sent().nanos(), self.received().nanos()),
            mid.wf(),
    {
        let a: u128 = self.t1.as_nanos();
        let b: u128 = self.t2.as_nanos();
        match Timestamp::from_nanos((a + b) / 2) {
            Some(mid) => mid,
            None => self.t1,
        }
    }

    /// The offset of the local clock from the server's: positive where the
    /// local clock is ahead.
    pub fn offset(&self) -> (offset: Offset)
        ensures
            offset == offset_against(
                self.sent().nanos(),
                self.served().value(),
                self.received().nanos(),
            ),
            offset matches Offset::Nanos(n) ==> -(MAX_NANOS as int) <= n <= 2 * MAX_NANOS,
    {
        let a: u128 = self.t1.as_nanos();
        let b: u128 = self.t2.as_nanos();
        let mid: u128 = (a + b) / 2;
        match self.server_time.reading() {
            ServerReading::NotANumber => Offset::NotANumber,
            ServerReading::Beyond { negative } => Offset::Beyond { negative: !negative },
            ServerReading::Far { negative, .. } => Offset::Beyond { negative: !negative },
            ServerReading::At { negative, nanos, .. } => if negative {
                Offset::Nanos((mid as i128) + (nanos as i128))
            } else {
                Offset::Nanos((mid as i128) - (nanos as i128))
            },
        }
    }
}

/// A sample is its two readings and its server time.
pub proof fn lemma_sample_by_readings(a: SyncSample, b: SyncSample)
    requires
        a.sent() == b.sent(),
        a.served() == b.served(),
        a.received() == b.received(),
    ensures
        a == b,
{
}

/// For readings in order, the round-trip time is not negative, and twice the
/// offset is the sum of the local readings less twice the server's time,
/// short of at most the one nanosecond that the midpoint was rounded down
/// by.
pub proof fn lemma_estimate(t1: nat, server_time: int, t2: nat)
    requires
        t1 <= t2,
    ensures
        rtt_nanos(t1, t2) == t2 - t1,
        rtt_nanos(t1, t2) >= 0,
        offset_nanos(t1, server_time, t2) == (t1 + t2) / 2 - server_time,
        2 * offset_nanos(t1, server_time, t2) <= t1 + t2 - 2 * server_time
            <= 2 * offset_nanos(t1, server_time, t2) + 1,
        t1 <= midpoint_nanos(t1, t2) <= t2,
{
}

/// The offset against a server time within reach is a number of
/// nanoseconds, the one that the formula gives; against any other server
/// time it is none.
pub proof fn lemma_offset_is_nanos(t1: nat, server: ServerReading, t2: nat)
    requires
        t1 <= t2 <= MAX_NANOS,
        server.wf(),
    ensures
        server matches ServerReading::At { negative, nanos, .. } ==> offset_against(t1, server, t2)
            == Offset::Nanos(((t1 + t2) / 2 - signed_nanos(negative, nanos as nat)) as i128) && -(
        MAX_NANOS as int) <= (t1 + t2) / 2 - signed_nanos(negative, nanos as nat) <= 2 * MAX_NANOS,
        !(server is At) ==> !(offset_against(t1, server, t2) is Nanos),
{
}

/// The midpoint method's guarantee. Let the local clock be ahead of the
/// server's by `ahead`, and let the server have read its clock at a local
/// instant between the two local readings. Then the estimated offset misses
/// `ahead` by no more than half the round-trip time, and half a nanosecond
/// more for the rounding of the midpoint.
pub proof fn lemma_offset_error_within_half_rtt(t1: nat, t2: nat, served_at: nat, ahead: int)
    requires
        t1 <= served_at <= t2,
    ensures
        ({
            let server_time = served_at - ahead;
            let estimate = offset_nanos(t1, server_time, t2);
            -(rtt_nanos(t1, t2) + 1) <= 2 * (estimate - ahead) <= rtt_nanos(t1, t2)
        }),
{
}

} // verus!
