//! The clock source: wall-clock readings in whole nanoseconds since the
//! epoch, and the responder that hands one reading out per request.

use vstd::prelude::*;
use std::time::SystemTime;
use crate::outside::since_epoch;

verus! {

/// Nanoseconds in one second.
pub const NANOS_PER_SEC: u128 = 1_000_000_000;

/// The largest reading a [`Timestamp`] holds: one nanosecond short of
/// 2^64 seconds.
pub const MAX_NANOS: u128 = 18_446_744_073_709_551_615_999_999_999;

/// Why a clock reading could not be taken.
#[derive(Clone, Copy, Debug, PartialEq, Eq, Structural)]
pub enum ClockError {
    /// The clock stands before the epoch.
    BeforeEpoch,
}

/// A wall-clock reading, counted in nanoseconds since the epoch.
#[derive(Clone, Copy, Debug, PartialEq, Eq, Structural)]
pub struct Timestamp {
    nanos: u128,
}

impl Timestamp {
    #[verifier::type_invariant]
    spec fn in_range(self) -> bool {
        self.nanos <= MAX_NANOS
    }

    /// The reading as a number of nanoseconds since the epoch.
    pub closed spec fn nanos(self) -> nat {
        self.nanos as nat
    }

    /// Whether the reading lies within what a timestamp can hold. Every
    /// timestamp that executable code holds does.
    pub open spec fn wf(self) -> bool {
        self.nanos() <= MAX_NANOS
    }

    /// The reading of `secs` whole seconds and `subsec_nanos` nanoseconds,
    /// or `None` where `subsec_nanos` is not a fraction of a second.
    pub fn new(secs: u64, subsec_nanos: u32) -> (r: Option<Timestamp>)
        ensures
            r is Some <==> subsec_nanos < NANOS_PER_SEC,
            r matches Some(t) ==> t.nanos() == secs * NANOS_PER_SEC + subsec_nanos && t.wf(),
    {
        if subsec_nanos < 1_000_000_000 {
            let nanos: u128 = (secs as u128) * NANOS_PER_SEC + (subsec_nanos as u128);
            Some(Timestamp { nanos })
        } else {
            None
        }
    }

    /// The reading of `nanos` nanoseconds, or `None` where that is more
    /// than [`MAX_NANOS`].
    pub fn from_nanos(nanos: u128) -> (r: Option<Timestamp>)
        ensures
            r is Some <==> nanos <= MAX_NANOS,
            r matches Some(t) ==> t.nanos() == nanos && t.wf(),
    {
        if nanos <= MAX_NANOS {
            Some(Timestamp { nanos })
        } else {
            None
        }
    }

    /// Nanoseconds since the epoch.
    pub fn as_nanos(&self) -> (n: u128)
        ensures
            n == self.nanos(),
            n <= MAX_NANOS,
            self.wf(),
    {
        proof {
            use_type_invariant(self);
        }
        self.nanos
    }

    /// Whole seconds since the epoch.
    pub fn secs(&self) -> (s: u64)
        ensures
            s == self.nanos() / (NANOS_PER_SEC as nat),
    {
        proof {
            use_type_invariant(self);
        }
        (self.nanos / NANOS_PER_SEC) as u64
    }

    /// The nanoseconds past the last whole second.
    pub fn subsec_nanos(&self) -> (n: u32)
        ensures
            n == self.nanos() % (NANOS_PER_SEC as nat),
    {
        (self.nanos % NANOS_PER_SEC) as u32
    }
}

/// Two timestamps with the same reading are the same timestamp.
pub proof fn lemma_timestamp_by_nanos(a: Timestamp, b: Timestamp)
    requires
        a.nanos() == b.nanos(),
    ensures
        a == b,
{
}

/// The reading that the time elapsed since the epoch stands for, given as
/// whole seconds and nanoseconds past them; without an elapsed time the
/// clock stood before the epoch.
pub fn reading_of(elapsed: Option<(u64, u32)>) -> (r: Result<Timestamp, ClockError>)
    requires
        elapsed matches Some(parts) ==> parts.1 < NANOS_PER_SEC,
    ensures
        match elapsed {
            Some(parts) => r matches Ok(t) && t.nanos() == parts.0 * NANOS_PER_SEC + parts.1
                && t.wf(),
            None => r == Err::<Timestamp, ClockError>(ClockError::BeforeEpoch),
        },
{
    match elapsed {
        Some(parts) => match Timestamp::new(parts.0, parts.1) {
            Some(t) => Ok(t),
            None => Err(ClockError::BeforeEpoch),
        },
        None => Err(ClockError::BeforeEpoch),
    }
}

/// Reads the wall clock. Every call reads it anew; the call fails with
/// [`ClockError::BeforeEpoch`] where the clock stands before the epoch.
pub fn now() -> (r: Result<Timestamp, ClockError>)
    ensures
        r matches Ok(t) ==> t.wf(),
        r matches Err(e) ==> e == ClockError::BeforeEpoch,
{
    let reading = SystemTime::now();
    match since_epoch(&reading) {
        Ok(elapsed) => reading_of(Some((elapsed.as_secs(), elapsed.subsec_nanos()))),
        Err(_) => reading_of(None),
    }
}

/// The time responder: one fresh clock reading for one inbound request.
pub fn respond() -> (r: Result<Timestamp, ClockError>)
    ensures
        r matches Ok(t) ==> t.wf(),
        r matches Err(e) ==> e == ClockError::BeforeEpoch,
{
    now()
}

} // verus!
