//! Seconds since the epoch as an IEEE-754 binary64, the form in which a
//! reading travels in a datagram, read and written in integer arithmetic.
//!
//! A bit pattern with the sign bit clear and a biased exponent below 2047
//! stands for `significand * 2^exponent` seconds. Reading one gives the whole
//! nanoseconds it holds, where it holds a number within reach.

use vstd::prelude::*;
use vstd::arithmetic::power2::pow2;
use vstd::arithmetic::power2::lemma2_to64;
use vstd::arithmetic::power2::lemma_pow2_adds;
use vstd::arithmetic::power2::lemma_pow2_strictly_increases;
use vstd::arithmetic::power2::lemma_pow2_unfold;
use crate::clock::Timestamp;
use crate::clock::MAX_NANOS;
use crate::clock::NANOS_PER_SEC;
use crate::estimator::ServerReading;

verus! {

/// Two to the 52nd: the number of fraction patterns under one exponent.
pub const HIDDEN_BIT: u64 = 0x10_0000_0000_0000;

/// The smallest bit pattern that is not a finite number at or above zero:
/// positive infinity. The NaNs and every pattern with the sign bit set lie
/// above it.
pub const FIRST_NON_FINITE: u64 = 0x7ff0_0000_0000_0000;

/// The sign bit; what is below it is the number without its sign.
pub const SIGN_BIT: u64 = 0x8000_0000_0000_0000;

/// The exponent field of a bit pattern whose sign bit is clear.
pub open spec fn biased_exponent(bits: u64) -> nat {
    (bits / HIDDEN_BIT) as nat
}

/// The fraction field of a bit pattern.
pub open spec fn fraction(bits: u64) -> nat {
    (bits % HIDDEN_BIT) as nat
}

/// The integer that the fraction field stands for, with the hidden bit of a
/// normal number.
pub open spec fn significand(bits: u64) -> nat {
    if biased_exponent(bits) == 0 {
        fraction(bits)
    } else {
        HIDDEN_BIT as nat + fraction(bits)
    }
}

/// The power of two by which the significand is scaled.
pub open spec fn exponent(bits: u64) -> int {
    if biased_exponent(bits) == 0 {
        -1074
    } else {
        biased_exponent(bits) - 1075
    }
}

/// The whole nanoseconds in `bits` seconds, what is below a nanosecond being
/// dropped, for a pattern with a clear sign bit. There are none where `bits`
/// is an infinity or a NaN, and where it is 2^64 seconds or more.
pub open spec fn seconds_as_nanos(bits: u64) -> Option<nat> {
    if bits >= FIRST_NON_FINITE {
        None
    } else if exponent(bits) >= 0 {
        let secs = significand(bits) * pow2(exponent(bits) as nat);
        if secs <= u64::MAX {
            Some((secs * NANOS_PER_SEC) as nat)
        } else {
            None
        }
    } else {
        Some(((significand(bits) * NANOS_PER_SEC) as nat) / pow2((-exponent(bits)) as nat))
    }
}

proof fn lemma_pow2_96()
    ensures
        pow2(96) == 0x1_0000_0000_0000_0000_0000_0000,
        pow2(83) == 0x8_0000_0000_0000_0000_0000,
        pow2(82) == 0x4_0000_0000_0000_0000_0000,
{
    lemma2_to64();
    lemma_pow2_adds(64, 32);
    lemma_pow2_adds(64, 19);
    lemma_pow2_adds(64, 18);
}

pub(crate) fn power_of_two(k: u32) -> (p: u128)
    requires
        k <= 96,
    ensures
        p == pow2(k as nat),
        p >= 1,
{
    let mut p: u128 = 1;
    let mut i: u32 = 0;
    proof {
        lemma2_to64();
    }
    while i < k
        invariant
            i <= k <= 96,
            p == pow2(i as nat),
            p >= 1,
        decreases k - i,
    {
        proof {
            lemma_pow2_unfold((i + 1) as nat);
            lemma_pow2_96();
            if i + 1 < 96 {
                lemma_pow2_strictly_increases((i + 1) as nat, 96);
            }
        }
        p = p * 2;
        i = i + 1;
    }
    p
}

/// The whole nanoseconds in a binary64 of seconds with a clear sign bit,
/// where they are within reach.
fn nanos_in_seconds(bits: u64) -> (r: Option<Timestamp>)
    ensures
        r is Some <==> seconds_as_nanos(bits) is Some,
        r matches Some(t) ==> Some(t.nanos()) == seconds_as_nanos(bits) && t.wf(),
{
    if bits >= FIRST_NON_FINITE {
        return None;
    }
    let biased: u64 = bits / HIDDEN_BIT;
    let frac: u64 = bits % HIDDEN_BIT;
    let m: u64 = if biased == 0 {
        frac
    } else {
        HIDDEN_BIT + frac
    };
    assert(m == significand(bits));
    if biased >= 1075 {
        let e: u64 = biased - 1075;
        assert(e == exponent(bits));
        if e > 11 {
            proof {
                lemma2_to64();
                if e > 12 {
                    lemma_pow2_strictly_increases(12, e as nat);
                }
                assert(m as nat * pow2(e as nat) > u64::MAX) by (nonlinear_arith)
                    requires
                        m >= 0x10_0000_0000_0000,
                        pow2(e as nat) >= 4096,
                ;
            }
            return None;
        }
        let p: u128 = power_of_two(e as u32);
        proof {
            lemma2_to64();
            if e < 11 {
                lemma_pow2_strictly_increases(e as nat, 11);
            }
            assert(m as nat * p as nat <= 0x20_0000_0000_0000 * 2048) by (nonlinear_arith)
                requires
                    m < 0x20_0000_0000_0000,
                    p <= 2048,
            ;
        }
        let secs: u128 = (m as u128) * p;
        if secs > u64::MAX as u128 {
            None
        } else {
            assert(secs * NANOS_PER_SEC <= MAX_NANOS) by (nonlinear_arith)
                requires
                    secs <= u64::MAX,
            ;
            Timestamp::from_nanos(secs * NANOS_PER_SEC)
        }
    } else {
        let k: u64 = if biased == 0 {
            1074
        } else {
            1075 - biased
        };
        assert(k == -exponent(bits));
        assert(m as nat * NANOS_PER_SEC < 0x8_0000_0000_0000_0000_0000) by (nonlinear_arith)
            requires
                m < 0x20_0000_0000_0000,
        ;
        let x: u128 = (m as u128) * NANOS_PER_SEC;
        if k >= 83 {
            proof {
                lemma_pow2_96();
                if k > 83 {
                    lemma_pow2_strictly_increases(83, k as nat);
                }
                vstd::arithmetic::div_mod::lemma_basic_div(x as int, pow2(k as nat) as int);
            }
            Timestamp::from_nanos(0)
        } else {
            let p: u128 = power_of_two(k as u32);
            proof {
                vstd::arithmetic::div_mod::lemma_div_nonincreasing(x as int, p as int);
            }
            Timestamp::from_nanos(x / p)
        }
    }
}

/// Whether a finite number of seconds at or above zero is a whole number
/// of nanoseconds.
pub open spec fn seconds_are_whole_nanos(bits: u64) -> bool {
    exponent(bits) >= 0 || (significand(bits) * NANOS_PER_SEC) % (pow2(
        (-exponent(bits)) as nat,
    ) as int) == 0
}

/// What a binary64 of seconds amounts to, whatever its bit pattern: no
/// number where it is a NaN; beyond reach where it is an infinity; where it
/// is 2^64 seconds or more, that whole number of seconds; otherwise its
/// whole nanoseconds, and whether it is those to the last digit. A number
/// has its sign.
pub open spec fn seconds_reading(bits: u64) -> ServerReading {
    let negative = bits >= SIGN_BIT;
    let unsigned = (bits % SIGN_BIT) as u64;
    if unsigned > FIRST_NON_FINITE {
        ServerReading::NotANumber
    } else if unsigned == FIRST_NON_FINITE {
        ServerReading::Beyond { negative }
    } else {
        match seconds_as_nanos(unsigned) {
            Some(nanos) => ServerReading::At {
                negative,
                nanos: nanos as u128,
                exact: seconds_are_whole_nanos(unsigned),
            },
            None => ServerReading::Far {
                negative,
                significand: significand(unsigned) as u64,
                doublings: exponent(unsigned) as u16,
            },
        }
    }
}

fn whole_nanos(bits: u64) -> (whole: bool)
    requires
        bits < FIRST_NON_FINITE,
    ensures
        whole == seconds_are_whole_nanos(bits),
{
    let biased: u64 = bits / HIDDEN_BIT;
    let frac: u64 = bits % HIDDEN_BIT;
    if biased >= 1075 {
        return true;
    }
    let m: u64 = if biased == 0 {
        frac
    } else {
        HIDDEN_BIT + frac
    };
    let k: u64 = if biased == 0 {
        1074
    } else {
        1075 - biased
    };
    assert(m == significand(bits));
    assert(k == -exponent(bits));
    assert(m as nat * NANOS_PER_SEC < 0x8_0000_0000_0000_0000_0000) by (nonlinear_arith)
        requires
            m < 0x20_0000_0000_0000,
    ;
    let x: u128 = (m as u128) * NANOS_PER_SEC;
    if k >= 83 {
        proof {
            lemma_pow2_96();
            if k > 83 {
                lemma_pow2_strictly_increases(83, k as nat);
            }
            vstd::arithmetic::div_mod::lemma_small_mod(x as nat, pow2(k as nat));
        }
        x == 0
    } else {
        let p: u128 = power_of_two(k as u32);
        x % p == 0
    }
}

/// Reads a binary64 of seconds, whatever its bit pattern.
pub fn reading_from_seconds(bits: u64) -> (r: ServerReading)
    ensures
        r == seconds_reading(bits),
        r.wf(),
{
    let negative: bool = bits >= SIGN_BIT;
    let unsigned: u64 = bits % SIGN_BIT;
    if unsigned > FIRST_NON_FINITE {
        ServerReading::NotANumber
    } else if unsigned == FIRST_NON_FINITE {
        ServerReading::Beyond { negative }
    } else {
        match nanos_in_seconds(unsigned) {
            Some(t) => ServerReading::At {
                negative,
                nanos: t.as_nanos(),
                exact: whole_nanos(unsigned),
            },
            None => {
                let biased: u64 = unsigned / HIDDEN_BIT;
                ServerReading::Far {
                    negative,
                    significand: HIDDEN_BIT + unsigned % HIDDEN_BIT,
                    doublings: (biased - 1075) as u16,
                }
            },
        }
    }
}

} // verus!
