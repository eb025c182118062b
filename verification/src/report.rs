//! What a measurement is shown as: the target, the server's time, the local
//! time set against it, and offset and round-trip time in milliseconds, one
//! to a line.

use vstd::prelude::*;
use vstd::string::*;
use vstd::arithmetic::power2::pow2;
use crate::big::are_digits;
use crate::big::digits_from;
use crate::big::minus;
use crate::big::number_of;
use crate::big::plus;
use crate::big::push_number;
use crate::big::times_power_of_two;
use crate::big::trimmed;
use crate::clock::MAX_NANOS;
use crate::clock::NANOS_PER_SEC;
use crate::decimal::digits_of;
use crate::decimal::fixed_digits;
use crate::decimal::fixed_point_text;
use crate::decimal::pow10;
use crate::decimal::push_fixed_digits;
use crate::decimal::push_fixed_point;
use crate::decimal::MINUS;
use crate::decimal::POINT;
use crate::estimator::midpoint_nanos;
use crate::estimator::offset_nanos;
use crate::estimator::rtt_nanos;
use crate::estimator::signed_nanos;
use crate::estimator::ServerReading;
use crate::estimator::SyncSample;

verus! {

/// Nanoseconds rounded to the nearest microsecond, halves away from zero.
pub open spec fn rounded_micros(nanos: int) -> int {
    if nanos >= 0 {
        (nanos + 500) / 1000
    } else {
        -((-nanos + 500) / 1000)
    }
}

/// Nanoseconds at or above zero rounded to the nearest microsecond; a half
/// goes to the even microsecond where the nanoseconds are `exact`, and up
/// where something below them was dropped.
pub open spec fn nearest_micros(nanos: nat, exact: bool) -> nat {
    if nanos % 1000 > 500 || (nanos % 1000 == 500 && (!exact || (nanos / 1000) % 2 == 1)) {
        nanos / 1000 + 1
    } else {
        nanos / 1000
    }
}

/// A count, negative or not, of units of ten to the minus `places`, written
/// with a point and `places` digits after it, and a minus sign in front
/// where it is below zero.
pub open spec fn signed_fixed_point_text(value: int, places: nat) -> Seq<u8> {
    if value < 0 {
        seq![MINUS] + fixed_point_text((-value) as nat, places)
    } else {
        fixed_point_text(value as nat, places)
    }
}

/// The characters of ASCII bytes.
pub open spec fn ascii_text(bytes: Seq<u8>) -> Seq<char> {
    Seq::new(bytes.len(), |i: int| bytes[i] as char)
}

/// The line that names the target.
pub open spec fn server_line(url: Seq<char>) -> Seq<char> {
    "Server: "@ + url
}

/// A server time as it is shown: in seconds, rounded to the nearest
/// microsecond, with its sign where it has one, whatever its size; `NaN`
/// where it is no number, and `inf` or `-inf` where it is beyond reach.
pub open spec fn server_time_text(reading: ServerReading) -> Seq<char> {
    match reading {
        ServerReading::NotANumber => "NaN"@,
        ServerReading::Beyond { negative } => if negative {
            "-inf"@
        } else {
            "inf"@
        },
        _ => ascii_text(
            if reading.is_negative() {
                seq![MINUS] + fixed_point_text(
                    nearest_micros(reading.whole_nanos(), reading.is_exact()),
                    6,
                )
            } else {
                fixed_point_text(nearest_micros(reading.whole_nanos(), reading.is_exact()), 6)
            },
        ),
    }
}

/// The offset of local readings `t1` and `t2` against a server time as it
/// is shown: the midpoint of the readings less the server time, in
/// milliseconds to the microsecond, whatever its size; `NaN` where the
/// server time is no number, and `-inf` or `inf` where it is beyond reach
/// after the epoch or before it.
pub open spec fn offset_text(t1: nat, server: ServerReading, t2: nat) -> Seq<char> {
    match server {
        ServerReading::NotANumber => "NaN"@,
        ServerReading::Beyond { negative } => if negative {
            "inf"@
        } else {
            "-inf"@
        },
        _ => ascii_text(
            signed_fixed_point_text(
                rounded_micros(
                    offset_nanos(t1, signed_nanos(server.is_negative(), server.whole_nanos()), t2),
                ),
                3,
            ),
        ),
    }
}

/// The line of the server's time.
pub open spec fn server_time_line(reading: ServerReading) -> Seq<char> {
    "Server time: "@ + server_time_text(reading)
}

/// The line of the local time that is set against the server's: the
/// midpoint of the two local readings, in seconds to the microsecond.
pub open spec fn local_time_line(t1: nat, t2: nat) -> Seq<char> {
    "Local time:  "@ + ascii_text(
        fixed_point_text(rounded_micros(midpoint_nanos(t1, t2)) as nat, 6),
    ) + " (RTT-adjusted)"@
}

/// The line of the offset.
pub open spec fn offset_line(t1: nat, server: ServerReading, t2: nat) -> Seq<char> {
    "Offset:      "@ + offset_text(t1, server, t2) + " milliseconds"@
}

/// The line of the round-trip time, in milliseconds to the microsecond.
pub open spec fn rtt_line(t1: nat, t2: nat) -> Seq<char> {
    "RTT:         "@ + ascii_text(fixed_point_text(rounded_micros(rtt_nanos(t1, t2)) as nat, 3))
        + " milliseconds"@
}

fn push_ascii(out: &mut String, bytes: &Vec<u8>)
    ensures
        final(out)@ == old(out)@ + ascii_text(bytes@),
{
    let mut i: usize = 0;
    assert(out@ =~= old(out)@ + ascii_text(bytes@).subrange(0, 0));
    while i < bytes.len()
        invariant
            i <= bytes@.len(),
            out@ == old(out)@ + ascii_text(bytes@).subrange(0, i as int),
        decreases bytes@.len() - i,
    {
        out.push(bytes[i] as char);
        i = i + 1;
        assert(out@ =~= old(out)@ + ascii_text(bytes@).subrange(0, i as int));
    }
    assert(ascii_text(bytes@).subrange(0, i as int) =~= ascii_text(bytes@));
}

fn micros_of(nanos: u128) -> (micros: u128)
    requires
        nanos <= u128::MAX - 500,
    ensures
        micros == rounded_micros(nanos as int),
{
    (nanos + 500) / 1000
}

fn nearest_micros_of(nanos: u128, exact: bool) -> (micros: u128)
    requires
        nanos <= u128::MAX - 1000,
    ensures
        micros == nearest_micros(nanos as nat, exact),
{
    let whole: u128 = nanos / 1000;
    let rest: u128 = nanos % 1000;
    if rest > 500 || (rest == 500 && (!exact || whole % 2 == 1)) {
        whole + 1
    } else {
        whole
    }
}

fn infinity_text(negative: bool) -> (text: &'static str)
    ensures
        text@ == if negative {
            "-inf"@
        } else {
            "inf"@
        },
{
    if negative {
        "-inf"
    } else {
        "inf"
    }
}

proof fn lemma_small_powers()
    ensures
        pow10(3) == 1000,
        pow10(5) == 100_000,
        pow10(6) == 1_000_000,
{
    reveal_with_fuel(pow10, 7);
}

fn push_far_seconds(field: &mut Vec<u8>, significand: u64, doublings: u16)
    ensures
        final(field)@ == old(field)@ + fixed_point_text(
            nearest_micros((significand * pow2(doublings as nat) * NANOS_PER_SEC) as nat, true),
            6,
        ),
{
    let whole = times_power_of_two(significand as u128, doublings);
    let ghost w = number_of(whole@);
    push_number(field, &whole);
    field.push(POINT);
    push_fixed_digits(field, 0, 6);
    proof {
        lemma_small_powers();
        let n = (significand * pow2(doublings as nat) * NANOS_PER_SEC) as nat;
        assert(n == 1000 * (w * 1_000_000)) by (nonlinear_arith)
            requires
                n == w * 1_000_000_000,
        ;
        vstd::arithmetic::div_mod::lemma_fundamental_div_mod_converse(
            n as int,
            1000,
            (w * 1_000_000) as int,
            0,
        );
        assert(nearest_micros(n, true) == w * 1_000_000);
        assert(w * 1_000_000 == 1_000_000 * w + 0) by (nonlinear_arith);
        vstd::arithmetic::div_mod::lemma_fundamental_div_mod_converse(
            (w * 1_000_000) as int,
            1_000_000,
            w as int,
            0,
        );
        assert(field@ =~= old(field)@ + (digits_of(w) + seq![POINT] + fixed_digits(0, 6)));
    }
}

fn push_far_offset(
    field: &mut Vec<u8>,
    midpoint: u128,
    negative: bool,
    significand: u64,
    doublings: u16,
)
    requires
        midpoint <= MAX_NANOS,
        significand * pow2(doublings as nat) > u64::MAX,
    ensures
        final(field)@ == old(field)@ + signed_fixed_point_text(
            rounded_micros(
                midpoint - signed_nanos(
                    negative,
                    (significand * pow2(doublings as nat) * NANOS_PER_SEC) as nat,
                ),
            ),
            3,
        ),
{
    let ghost far = (significand * pow2(doublings as nat) * NANOS_PER_SEC) as nat;
    assert(significand * NANOS_PER_SEC <= 0xffff_ffff_ffff_ffff * 1_000_000_000)
        by (nonlinear_arith)
        requires
            significand <= 0xffff_ffff_ffff_ffff,
    ;
    let all = times_power_of_two((significand as u128) * NANOS_PER_SEC, doublings);
    proof {
        lemma_small_powers();
        assert(number_of(all@) == far) by (nonlinear_arith)
            requires
                number_of(all@) == (significand * 1_000_000_000) * pow2(doublings as nat),
                far == significand * pow2(doublings as nat) * 1_000_000_000,
        ;
        assert(far > MAX_NANOS) by (nonlinear_arith)
            requires
                far == significand * pow2(doublings as nat) * 1_000_000_000,
                significand * pow2(doublings as nat) > u64::MAX,
        ;
        crate::big::lemma_number_bound(all@);
        if all@.len() <= 5 {
            crate::decimal::lemma_pow10_increases(all@.len(), 5);
        }
    }
    let sum = if negative {
        plus(&all, midpoint + 500)
    } else if midpoint >= 500 {
        minus(&all, midpoint - 500)
    } else {
        plus(&all, 500 - midpoint)
    };
    let ghost x = number_of(sum@);
    let ghost micros = x / 1000;
    assert(sum@[3] <= 9 && sum@[4] <= 9 && sum@[5] <= 9);
    let low: u128 = (sum[3] as u128) + 10 * (sum[4] as u128) + 100 * (sum[5] as u128);
    let tail = digits_from(&sum, 6);
    assert forall|i: int| 0 <= i < tail@.len() implies #[trigger] tail@[i] <= 9 by {
        assert(tail@[i] == sum@[i + 6]);
    }
    let high = trimmed(tail);
    proof {
        let y = sum@.subrange(3, sum@.len() as int);
        crate::big::lemma_number_split(sum@, 3);
        assert forall|i: int| 0 <= i < y.len() implies #[trigger] y[i] <= 9 by {
            assert(y[i] == sum@[i + 3]);
        }
        crate::big::lemma_number_split(y, 3);
        assert(y.subrange(3, y.len() as int) =~= tail@);
        let three = y.subrange(0, 3);
        assert(three =~= seq![sum@[3], sum@[4], sum@[5]]);
        assert(number_of(three) == low) by {
            reveal_with_fuel(number_of, 4);
            assert(three.drop_first() =~= seq![sum@[4], sum@[5]]);
            assert(three.drop_first().drop_first() =~= seq![sum@[5]]);
            assert(three.drop_first().drop_first().drop_first() =~= Seq::<u8>::empty());
        }
        assert(number_of(y) == micros);
        assert(number_of(high@) == micros / 1000);
        assert(low == micros % 1000);
        if high@.len() > 0 {
            crate::big::lemma_trimmed_is_positive(high@);
        }
        assert(micros == 1000 * (micros / 1000) + micros % 1000) by {
            vstd::arithmetic::div_mod::lemma_fundamental_div_mod(micros as int, 1000);
        }
    }
    let nothing: bool = high.len() == 0 && low == 0;
    assert(nothing == (micros == 0));
    if !negative && !nothing {
        field.push(MINUS);
    }
    let ghost sign = field@;
    push_number(field, &high);
    field.push(POINT);
    push_fixed_digits(field, low, 3);
    proof {
        assert(field@ =~= sign + fixed_point_text(micros, 3));
        let offset = midpoint - signed_nanos(negative, far);
        if negative {
            assert(rounded_micros(offset) == micros);
        } else {
            assert(rounded_micros(offset) == -(micros as int));
            if nothing {
                assert(sign =~= old(field)@);
            } else {
                assert(sign =~= old(field)@ + seq![MINUS]);
            }
        }
    }
}

/// The five lines that show a measurement taken from `url`.
pub fn report(url: &str, sample: &SyncSample) -> (lines: Vec<String>)
    ensures
        lines@.len() == 5,
        lines@[0]@ == server_line(url@),
        lines@[1]@ == server_time_line(sample.served().value()),
        lines@[2]@ == local_time_line(sample.sent().nanos(), sample.received().nanos()),
        lines@[3]@ == offset_line(
            sample.sent().nanos(),
            sample.served().value(),
            sample.received().nanos(),
        ),
        lines@[4]@ == rtt_line(sample.sent().nanos(), sample.received().nanos()),
{
    let mut lines: Vec<String> = Vec::new();
    lines.push(String::from_str("Server: ").concat(url));

    let reading = sample.server_time().reading();
    let midpoint: u128 = sample.adjusted_local_time().as_nanos();

    let mut line: String = String::from_str("Server time: ");
    match reading {
        ServerReading::NotANumber => {
            line = line.concat("NaN");
        },
        ServerReading::Beyond { negative } => {
            line = line.concat(infinity_text(negative));
        },
        ServerReading::At { negative, nanos, exact } => {
            let mut field: Vec<u8> = Vec::new();
            if negative {
                field.push(MINUS);
            }
            let ghost sign = field@;
            push_fixed_point(&mut field, nearest_micros_of(nanos, exact), 6);
            assert(negative ==> sign =~= seq![MINUS]);
            assert(!negative ==> field@ =~= fixed_point_text(
                nearest_micros(nanos as nat, exact),
                6,
            ));
            push_ascii(&mut line, &field);
        },
        ServerReading::Far { negative, significand, doublings } => {
            let mut field: Vec<u8> = Vec::new();
            if negative {
                field.push(MINUS);
            }
            let ghost sign = field@;
            push_far_seconds(&mut field, significand, doublings);
            assert(negative ==> sign =~= seq![MINUS]);
            assert(!negative ==> field@ =~= fixed_point_text(
                nearest_micros(reading.whole_nanos(), true),
                6,
            ));
            push_ascii(&mut line, &field);
        },
    }
    lines.push(line);

    let mut field: Vec<u8> = Vec::new();
    push_fixed_point(&mut field, micros_of(midpoint), 6);
    let mut line: String = String::from_str("Local time:  ");
    push_ascii(&mut line, &field);
    lines.push(line.concat(" (RTT-adjusted)"));

    let mut line: String = String::from_str("Offset:      ");
    match reading {
        ServerReading::NotANumber => {
            line = line.concat("NaN");
        },
        ServerReading::Beyond { negative } => {
            line = line.concat(infinity_text(!negative));
        },
        ServerReading::At { negative, nanos, .. } => {
            let offset: i128 = if negative {
                (midpoint as i128) + (nanos as i128)
            } else {
                (midpoint as i128) - (nanos as i128)
            };
            let mut field: Vec<u8> = Vec::new();
            if offset < 0 {
                let micros: u128 = micros_of((-offset) as u128);
                if micros > 0 {
                    field.push(MINUS);
                }
                push_fixed_point(&mut field, micros, 3);
            } else {
                push_fixed_point(&mut field, micros_of(offset as u128), 3);
            }
            push_ascii(&mut line, &field);
        },
        ServerReading::Far { negative, significand, doublings } => {
            let mut field: Vec<u8> = Vec::new();
            push_far_offset(&mut field, midpoint, negative, significand, doublings);
            assert(field@ =~= signed_fixed_point_text(
                rounded_micros(
                    offset_nanos(
                        sample.sent().nanos(),
                        signed_nanos(negative, reading.whole_nanos()),
                        sample.received().nanos(),
                    ),
                ),
                3,
            ));
            push_ascii(&mut line, &field);
        },
    }
    lines.push(line.concat(" milliseconds"));

    let mut field: Vec<u8> = Vec::new();
    push_fixed_point(&mut field, micros_of(sample.rtt()), 3);
    let mut line: String = String::from_str("RTT:         ");
    push_ascii(&mut line, &field);
    lines.push(line.concat(" milliseconds"));
    lines
}

} // verus!
