//! Seconds since the epoch as decimal text, the form in which a reading
//! travels in a response header. What is written is whole seconds, a point,
//! and the fraction. What is read is any number in decimal notation: an
//! optional sign, digits with an optional point among them, and an optional
//! power of ten after an `e`; or, after the sign, one of the words `inf`,
//! `infinity` and `nan` in either case.

use vstd::prelude::*;
use vstd::slice::slice_subrange;
use crate::clock::Timestamp;
use crate::clock::MAX_NANOS;
use crate::clock::NANOS_PER_SEC;
use crate::error::ProtocolError;
use crate::estimator::ServerReading;

verus! {

/// The byte of the decimal point.
pub const POINT: u8 = 0x2e;

/// The byte of the digit zero; the other digits follow it.
pub const ZERO: u8 = 0x30;

/// Whether `b` is one of the ten digits.
pub open spec fn is_digit(b: u8) -> bool {
    ZERO <= b <= ZERO + 9
}

/// Whether `s` holds digits only.
pub open spec fn all_digits(s: Seq<u8>) -> bool {
    forall|i: int| 0 <= i < s.len() ==> is_digit(#[trigger] s[i])
}

/// The number that the digit `b` stands for.
pub open spec fn digit_of(b: u8) -> nat {
    if b >= ZERO {
        (b - ZERO) as nat
    } else {
        0
    }
}

/// The number that the digits of `s` write, most significant first.
pub open spec fn digits_value(s: Seq<u8>) -> nat
    decreases s.len(),
{
    if s.len() == 0 {
        0
    } else {
        digits_value(s.drop_last()) * 10 + digit_of(s.last())
    }
}

/// Ten to the `e`th.
pub open spec fn pow10(e: nat) -> nat
    decreases e,
{
    if e == 0 {
        1
    } else {
        10 * pow10((e - 1) as nat)
    }
}

/// Where the first point of `s` stands, or the length of `s` where it has
/// none.
pub open spec fn point_at(s: Seq<u8>) -> nat
    decreases s.len(),
{
    if s.len() == 0 || s[0] == POINT {
        0
    } else {
        1 + point_at(s.drop_first())
    }
}

/// The text before the first point.
pub open spec fn whole_part(s: Seq<u8>) -> Seq<u8> {
    s.subrange(0, point_at(s) as int)
}

/// The text after the first point; empty where there is no point.
pub open spec fn fraction_part(s: Seq<u8>) -> Seq<u8> {
    if point_at(s) < s.len() {
        s.subrange(point_at(s) as int + 1, s.len() as int)
    } else {
        Seq::empty()
    }
}

/// Whether `s` is a decimal number: digits, with at most one point among
/// them, and at least one digit.
pub open spec fn is_decimal(s: Seq<u8>) -> bool {
    &&& all_digits(whole_part(s))
    &&& all_digits(fraction_part(s))
    &&& whole_part(s).len() + fraction_part(s).len() > 0
}

/// The point of a text stands where `point_at` says: no point before it,
/// and a point at it unless the text ends there.
pub proof fn lemma_point_at(s: Seq<u8>)
    ensures
        point_at(s) <= s.len(),
        forall|j: int| 0 <= j < point_at(s) ==> #[trigger] s[j] != POINT,
        point_at(s) < s.len() ==> s[point_at(s) as int] == POINT,
    decreases s.len(),
{
    if s.len() == 0 || s[0] == POINT {
    } else {
        let rest = s.drop_first();
        lemma_point_at(rest);
        assert forall|j: int| 0 <= j < point_at(s) implies #[trigger] s[j] != POINT by {
            if j > 0 {
                assert(s[j] == rest[j - 1]);
            }
        }
        if point_at(s) < s.len() {
            assert(s[point_at(s) as int] == rest[point_at(rest) as int]);
        }
    }
}

/// One more digit at the end multiplies by ten and adds the digit.
pub proof fn lemma_digits_value_push(s: Seq<u8>, b: u8)
    ensures
        digits_value(s.push(b)) == digits_value(s) * 10 + digit_of(b),
        digits_value(s.push(b)) >= digits_value(s),
{
    assert(s.push(b).drop_last() =~= s);
    assert(s.push(b).last() == b);
}

/// Powers of ten multiply by adding their exponents.
pub proof fn lemma_pow10_adds(a: nat, b: nat)
    ensures
        pow10(a + b) == pow10(a) * pow10(b),
        pow10(a) >= 1,
    decreases a,
{
    if a == 0 {
    } else {
        lemma_pow10_adds((a - 1) as nat, b);
        assert(10 * (pow10((a - 1) as nat) * pow10(b)) == (10 * pow10((a - 1) as nat)) * pow10(b))
            by (nonlinear_arith);
    }
}

proof fn lemma_pow10_9()
    ensures
        pow10(9) == 1_000_000_000,
{
    reveal_with_fuel(pow10, 10);
}

/// The byte of the plus sign.
pub const PLUS: u8 = 0x2b;

/// The byte of the minus sign.
pub const MINUS: u8 = 0x2d;

/// The byte of the small letter that opens the power of ten.
pub const LOWER_E: u8 = 0x65;

/// The byte of the capital letter that opens the power of ten.
pub const UPPER_E: u8 = 0x45;

/// The largest power of ten that is told apart from a larger one: beyond
/// it every number is zero or out of reach.
pub const MAX_POWER: i128 = 1_000_000_000_000_000_000_000_000_000_000;

/// Whether `s` opens with a sign.
pub open spec fn has_sign(s: Seq<u8>) -> bool {
    s.len() > 0 && (s[0] == PLUS || s[0] == MINUS)
}

/// Whether `s` opens with the minus sign.
pub open spec fn is_negative(s: Seq<u8>) -> bool {
    s.len() > 0 && s[0] == MINUS
}

/// What follows the sign of `s`; all of `s` where it has none.
pub open spec fn unsigned_part(s: Seq<u8>) -> Seq<u8> {
    if has_sign(s) {
        s.subrange(1, s.len() as int)
    } else {
        s
    }
}

/// Whether `b` opens a power of ten.
pub open spec fn is_marker(b: u8) -> bool {
    b == LOWER_E || b == UPPER_E
}

/// Where the first `e` of `s` stands, or the length of `s` where it has
/// none.
pub open spec fn marker_at(s: Seq<u8>) -> nat
    decreases s.len(),
{
    if s.len() == 0 || is_marker(s[0]) {
        0
    } else {
        1 + marker_at(s.drop_first())
    }
}

/// The text before the first `e`.
pub open spec fn mantissa(s: Seq<u8>) -> Seq<u8> {
    s.subrange(0, marker_at(s) as int)
}

/// The text after the first `e`, where there is one.
pub open spec fn exponent_text(s: Seq<u8>) -> Option<Seq<u8>> {
    if marker_at(s) < s.len() {
        Some(s.subrange(marker_at(s) as int + 1, s.len() as int))
    } else {
        None
    }
}

/// Whether `e` is a power of ten: an optional sign and at least one digit.
pub open spec fn is_exponent(e: Seq<u8>) -> bool {
    unsigned_part(e).len() > 0 && all_digits(unsigned_part(e))
}

/// The power of ten that `e` writes.
pub open spec fn exponent_value(e: Seq<u8>) -> int {
    if is_negative(e) {
        -(digits_value(unsigned_part(e)) as int)
    } else {
        digits_value(unsigned_part(e)) as int
    }
}

/// Whether `s` is a number without a sign: a decimal number, and after it
/// nothing or an `e` and a power of ten.
pub open spec fn is_number(s: Seq<u8>) -> bool {
    &&& is_decimal(mantissa(s))
    &&& match exponent_text(s) {
        Some(e) => is_exponent(e),
        None => true,
    }
}

/// The digits of the number `s`, those before the point and those after it.
pub open spec fn mantissa_digits(s: Seq<u8>) -> Seq<u8> {
    whole_part(mantissa(s)) + fraction_part(mantissa(s))
}

/// The power of ten by which the digits of the number `s`, read as one
/// whole number, are scaled: the power that is written, less one for each
/// digit after the point.
pub open spec fn power_in(s: Seq<u8>) -> int {
    (match exponent_text(s) {
        Some(e) => exponent_value(e),
        None => 0,
    }) - fraction_part(mantissa(s)).len()
}

/// `m` times ten to the `power`, rounded down to a whole number.
pub open spec fn scaled_value(m: nat, power: int) -> nat {
    if power >= 0 {
        m * pow10(power as nat)
    } else {
        m / pow10((-power) as nat)
    }
}

/// Whether `m` times ten to the `power` is a whole number.
pub open spec fn scales_exactly(m: nat, power: int) -> bool {
    power >= 0 || m % pow10((-power) as nat) == 0
}

/// The whole nanoseconds in the number of seconds `s`.
pub open spec fn number_nanos(s: Seq<u8>) -> nat {
    scaled_value(digits_value(mantissa_digits(s)), power_in(s) + 9)
}

/// Whether the number of seconds `s` is a whole number of nanoseconds.
pub open spec fn number_is_whole_nanos(s: Seq<u8>) -> bool {
    scales_exactly(digits_value(mantissa_digits(s)), power_in(s) + 9)
}

/// A letter in lower case; any other byte as it is.
pub open spec fn lower(b: u8) -> u8 {
    if 0x41 <= b <= 0x5a {
        (b + 0x20) as u8
    } else {
        b
    }
}

/// A text with its letters in lower case.
pub open spec fn lowered(s: Seq<u8>) -> Seq<u8> {
    Seq::new(s.len(), |i: int| lower(s[i]))
}

/// Whether `s` is the word `nan`, in either case.
pub open spec fn is_nan_word(s: Seq<u8>) -> bool {
    lowered(s) == seq![0x6eu8, 0x61u8, 0x6eu8]
}

/// Whether `s` is the word `inf` or the word `infinity`, in either case.
pub open spec fn is_infinity_word(s: Seq<u8>) -> bool {
    ||| lowered(s) == seq![0x69u8, 0x6eu8, 0x66u8]
    ||| lowered(s) == seq![0x69u8, 0x6eu8, 0x66u8, 0x69u8, 0x6eu8, 0x69u8, 0x74u8, 0x79u8]
}

/// What a text amounts to as a number of seconds: nothing where it is no
/// number in decimal notation; otherwise its sign with what follows the
/// sign, which is no number for `nan`, beyond reach for `inf`, `infinity`
/// and every number of 2^64 seconds or more, and else the whole nanoseconds
/// in the number, and whether the number is those to the last digit.
pub open spec fn text_reading(s: Seq<u8>) -> Option<ServerReading> {
    let body = unsigned_part(s);
    let negative = is_negative(s);
    if is_nan_word(body) {
        Some(ServerReading::NotANumber)
    } else if is_infinity_word(body) {
        Some(ServerReading::Beyond { negative })
    } else if is_number(body) {
        if number_nanos(body) > MAX_NANOS {
            Some(ServerReading::Beyond { negative })
        } else {
            Some(
                ServerReading::At {
                    negative,
                    nanos: number_nanos(body) as u128,
                    exact: number_is_whole_nanos(body),
                },
            )
        }
    } else {
        None
    }
}

/// The `e` of a text stands where `marker_at` says: none before it, and one
/// at it unless the text ends there.
pub proof fn lemma_marker_at(s: Seq<u8>)
    ensures
        marker_at(s) <= s.len(),
        forall|j: int| 0 <= j < marker_at(s) ==> !is_marker(#[trigger] s[j]),
        marker_at(s) < s.len() ==> is_marker(s[marker_at(s) as int]),
    decreases s.len(),
{
    if s.len() == 0 || is_marker(s[0]) {
    } else {
        let rest = s.drop_first();
        lemma_marker_at(rest);
        assert forall|j: int| 0 <= j < marker_at(s) implies !is_marker(#[trigger] s[j]) by {
            if j > 0 {
                assert(s[j] == rest[j - 1]);
            }
        }
        if marker_at(s) < s.len() {
            assert(s[marker_at(s) as int] == rest[marker_at(rest) as int]);
        }
    }
}

/// The digits of two texts in a row write the first number, shifted by the
/// length of the second text, plus the second number.
pub proof fn lemma_digits_value_concat(a: Seq<u8>, b: Seq<u8>)
    ensures
        digits_value(a + b) == digits_value(a) * pow10(b.len()) + digits_value(b),
    decreases b.len(),
{
    if b.len() == 0 {
        assert(a + b =~= a);
        assert(digits_value(a) * pow10(0) == digits_value(a)) by (nonlinear_arith)
            requires
                pow10(0) == 1,
        ;
    } else {
        let front = b.drop_last();
        lemma_digits_value_concat(a, front);
        assert((a + b).drop_last() =~= a + front);
        assert((a + b).last() == b.last());
        assert(pow10(b.len()) == 10 * pow10(front.len()));
        assert((digits_value(a) * pow10(front.len()) + digits_value(front)) * 10 + digit_of(
            b.last(),
        ) == digits_value(a) * pow10(b.len()) + (digits_value(front) * 10 + digit_of(b.last())))
            by (nonlinear_arith)
            requires
                pow10(b.len()) == 10 * pow10(front.len()),
        ;
    }
}

/// So many digits write a number below ten to that many.
pub proof fn lemma_digits_value_bound(s: Seq<u8>)
    requires
        all_digits(s),
    ensures
        digits_value(s) < pow10(s.len()),
    decreases s.len(),
{
    if s.len() > 0 {
        let front = s.drop_last();
        assert forall|i: int| 0 <= i < front.len() implies is_digit(#[trigger] front[i]) by {
            assert(front[i] == s[i]);
        }
        lemma_digits_value_bound(front);
        assert(is_digit(s[s.len() - 1]));
    }
}

/// A larger power of ten is a larger number.
pub proof fn lemma_pow10_increases(a: nat, b: nat)
    requires
        a <= b,
    ensures
        pow10(a) <= pow10(b),
{
    lemma_pow10_adds(a, (b - a) as nat);
    lemma_pow10_adds((b - a) as nat, 0);
    assert(pow10(a) <= pow10(a) * pow10((b - a) as nat)) by (nonlinear_arith)
        requires
            pow10((b - a) as nat) >= 1,
    ;
}

/// Dropping digits from the end divides by ten for each, rounding down;
/// the digits dropped are the remainder.
pub proof fn lemma_digits_value_take(s: Seq<u8>, keep: nat)
    requires
        all_digits(s),
        keep <= s.len(),
    ensures
        digits_value(s) / pow10((s.len() - keep) as nat) == digits_value(s.subrange(0, keep as int)),
        digits_value(s) % pow10((s.len() - keep) as nat) == digits_value(
            s.subrange(keep as int, s.len() as int),
        ),
{
    let a = s.subrange(0, keep as int);
    let b = s.subrange(keep as int, s.len() as int);
    assert(s =~= a + b);
    lemma_digits_value_concat(a, b);
    assert forall|i: int| 0 <= i < b.len() implies is_digit(#[trigger] b[i]) by {
        assert(b[i] == s[keep + i]);
    }
    lemma_digits_value_bound(b);
    lemma_pow10_adds(b.len(), 0);
    assert(digits_value(s) == pow10(b.len()) * digits_value(a) + digits_value(b))
        by (nonlinear_arith)
        requires
            digits_value(s) == digits_value(a) * pow10(b.len()) + digits_value(b),
    ;
    vstd::arithmetic::div_mod::lemma_fundamental_div_mod_converse(
        digits_value(s) as int,
        pow10(b.len()) as int,
        digits_value(a) as int,
        digits_value(b) as int,
    );
}

proof fn lemma_pow10_29()
    ensures
        pow10(29) == 100_000_000_000_000_000_000_000_000_000,
        pow10(29) > MAX_NANOS,
{
    lemma_pow10_9();
    lemma_pow10_adds(9, 9);
    lemma_pow10_adds(18, 9);
    lemma_pow10_adds(27, 2);
    reveal_with_fuel(pow10, 3);
    assert(pow10(2) == 100);
    assert(pow10(18) == 1_000_000_000_000_000_000) by (nonlinear_arith)
        requires
            pow10(18) == pow10(9) * pow10(9),
            pow10(9) == 1_000_000_000,
    ;
    assert(pow10(27) == 1_000_000_000_000_000_000_000_000_000) by (nonlinear_arith)
        requires
            pow10(27) == pow10(18) * pow10(9),
            pow10(18) == 1_000_000_000_000_000_000,
            pow10(9) == 1_000_000_000,
    ;
}

/// A power of ten held to within [`MAX_POWER`] of zero.
pub open spec fn clamped(power: int) -> int {
    if power > MAX_POWER {
        MAX_POWER as int
    } else if power < -MAX_POWER {
        -(MAX_POWER as int)
    } else {
        power
    }
}

/// Holding the written power of ten to within [`MAX_POWER`] changes
/// nothing that is told apart: a number within reach stays what it is, and
/// one out of reach stays out of reach.
proof fn lemma_clamped(digits: Seq<u8>, power: int, shift: int)
    requires
        all_digits(digits),
        digits.len() <= u64::MAX,
        -(u64::MAX as int) <= shift <= 9,
    ensures
        ({
            let m = digits_value(digits);
            let told = scaled_value(m, power + shift);
            let held = scaled_value(m, clamped(power) + shift);
            if held > MAX_NANOS {
                told > MAX_NANOS
            } else {
                told == held
            }
        }),
        scales_exactly(digits_value(digits), power + shift) == scales_exactly(
            digits_value(digits),
            clamped(power) + shift,
        ),
{
    let m = digits_value(digits);
    lemma_pow10_29();
    lemma_digits_value_bound(digits);
    if power > MAX_POWER {
        let a = (power + shift) as nat;
        let b = (clamped(power) + shift) as nat;
        lemma_pow10_increases(29, a);
        lemma_pow10_increases(29, b);
        if m == 0 {
            assert(m * pow10(a) == 0 && m * pow10(b) == 0) by (nonlinear_arith)
                requires
                    m == 0,
            ;
        } else {
            assert(m * pow10(a) > MAX_NANOS && m * pow10(b) > MAX_NANOS) by (nonlinear_arith)
                requires
                    m >= 1,
                    pow10(a) > MAX_NANOS,
                    pow10(b) > MAX_NANOS,
            ;
        }
    } else if power < -MAX_POWER {
        let a = (-(power + shift)) as nat;
        let b = (-(clamped(power) + shift)) as nat;
        lemma_pow10_increases(digits.len(), a);
        lemma_pow10_increases(digits.len(), b);
        vstd::arithmetic::div_mod::lemma_basic_div(m as int, pow10(a) as int);
        vstd::arithmetic::div_mod::lemma_basic_div(m as int, pow10(b) as int);
        vstd::arithmetic::div_mod::lemma_small_mod(m, pow10(a));
        vstd::arithmetic::div_mod::lemma_small_mod(m, pow10(b));
    }
}

fn find_marker(s: &[u8]) -> (m: usize)
    ensures
        m == marker_at(s@),
        m <= s@.len(),
{
    let mut m: usize = 0;
    proof {
        lemma_marker_at(s@);
    }
    while m < s.len() && s[m] != LOWER_E && s[m] != UPPER_E
        invariant
            m <= s@.len(),
            forall|j: int| 0 <= j < m ==> !is_marker(#[trigger] s@[j]),
            marker_at(s@) <= s@.len(),
            forall|j: int| 0 <= j < marker_at(s@) ==> !is_marker(#[trigger] s@[j]),
            marker_at(s@) < s@.len() ==> is_marker(s@[marker_at(s@) as int]),
        decreases s@.len() - m,
    {
        m = m + 1;
    }
    proof {
        if marker_at(s@) < m {
            assert(!is_marker(s@[marker_at(s@) as int]));
        }
        if m < marker_at(s@) {
            assert(!is_marker(s@[m as int]));
        }
    }
    m
}

fn digits_only(s: &[u8]) -> (ok: bool)
    ensures
        ok == all_digits(s@),
{
    let mut i: usize = 0;
    while i < s.len()
        invariant
            i <= s@.len(),
            forall|j: int| 0 <= j < i ==> is_digit(#[trigger] s@[j]),
        decreases s@.len() - i,
    {
        if s[i] < ZERO || s[i] > ZERO + 9 {
            return false;
        }
        i = i + 1;
    }
    true
}

fn find_point(s: &[u8]) -> (p: usize)
    ensures
        p == point_at(s@),
        p <= s@.len(),
{
    let mut p: usize = 0;
    proof {
        lemma_point_at(s@);
    }
    while p < s.len() && s[p] != POINT
        invariant
            p <= s@.len(),
            forall|j: int| 0 <= j < p ==> #[trigger] s@[j] != POINT,
        decreases s@.len() - p,
    {
        p = p + 1;
    }
    proof {
        lemma_point_found(s@, p as nat);
    }
    p
}

fn lower_of(b: u8) -> (l: u8)
    ensures
        l == lower(b),
{
    if 0x41 <= b && b <= 0x5a {
        b + 0x20
    } else {
        b
    }
}

fn is_nan(s: &[u8]) -> (yes: bool)
    ensures
        yes == is_nan_word(s@),
{
    let ghost word = seq![0x6eu8, 0x61u8, 0x6eu8];
    if s.len() != 3 {
        assert(lowered(s@).len() != word.len());
        return false;
    }
    let yes = lower_of(s[0]) == 0x6e && lower_of(s[1]) == 0x61 && lower_of(s[2]) == 0x6e;
    proof {
        if yes {
            assert(lowered(s@) =~= word);
        } else {
            assert(lowered(s@)[0] == lower(s@[0]));
            assert(lowered(s@)[1] == lower(s@[1]));
            assert(lowered(s@)[2] == lower(s@[2]));
            assert(word[0] == 0x6e && word[1] == 0x61 && word[2] == 0x6e);
        }
    }
    yes
}

fn is_infinity(s: &[u8]) -> (yes: bool)
    ensures
        yes == is_infinity_word(s@),
{
    let ghost short = seq![0x69u8, 0x6eu8, 0x66u8];
    let ghost long = seq![0x69u8, 0x6eu8, 0x66u8, 0x69u8, 0x6eu8, 0x69u8, 0x74u8, 0x79u8];
    if s.len() != 3 && s.len() != 8 {
        assert(lowered(s@).len() != short.len());
        assert(lowered(s@).len() != long.len());
        return false;
    }
    let opens = lower_of(s[0]) == 0x69 && lower_of(s[1]) == 0x6e && lower_of(s[2]) == 0x66;
    proof {
        assert(lowered(s@)[0] == lower(s@[0]));
        assert(lowered(s@)[1] == lower(s@[1]));
        assert(lowered(s@)[2] == lower(s@[2]));
        assert(short[0] == 0x69 && short[1] == 0x6e && short[2] == 0x66);
        assert(long[0] == 0x69 && long[1] == 0x6e && long[2] == 0x66);
    }
    if s.len() == 3 {
        proof {
            assert(lowered(s@).len() != long.len());
            if opens {
                assert(lowered(s@) =~= short);
            }
        }
        return opens;
    }
    let yes = opens && lower_of(s[3]) == 0x69 && lower_of(s[4]) == 0x6e && lower_of(s[5]) == 0x69
        && lower_of(s[6]) == 0x74 && lower_of(s[7]) == 0x79;
    proof {
        assert(lowered(s@).len() != short.len());
        assert(lowered(s@)[3] == lower(s@[3]));
        assert(lowered(s@)[4] == lower(s@[4]));
        assert(lowered(s@)[5] == lower(s@[5]));
        assert(lowered(s@)[6] == lower(s@[6]));
        assert(lowered(s@)[7] == lower(s@[7]));
        assert(long[3] == 0x69 && long[4] == 0x6e && long[5] == 0x69 && long[6] == 0x74 && long[7]
            == 0x79);
        if yes {
            assert(lowered(s@) =~= long);
        }
    }
    yes
}

/// The number that the first `keep` of the digits in `whole` and then in
/// `fraction` write, where it is within reach.
fn leading_value(whole: &[u8], fraction: &[u8], keep: usize) -> (r: Option<u128>)
    requires
        all_digits(whole@),
        all_digits(fraction@),
        keep <= whole@.len() + fraction@.len(),
    ensures
        match r {
            Some(v) => v == digits_value((whole@ + fraction@).subrange(0, keep as int)) && v
                <= MAX_NANOS,
            None => digits_value((whole@ + fraction@).subrange(0, keep as int)) > MAX_NANOS,
        },
{
    let ghost all = whole@ + fraction@;
    let mut value: u128 = 0;
    let mut beyond: bool = false;
    let mut i: usize = 0;
    assert(all.subrange(0, 0) =~= Seq::<u8>::empty());
    while i < keep
        invariant
            i <= keep <= all.len(),
            all == whole@ + fraction@,
            all_digits(whole@),
            all_digits(fraction@),
            !beyond ==> value == digits_value(all.subrange(0, i as int)) && value <= MAX_NANOS,
            beyond ==> digits_value(all.subrange(0, i as int)) > MAX_NANOS,
        decreases keep - i,
    {
        let b: u8 = if i < whole.len() {
            whole[i]
        } else {
            fraction[i - whole.len()]
        };
        assert(b == all[i as int]);
        assert(is_digit(b));
        let d: u128 = (b - ZERO) as u128;
        proof {
            lemma_digits_value_push(all.subrange(0, i as int), b);
            assert(all.subrange(0, i + 1) =~= all.subrange(0, i as int).push(b));
        }
        if !beyond {
            if value > (MAX_NANOS - d) / 10 {
                beyond = true;
            } else {
                value = value * 10 + d;
            }
        }
        i = i + 1;
    }
    if beyond {
        None
    } else {
        Some(value)
    }
}

/// Whether the digits in `whole` and then in `fraction`, from the one at
/// `from` on, are zeros.
fn zeros_from(whole: &[u8], fraction: &[u8], from: usize) -> (zeros: bool)
    requires
        all_digits(whole@),
        all_digits(fraction@),
        from <= whole@.len() + fraction@.len() <= usize::MAX,
    ensures
        zeros == (digits_value(
            (whole@ + fraction@).subrange(from as int, (whole@.len() + fraction@.len()) as int),
        ) == 0),
{
    let ghost all = whole@ + fraction@;
    let total: usize = whole.len() + fraction.len();
    let mut i: usize = from;
    assert(all.subrange(from as int, from as int) =~= Seq::<u8>::empty());
    while i < total
        invariant
            from <= i <= total,
            total == all.len(),
            all == whole@ + fraction@,
            all_digits(whole@),
            all_digits(fraction@),
            digits_value(all.subrange(from as int, i as int)) == 0,
        decreases total - i,
    {
        let b: u8 = if i < whole.len() {
            whole[i]
        } else {
            fraction[i - whole.len()]
        };
        assert(b == all[i as int]);
        assert(is_digit(b));
        proof {
            lemma_digits_value_push(all.subrange(from as int, i as int), b);
            assert(all.subrange(from as int, i + 1) =~= all.subrange(from as int, i as int).push(b));
        }
        if b != ZERO {
            proof {
                let front = all.subrange(from as int, i + 1);
                let back = all.subrange(i + 1, total as int);
                assert(all.subrange(from as int, total as int) =~= front + back);
                lemma_digits_value_concat(front, back);
                lemma_pow10_adds(back.len(), 0);
                assert(digits_value(front) * pow10(back.len()) > 0) by (nonlinear_arith)
                    requires
                        digits_value(front) >= 1,
                        pow10(back.len()) >= 1,
                ;
            }
            return false;
        }
        i = i + 1;
    }
    true
}

/// `value` times ten to the `power`, where that is within reach.
fn scale_up(value: u128, power: i128) -> (r: Option<u128>)
    requires
        value <= MAX_NANOS,
        power >= 0,
    ensures
        match r {
            Some(v) => v == value * pow10(power as nat) && v <= MAX_NANOS,
            None => value * pow10(power as nat) > MAX_NANOS,
        },
{
    if value == 0 {
        assert(0 * pow10(power as nat) == 0) by (nonlinear_arith);
        return Some(0);
    }
    let mut scaled: u128 = value;
    let mut done: i128 = 0;
    assert(value * pow10(0) == value) by (nonlinear_arith)
        requires
            pow10(0) == 1,
    ;
    while done < power
        invariant
            0 <= done <= power,
            1 <= value,
            scaled == value * pow10(done as nat),
            scaled <= MAX_NANOS,
        decreases power - done,
    {
        proof {
            assert(value * pow10((done + 1) as nat) == scaled * 10) by (nonlinear_arith)
                requires
                    scaled == value * pow10(done as nat),
                    pow10((done + 1) as nat) == 10 * pow10(done as nat),
            ;
        }
        if scaled > MAX_NANOS / 10 {
            proof {
                lemma_pow10_increases((done + 1) as nat, power as nat);
                assert(value * pow10(power as nat) >= value * pow10((done + 1) as nat))
                    by (nonlinear_arith)
                    requires
                        pow10((done + 1) as nat) <= pow10(power as nat),
                ;
            }
            return None;
        }
        scaled = scaled * 10;
        done = done + 1;
    }
    Some(scaled)
}

/// Reads a power of ten, held to within [`MAX_POWER`] of zero.
fn read_exponent(e: &[u8]) -> (r: Option<i128>)
    ensures
        r is Some <==> is_exponent(e@),
        r matches Some(x) ==> x == clamped(exponent_value(e@)),
{
    let len: usize = e.len();
    let signed: bool = len > 0 && (e[0] == PLUS || e[0] == MINUS);
    let negative: bool = len > 0 && e[0] == MINUS;
    let start: usize = if signed {
        1
    } else {
        0
    };
    let digits = slice_subrange(e, start, len);
    assert(digits@ =~= unsigned_part(e@));
    if digits.len() == 0 || !digits_only(digits) {
        return None;
    }
    let mut value: i128 = 0;
    let mut i: usize = 0;
    assert(digits@.subrange(0, 0) =~= Seq::<u8>::empty());
    while i < digits.len()
        invariant
            i <= digits@.len(),
            all_digits(digits@),
            0 <= value <= MAX_POWER,
            value < MAX_POWER ==> value == digits_value(digits@.subrange(0, i as int)),
            value == MAX_POWER ==> digits_value(digits@.subrange(0, i as int)) >= MAX_POWER,
        decreases digits@.len() - i,
    {
        let b: u8 = digits[i];
        assert(is_digit(b));
        let d: i128 = (b - ZERO) as i128;
        proof {
            lemma_digits_value_push(digits@.subrange(0, i as int), b);
            assert(digits@.subrange(0, i + 1) =~= digits@.subrange(0, i as int).push(b));
        }
        if value < MAX_POWER {
            if value > (MAX_POWER - d) / 10 {
                value = MAX_POWER;
            } else {
                value = value * 10 + d;
            }
        }
        i = i + 1;
    }
    assert(digits@.subrange(0, i as int) =~= digits@);
    if negative {
        Some(-value)
    } else {
        Some(value)
    }
}

/// Reads a number without a sign: its whole nanoseconds where they are
/// within reach, with whether it is those to the last digit; nothing
/// inside where they are not, and nothing at all where the text is no
/// number.
fn read_number(s: &[u8]) -> (r: Option<Option<(u128, bool)>>)
    ensures
        r is Some <==> is_number(s@),
        r matches Some(v) ==> match v {
            Some(found) => found.0 == number_nanos(s@) && found.0 <= MAX_NANOS && found.1
                == number_is_whole_nanos(s@),
            None => number_nanos(s@) > MAX_NANOS,
        },
{
    let m: usize = find_marker(s);
    let mant = slice_subrange(s, 0, m);
    assert(mant@ == mantissa(s@));
    let p: usize = find_point(mant);
    let whole = slice_subrange(mant, 0, p);
    let fraction = if p < m {
        slice_subrange(mant, p + 1, m)
    } else {
        slice_subrange(mant, m, m)
    };
    assert(whole@ == whole_part(mant@));
    assert(fraction@ =~= fraction_part(mant@));
    if !digits_only(whole) || !digits_only(fraction) || whole.len() + fraction.len() == 0 {
        return None;
    }
    assert(is_decimal(mant@));
    let power: i128 = if m < s.len() {
        let e = slice_subrange(s, m + 1, s.len());
        assert(exponent_text(s@) == Some(e@));
        match read_exponent(e) {
            None => {
                return None;
            },
            Some(x) => x,
        }
    } else {
        0
    };
    assert(is_number(s@));
    let ghost digits = whole@ + fraction@;
    let ghost told: int = match exponent_text(s@) {
        Some(e) => exponent_value(e),
        None => 0,
    };
    assert(power == clamped(told));
    let total: usize = whole.len() + fraction.len();
    let shift: i128 = 9 - (fraction.len() as i128);
    proof {
        assert forall|i: int| 0 <= i < digits.len() implies is_digit(#[trigger] digits[i]) by {
            if i < whole@.len() {
                assert(digits[i] == whole@[i]);
            } else {
                assert(digits[i] == fraction@[i - whole@.len()]);
            }
        }
        lemma_clamped(digits, told, shift as int);
        lemma_digits_value_bound(digits);
        assert(digits.subrange(0, total as int) =~= digits);
        assert(number_nanos(s@) == scaled_value(digits_value(digits), told + shift));
        assert(number_is_whole_nanos(s@) == scales_exactly(digits_value(digits), told + shift));
    }
    let scale: i128 = power + shift;
    if scale >= 0 {
        match leading_value(whole, fraction, total) {
            None => {
                proof {
                    lemma_pow10_adds(scale as nat, 0);
                    assert(digits_value(digits) * pow10(scale as nat) > MAX_NANOS)
                        by (nonlinear_arith)
                        requires
                            digits_value(digits) > MAX_NANOS,
                            pow10(scale as nat) >= 1,
                    ;
                }
                Some(None)
            },
            Some(v) => match scale_up(v, scale) {
                None => Some(None),
                Some(nanos) => Some(Some((nanos, true))),
            },
        }
    } else if -scale >= total as i128 {
        proof {
            lemma_pow10_increases(digits.len(), (-scale) as nat);
            vstd::arithmetic::div_mod::lemma_basic_div(
                digits_value(digits) as int,
                pow10((-scale) as nat) as int,
            );
            vstd::arithmetic::div_mod::lemma_small_mod(
                digits_value(digits),
                pow10((-scale) as nat),
            );
        }
        Some(Some((0, zeros_from(whole, fraction, 0))))
    } else {
        let keep: usize = total - ((-scale) as usize);
        proof {
            lemma_digits_value_take(digits, keep as nat);
        }
        match leading_value(whole, fraction, keep) {
            None => Some(None),
            Some(nanos) => Some(Some((nanos, zeros_from(whole, fraction, keep)))),
        }
    }
}

/// Reads a number of seconds in decimal notation. Text that is no such
/// number is rejected; every number is read, whatever its sign and its
/// size.
pub fn parse_decimal(text: &[u8]) -> (r: Result<ServerReading, ProtocolError>)
    ensures
        match text_reading(text@) {
            Some(reading) => r == Ok::<ServerReading, ProtocolError>(reading) && reading.wf(),
            None => r == Err::<ServerReading, ProtocolError>(ProtocolError::HeaderNotDecimal),
        },
{
    let len: usize = text.len();
    let signed: bool = len > 0 && (text[0] == PLUS || text[0] == MINUS);
    let negative: bool = len > 0 && text[0] == MINUS;
    let start: usize = if signed {
        1
    } else {
        0
    };
    let body = slice_subrange(text, start, len);
    assert(body@ =~= unsigned_part(text@));
    if is_nan(body) {
        return Ok(ServerReading::NotANumber);
    }
    if is_infinity(body) {
        return Ok(ServerReading::Beyond { negative });
    }
    match read_number(body) {
        None => Err(ProtocolError::HeaderNotDecimal),
        Some(None) => Ok(ServerReading::Beyond { negative }),
        Some(Some(found)) => Ok(ServerReading::At { negative, nanos: found.0, exact: found.1 }),
    }
}

/// The byte of the digit `d`.
pub open spec fn digit_byte(d: nat) -> u8 {
    (ZERO + d) as u8
}

/// The digits of `n`, most significant first, none of them a leading zero
/// but for zero itself, which is one digit.
pub open spec fn digits_of(n: nat) -> Seq<u8>
    decreases n,
{
    if n < 10 {
        seq![digit_byte(n)]
    } else {
        digits_of(n / 10).push(digit_byte(n % 10))
    }
}

/// The last `width` digits of `n`, zeros in front where `n` is short.
pub open spec fn fixed_digits(n: nat, width: nat) -> Seq<u8>
    decreases width,
{
    if width == 0 {
        Seq::empty()
    } else {
        fixed_digits(n / 10, (width - 1) as nat).push(digit_byte(n % 10))
    }
}

/// A count of units of ten to the minus `places`, written with a point and
/// `places` digits after it.
pub open spec fn fixed_point_text(value: nat, places: nat) -> Seq<u8> {
    digits_of(value / pow10(places)) + seq![POINT] + fixed_digits(value % pow10(places), places)
}

/// A reading of `nanos` nanoseconds as a decimal number of seconds: the
/// whole seconds, a point, and nine digits of fraction.
pub open spec fn decimal_text(nanos: nat) -> Seq<u8> {
    fixed_point_text(nanos, 9)
}

/// The digits of a number are digits, and write that number.
pub proof fn lemma_digits_of(n: nat)
    ensures
        digits_of(n).len() >= 1,
        all_digits(digits_of(n)),
        digits_value(digits_of(n)) == n,
    decreases n,
{
    if n < 10 {
        let s = digits_of(n);
        assert(s.drop_last() =~= Seq::<u8>::empty());
        assert(digits_value(s.drop_last()) == 0);
    } else {
        lemma_digits_of(n / 10);
        lemma_digits_value_push(digits_of(n / 10), digit_byte(n % 10));
    }
}

/// A number written at a fixed width is that many digits, and they write
/// what of the number fits the width.
pub proof fn lemma_fixed_digits(n: nat, width: nat)
    ensures
        fixed_digits(n, width).len() == width,
        all_digits(fixed_digits(n, width)),
        digits_value(fixed_digits(n, width)) == n % pow10(width),
    decreases width,
{
    if width == 0 {
    } else {
        let w = (width - 1) as nat;
        lemma_fixed_digits(n / 10, w);
        lemma_digits_value_push(fixed_digits(n / 10, w), digit_byte(n % 10));
        lemma_pow10_adds(w, 0);
        vstd::arithmetic::div_mod::lemma_breakdown(n as int, 10, pow10(w) as int);
        assert(pow10(width) == 10 * pow10(w));
    }
}

/// A text with no point before `p`, and one at `p` unless it ends there,
/// has its point at `p`.
pub proof fn lemma_point_found(s: Seq<u8>, p: nat)
    requires
        p <= s.len(),
        forall|j: int| 0 <= j < p ==> #[trigger] s[j] != POINT,
        p < s.len() ==> s[p as int] == POINT,
    ensures
        point_at(s) == p,
{
    lemma_point_at(s);
    if point_at(s) < p {
        assert(s[point_at(s) as int] != POINT);
    }
}

/// What is written of a reading holds digits and one point, nothing else.
pub proof fn lemma_decimal_bytes(nanos: nat)
    ensures
        decimal_text(nanos).len() >= 11,
        forall|i: int|
            0 <= i < decimal_text(nanos).len() ==> is_decimal_byte(#[trigger] decimal_text(nanos)[i]),
        is_digit(decimal_text(nanos)[0]),
{
    lemma_pow10_9();
    let whole = digits_of(nanos / (NANOS_PER_SEC as nat));
    let frac = fixed_digits(nanos % (NANOS_PER_SEC as nat), 9);
    let text = decimal_text(nanos);
    lemma_digits_of(nanos / (NANOS_PER_SEC as nat));
    lemma_fixed_digits(nanos % (NANOS_PER_SEC as nat), 9);
    assert forall|i: int| 0 <= i < text.len() implies is_decimal_byte(#[trigger] text[i]) by {
        if i < whole.len() {
            assert(text[i] == whole[i]);
        } else if i == whole.len() {
            assert(text[i] == POINT);
        } else {
            assert(text[i] == frac[i - whole.len() - 1]);
        }
    }
    assert(text[0] == whole[0]);
}

/// What is written of a reading is read back as that reading: the text form
/// loses nothing.
pub proof fn lemma_decimal_round_trip(nanos: nat)
    requires
        nanos <= MAX_NANOS,
    ensures
        text_reading(decimal_text(nanos)) == Some(
            ServerReading::At { negative: false, nanos: nanos as u128, exact: true },
        ),
{
    lemma_pow10_9();
    let secs = nanos / (NANOS_PER_SEC as nat);
    let sub = nanos % (NANOS_PER_SEC as nat);
    let whole = digits_of(secs);
    let frac = fixed_digits(sub, 9);
    let text = decimal_text(nanos);
    lemma_digits_of(secs);
    lemma_fixed_digits(sub, 9);
    lemma_decimal_bytes(nanos);
    // no sign, no word, no power of ten
    assert(!has_sign(text));
    assert(unsigned_part(text) == text);
    assert(lowered(text).len() > 8);
    assert(seq![0x6eu8, 0x61u8, 0x6eu8].len() == 3);
    assert(seq![0x69u8, 0x6eu8, 0x66u8].len() == 3);
    assert(seq![0x69u8, 0x6eu8, 0x66u8, 0x69u8, 0x6eu8, 0x69u8, 0x74u8, 0x79u8].len() == 8);
    lemma_marker_at(text);
    assert(marker_at(text) == text.len()) by {
        if marker_at(text) < text.len() {
            assert(is_decimal_byte(text[marker_at(text) as int]));
        }
    }
    assert(mantissa(text) =~= text);
    assert(exponent_text(text) is None);
    // the point parts the whole seconds from the nanoseconds
    assert forall|j: int| 0 <= j < whole.len() implies #[trigger] text[j] != POINT by {
        assert(text[j] == whole[j]);
    }
    assert(text[whole.len() as int] == POINT);
    lemma_point_found(text, whole.len());
    assert(whole_part(text) =~= whole);
    assert(fraction_part(text) =~= frac);
    assert(is_decimal(text));
    assert(power_in(text) + 9 == 0);
    lemma_digits_value_concat(whole, frac);
    vstd::arithmetic::div_mod::lemma_small_mod(sub, 1_000_000_000);
    vstd::arithmetic::div_mod::lemma_fundamental_div_mod(nanos as int, 1_000_000_000);
    assert(digits_value(whole + frac) == nanos) by (nonlinear_arith)
        requires
            digits_value(whole + frac) == secs * 1_000_000_000 + sub,
            nanos == 1_000_000_000 * secs + sub,
    ;
    assert(nanos * pow10(0) == nanos) by (nonlinear_arith)
        requires
            pow10(0) == 1,
    ;
}

/// Whether `b` can stand in a decimal number: a digit or the point.
pub open spec fn is_decimal_byte(b: u8) -> bool {
    is_digit(b) || b == POINT
}

/// Appends the digits of `n` to `out`.
pub fn push_digits(out: &mut Vec<u8>, n: u128)
    ensures
        final(out)@ == old(out)@ + digits_of(n as nat),
    decreases n,
{
    if n >= 10 {
        push_digits(out, n / 10);
    }
    out.push(ZERO + (n % 10) as u8);
    assert(out@ =~= old(out)@ + digits_of(n as nat));
}

/// Appends the last `width` digits of `n` to `out`, zeros in front where
/// `n` is short.
pub fn push_fixed_digits(out: &mut Vec<u8>, n: u128, width: u32)
    ensures
        final(out)@ == old(out)@ + fixed_digits(n as nat, width as nat),
    decreases width,
{
    if width == 0 {
        assert(out@ =~= old(out)@ + fixed_digits(n as nat, 0));
    } else {
        push_fixed_digits(out, n / 10, width - 1);
        out.push(ZERO + (n % 10) as u8);
        assert(out@ =~= old(out)@ + fixed_digits(n as nat, width as nat));
    }
}

/// The most places that a fixed-point number is written with: the largest
/// power of ten that 128 bits hold.
pub const MAX_PLACES: u32 = 38;

proof fn lemma_pow10_38()
    ensures
        pow10(38) == 100_000_000_000_000_000_000_000_000_000_000_000_000,
{
    lemma_pow10_9();
    lemma_pow10_adds(9, 9);
    lemma_pow10_adds(18, 18);
    lemma_pow10_adds(36, 2);
    reveal_with_fuel(pow10, 3);
    assert(pow10(18) == 1_000_000_000_000_000_000) by (nonlinear_arith)
        requires
            pow10(18) == pow10(9) * pow10(9),
            pow10(9) == 1_000_000_000,
    ;
    assert(pow10(36) == 1_000_000_000_000_000_000_000_000_000_000_000_000) by (nonlinear_arith)
        requires
            pow10(36) == pow10(18) * pow10(18),
            pow10(18) == 1_000_000_000_000_000_000,
    ;
    assert(pow10(2) == 100);
}

fn power_of_ten(places: u32) -> (p: u128)
    requires
        places <= MAX_PLACES,
    ensures
        p == pow10(places as nat),
        p >= 1,
{
    let mut p: u128 = 1;
    let mut i: u32 = 0;
    proof {
        lemma_pow10_38();
    }
    while i < places
        invariant
            i <= places <= MAX_PLACES,
            p == pow10(i as nat),
            p >= 1,
            pow10(38) == 100_000_000_000_000_000_000_000_000_000_000_000_000,
        decreases places - i,
    {
        proof {
            lemma_pow10_adds((i + 1) as nat, (38 - (i + 1)) as nat);
            assert(pow10((i + 1) as nat) <= pow10(38)) by (nonlinear_arith)
                requires
                    pow10(38) == pow10((i + 1) as nat) * pow10((38 - (i + 1)) as nat),
                    pow10((38 - (i + 1)) as nat) >= 1,
                    pow10((i + 1) as nat) >= 1,
            ;
        }
        p = p * 10;
        i = i + 1;
    }
    p
}

/// Appends `value`, a count of units of ten to the minus `places`, to `out`
/// with a point and `places` digits after it. The unit has to fit 128 bits,
/// so there are at most [`MAX_PLACES`] places.
pub fn push_fixed_point(out: &mut Vec<u8>, value: u128, places: u32)
    requires
        places <= MAX_PLACES,
    ensures
        final(out)@ == old(out)@ + fixed_point_text(value as nat, places as nat),
{
    let unit: u128 = power_of_ten(places);
    push_digits(out, value / unit);
    out.push(POINT);
    push_fixed_digits(out, value % unit, places);
    assert(out@ =~= old(out)@ + fixed_point_text(value as nat, places as nat));
}

/// Writes a reading as a decimal number of seconds since the epoch, with
/// nine digits after the point.
pub fn format_decimal(t: &Timestamp) -> (out: Vec<u8>)
    ensures
        out@ == decimal_text(t.nanos()),
{
    let mut out: Vec<u8> = Vec::new();
    push_fixed_point(&mut out, t.as_nanos(), 9);
    out
}

} // verus!
