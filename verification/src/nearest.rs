//! Rounding to the nearest binary64, in integer arithmetic.
//!
//! A finite binary64 at or above zero is a whole number of steps of 2^-1074,
//! the smallest positive binary64. The patterns are ordered as the numbers
//! they stand for, so the neighbours of a pattern are the patterns one
//! below and one above it. A number is rounded to the pattern it lies nearest
//! to; halfway between two patterns, to the even one.

use vstd::prelude::*;
use vstd::arithmetic::power2::pow2;
use vstd::arithmetic::power2::lemma2_to64;
use vstd::arithmetic::power2::lemma2_to64_rest;
use vstd::arithmetic::power2::lemma_pow2_adds;
use vstd::arithmetic::power2::lemma_pow2_pos;
use vstd::arithmetic::power2::lemma_pow2_strictly_increases;
use vstd::arithmetic::power2::lemma_pow2_unfold;
use crate::binary64::biased_exponent;
use crate::binary64::fraction;
use crate::binary64::significand;
use crate::binary64::FIRST_NON_FINITE;
use crate::binary64::HIDDEN_BIT;
use crate::clock::Timestamp;
use crate::clock::NANOS_PER_SEC;

verus! {

/// The power of two that scales the significand of a pattern to steps of
/// 2^-1074.
pub open spec fn shift(bits: u64) -> nat {
    if biased_exponent(bits) == 0 {
        0
    } else {
        (biased_exponent(bits) - 1) as nat
    }
}

/// The number that a pattern with a clear sign bit stands for, counted in
/// steps of 2^-1074. The pattern of positive infinity counts as 2^1024, the
/// number that would follow the largest finite one.
pub open spec fn magnitude(bits: u64) -> nat {
    significand(bits) * pow2(shift(bits))
}

/// Whether `bits` is the binary64 nearest to `num / den`: the quotient lies
/// between the midpoints to the pattern's two neighbours, and on a midpoint
/// itself only where the pattern is the even one of the two.
pub open spec fn is_nearest(bits: u64, num: nat, den: nat) -> bool {
    let twice = 2 * num * pow2(1074);
    let below = (magnitude((bits - 1) as u64) + magnitude(bits)) * den;
    let above = (magnitude(bits) + magnitude((bits + 1) as u64)) * den;
    &&& bits < FIRST_NON_FINITE
    &&& (bits == 0 || below < twice || (below == twice && bits % 2 == 0))
    &&& (twice < above || (twice == above && bits % 2 == 0))
}

/// Whether `bits` is the sum of the binary64s `x` and `y`, rounded to the
/// nearest.
pub open spec fn is_nearest_sum(bits: u64, x: u64, y: u64) -> bool {
    is_nearest(bits, magnitude(x) + magnitude(y), pow2(1074))
}

proof fn lemma_pattern(biased: nat, frac: nat)
    requires
        biased <= 2047,
        frac < HIDDEN_BIT,
    ensures
        biased * HIDDEN_BIT + frac <= u64::MAX,
        biased_exponent((biased * HIDDEN_BIT + frac) as u64) == biased,
        fraction((biased * HIDDEN_BIT + frac) as u64) == frac,
{
    let b = biased * HIDDEN_BIT + frac;
    assert(b <= u64::MAX) by (nonlinear_arith)
        requires
            b == biased * 0x10_0000_0000_0000 + frac,
            biased <= 2047,
            frac < 0x10_0000_0000_0000,
    ;
    vstd::arithmetic::div_mod::lemma_fundamental_div_mod_converse(
        b as int,
        HIDDEN_BIT as int,
        biased as int,
        frac as int,
    );
}

proof fn lemma_fields_of(bits: u64)
    requires
        bits <= FIRST_NON_FINITE,
    ensures
        bits == biased_exponent(bits) * HIDDEN_BIT + fraction(bits),
        biased_exponent(bits) <= 2047,
        fraction(bits) < HIDDEN_BIT,
{
    vstd::arithmetic::div_mod::lemma_fundamental_div_mod(bits as int, HIDDEN_BIT as int);
    assert(HIDDEN_BIT * (bits / HIDDEN_BIT) == (bits / HIDDEN_BIT) * HIDDEN_BIT)
        by (nonlinear_arith);
}

/// From one pattern to the next the number grows by one step of the lower
/// pattern's own scale.
pub proof fn lemma_magnitude_next(bits: u64)
    requires
        bits < FIRST_NON_FINITE,
    ensures
        magnitude((bits + 1) as u64) == magnitude(bits) + pow2(shift(bits)),
        magnitude(bits) < magnitude((bits + 1) as u64),
{
    let up = (bits + 1) as u64;
    let biased = biased_exponent(bits);
    let frac = fraction(bits);
    let m = significand(bits);
    let p = pow2(shift(bits));
    lemma_fields_of(bits);
    lemma_pow2_pos(shift(bits));
    if frac + 1 < HIDDEN_BIT {
        lemma_pattern(biased, frac + 1);
        assert(significand(up) == m + 1);
        assert(shift(up) == shift(bits));
        assert((m + 1) * p == m * p + p) by (nonlinear_arith);
    } else {
        lemma_pattern(biased + 1, 0);
        assert(up == (biased + 1) * HIDDEN_BIT + 0) by (nonlinear_arith)
            requires
                up == biased * HIDDEN_BIT + frac + 1,
                frac + 1 == HIDDEN_BIT,
        ;
        assert(significand(up) == HIDDEN_BIT);
        if biased == 0 {
            assert(shift(up) == 0);
            assert(m + 1 == HIDDEN_BIT);
            assert((m + 1) * p == m * p + p) by (nonlinear_arith);
        } else {
            assert(shift(up) == shift(bits) + 1);
            lemma_pow2_unfold(shift(up));
            assert(HIDDEN_BIT * pow2(shift(up)) == m * p + p) by (nonlinear_arith)
                requires
                    pow2(shift(up)) == 2 * p,
                    m + 1 == 2 * HIDDEN_BIT,
            ;
        }
    }
}

/// The patterns are ordered as the numbers they stand for.
pub proof fn lemma_magnitude_increases(low: u64, high: u64)
    requires
        low < high <= FIRST_NON_FINITE,
    ensures
        magnitude(low) < magnitude(high),
    decreases high - low,
{
    lemma_magnitude_next((high - 1) as u64);
    if low + 1 < high {
        lemma_magnitude_increases(low, (high - 1) as u64);
    }
}

proof fn lemma_scaled_order(a: nat, b: nat, den: nat)
    requires
        a < b,
        den > 0,
    ensures
        a * den < b * den,
{
    assert(a * den < b * den) by (nonlinear_arith)
        requires
            a < b,
            den > 0,
    ;
}

proof fn lemma_not_below(a: u64, b: u64, num: nat, den: nat)
    requires
        den > 0,
        is_nearest(a, num, den),
        is_nearest(b, num, den),
    ensures
        a >= b,
{
    if a < b {
        let above = magnitude(a) + magnitude((a + 1) as u64);
        let below = magnitude((b - 1) as u64) + magnitude(b);
        lemma_magnitude_next(a);
        lemma_magnitude_next((b - 1) as u64);
        if a + 1 < b {
            lemma_magnitude_increases(a, (b - 1) as u64);
            lemma_magnitude_increases((a + 1) as u64, b);
            lemma_scaled_order(above, below, den);
        } else {
            assert(above == below);
        }
    }
}

/// No number has two nearest binary64s.
pub proof fn lemma_nearest_unique(a: u64, b: u64, num: nat, den: nat)
    requires
        den > 0,
        is_nearest(a, num, den),
        is_nearest(b, num, den),
    ensures
        a == b,
{
    lemma_not_below(a, b, num, den);
    lemma_not_below(b, a, num, den);
}

proof fn lemma_sign(l: int, r: int, d: int, k: int, a: int)
    requires
        d > 0,
        a > 0,
        r * d - l * d == a * k,
    ensures
        k > 0 ==> l < r,
        k == 0 ==> l == r,
        k < 0 ==> l > r,
{
    assert((r - l) * d == r * d - l * d) by (nonlinear_arith);
    assert(k > 0 ==> l < r) by (nonlinear_arith)
        requires
            d > 0,
            a > 0,
            (r - l) * d == a * k,
    ;
    assert(k == 0 ==> l == r) by (nonlinear_arith)
        requires
            d > 0,
            a > 0,
            (r - l) * d == a * k,
    ;
    assert(k < 0 ==> l > r) by (nonlinear_arith)
        requires
            d > 0,
            a > 0,
            (r - l) * d == a * k,
    ;
}

/// The pattern of the normal number `m * 2^e`.
pub open spec fn pattern_of(m: nat, e: int) -> u64 {
    ((e + 1075) * HIDDEN_BIT + (m - HIDDEN_BIT)) as u64
}

/// Rounding by division. Let `n / d` be `num / den` scaled by a power of two
/// so that its whole part `m` has 53 bits, and let `r` be what the division
/// leaves. Then `num / den` lies between the normal number `m * 2^e` and the
/// binary64 after it, and the nearer of the two is the first where `r` is
/// less than half of `d`, the second where it is more, and the even one
/// where it is the half.
pub proof fn lemma_nearest_by_division(
    num: nat,
    den: nat,
    n: nat,
    d: nat,
    e: int,
    m: nat,
    r: nat,
)
    requires
        den > 0,
        d > 0,
        n == m * d + r,
        r < d,
        HIDDEN_BIT <= m < 2 * HIDDEN_BIT,
        -1022 <= e <= 970,
        n * den * pow2((e + 1074) as nat) == num * d * pow2(1074),
    ensures
        pattern_of(m, e) + 1 < FIRST_NON_FINITE,
        pattern_of(m, e) == (e + 1075) * HIDDEN_BIT + (m - HIDDEN_BIT),
        2 * r < d || (2 * r == d && m % 2 == 0) ==> is_nearest(pattern_of(m, e), num, den),
        2 * r > d || (2 * r == d && m % 2 == 1) ==> is_nearest(
            (pattern_of(m, e) + 1) as u64,
            num,
            den,
        ),
{
    let g = pow2((e + 1074) as nat);
    let p = pow2(1074);
    let a = den * g;
    let x = num * p;
    let biased = (e + 1075) as nat;
    let frac = (m - HIDDEN_BIT) as nat;
    let f = pattern_of(m, e);
    lemma_pattern(biased, frac);
    lemma_pow2_pos((e + 1074) as nat);
    assert(f + 1 < FIRST_NON_FINITE) by (nonlinear_arith)
        requires
            f == biased * 0x10_0000_0000_0000 + frac,
            biased <= 2045,
            frac < 0x10_0000_0000_0000,
    ;
    assert(significand(f) == m);
    assert(shift(f) == e + 1074);
    assert(magnitude(f) == m * g);
    lemma_magnitude_next(f);
    lemma_magnitude_next((f + 1) as u64);
    lemma_magnitude_next((f - 1) as u64);
    let lo = magnitude((f - 1) as u64);
    let hi = magnitude((f + 2) as u64);
    assert(a > 0) by (nonlinear_arith)
        requires
            a == den * g,
            den > 0,
            g > 0,
    ;
    assert(x * d == (m * d + r) * a) by (nonlinear_arith)
        requires
            n == m * d + r,
            n * den * g == num * d * p,
            a == den * g,
            x == num * p,
    ;
    let twice = 2 * num * p;
    assert(twice == 2 * x) by (nonlinear_arith)
        requires
            twice == 2 * num * p,
            x == num * p,
    ;
    // against the midpoint between the pattern and the next
    let mid = (magnitude(f) + magnitude((f + 1) as u64)) * den;
    assert(mid == (2 * m + 1) * a) by (nonlinear_arith)
        requires
            mid == (m * g + (m * g + g)) * den,
            a == den * g,
    ;
    assert(mid * d - twice * d == a * (d - 2 * r)) by (nonlinear_arith)
        requires
            mid == (2 * m + 1) * a,
            twice == 2 * x,
            x * d == (m * d + r) * a,
    ;
    lemma_sign(twice as int, mid as int, d as int, d - 2 * r, a as int);
    // the pattern itself is not above the number, the next is
    let here = 2 * magnitude(f) * den;
    assert(twice * d - here * d == a * (2 * r)) by (nonlinear_arith)
        requires
            here == 2 * (m * g) * den,
            a == den * g,
            twice == 2 * x,
            x * d == (m * d + r) * a,
    ;
    lemma_sign(here as int, twice as int, d as int, (2 * r) as int, a as int);
    let next = 2 * magnitude((f + 1) as u64) * den;
    assert(next * d - twice * d == a * (2 * (d - r))) by (nonlinear_arith)
        requires
            next == 2 * (m * g + g) * den,
            a == den * g,
            twice == 2 * x,
            x * d == (m * d + r) * a,
    ;
    lemma_sign(twice as int, next as int, d as int, 2 * (d - r), a as int);
    // the outer midpoints lie beyond the pattern and the next
    let under = (lo + magnitude(f)) * den;
    assert(under < here) by (nonlinear_arith)
        requires
            under == (lo + magnitude(f)) * den,
            here == 2 * magnitude(f) * den,
            lo < magnitude(f),
            den > 0,
    ;
    let over = (magnitude((f + 1) as u64) + hi) * den;
    assert(next < over) by (nonlinear_arith)
        requires
            over == (magnitude((f + 1) as u64) + hi) * den,
            next == 2 * magnitude((f + 1) as u64) * den,
            magnitude((f + 1) as u64) < hi,
            den > 0,
    ;
    assert(f % 2 == m % 2) by {
        assert(f == biased * 0x10_0000_0000_0000 + m - 0x10_0000_0000_0000);
        assert((biased * 0x10_0000_0000_0000) % 2 == 0) by (nonlinear_arith);
    }
    assert(((f + 1) as u64 - 1) as u64 == f);
    assert(((f + 1) as u64 + 1) as u64 == (f + 2) as u64);
}

/// The binary64 nearest to `num / den`.
pub open spec fn nearest(num: nat, den: nat) -> u64 {
    choose|bits: u64| is_nearest(bits, num, den)
}

/// The sum of the binary64s `x` and `y`, rounded to the nearest binary64.
pub open spec fn nearest_sum(x: u64, y: u64) -> u64 {
    nearest(magnitude(x) + magnitude(y), pow2(1074))
}

/// A time of `secs` whole seconds and `subsec_nanos` nanoseconds as a
/// binary64 of seconds: the whole seconds as a binary64, plus the
/// nanoseconds over one billion as a binary64, each step rounded to the
/// nearest.
pub open spec fn seconds_of(secs: nat, subsec_nanos: nat) -> u64 {
    nearest_sum(nearest(secs, 1), nearest(subsec_nanos, NANOS_PER_SEC as nat))
}

/// A reading of `nanos` nanoseconds since the epoch as a binary64 of
/// seconds.
pub open spec fn reading_seconds(nanos: nat) -> u64 {
    seconds_of(nanos / (NANOS_PER_SEC as nat), nanos % (NANOS_PER_SEC as nat))
}

/// The pattern that is nearest to a number is the one that `nearest` names.
pub proof fn lemma_nearest_is(bits: u64, num: nat, den: nat)
    requires
        den > 0,
        is_nearest(bits, num, den),
    ensures
        nearest(num, den) == bits,
{
    lemma_nearest_unique(bits, nearest(num, den), num, den);
}

/// A number that a binary64 holds exactly is rounded to that binary64.
pub proof fn lemma_exact_is_nearest(bits: u64)
    requires
        bits < FIRST_NON_FINITE,
    ensures
        is_nearest(bits, magnitude(bits), pow2(1074)),
{
    let p = pow2(1074);
    let v = magnitude(bits);
    lemma_pow2_pos(1074);
    lemma_magnitude_next(bits);
    let hi = magnitude((bits + 1) as u64);
    assert(2 * v * p < (v + hi) * p) by (nonlinear_arith)
        requires
            v < hi,
            p > 0,
    ;
    if bits > 0 {
        lemma_magnitude_next((bits - 1) as u64);
        let lo = magnitude((bits - 1) as u64);
        assert((lo + v) * p < 2 * v * p) by (nonlinear_arith)
            requires
                lo < v,
                p > 0,
        ;
    }
}

/// The nearest binary64 belongs to the quotient, not to the way it is
/// written: numerator and denominator may be multiplied alike.
pub proof fn lemma_nearest_scales(bits: u64, num: nat, den: nat, by: nat)
    requires
        by > 0,
    ensures
        is_nearest(bits, num * by, den * by) == is_nearest(bits, num, den),
{
    let p = pow2(1074);
    let lo = magnitude((bits - 1) as u64) + magnitude(bits);
    let hi = magnitude(bits) + magnitude((bits + 1) as u64);
    let twice = 2 * num * p;
    assert(2 * (num * by) * p == twice * by) by (nonlinear_arith)
        requires
            twice == 2 * num * p,
    ;
    assert(lo * (den * by) == (lo * den) * by) by (nonlinear_arith);
    assert(hi * (den * by) == (hi * den) * by) by (nonlinear_arith);
    lemma_scaled_sign(lo * den, twice, by);
    lemma_scaled_sign(twice, hi * den, by);
}

proof fn lemma_scaled_sign(a: nat, b: nat, by: nat)
    requires
        by > 0,
    ensures
        (a * by < b * by) == (a < b),
        (a * by == b * by) == (a == b),
{
    assert((a * by < b * by) == (a < b)) by (nonlinear_arith)
        requires
            by > 0,
    ;
    assert((a * by == b * by) == (a == b)) by (nonlinear_arith)
        requires
            by > 0,
    ;
}

proof fn lemma_zero()
    ensures
        magnitude(0) == 0,
        magnitude(1) == 1,
        forall|den: nat| den > 0 ==> #[trigger] is_nearest(0, 0, den),
{
    lemma2_to64();
    assert(biased_exponent(0) == 0 && fraction(0) == 0);
    assert(biased_exponent(1) == 0 && fraction(1) == 1);
    assert(significand(0) == 0 && shift(0) == 0);
    assert(significand(1) == 1 && shift(1) == 0);
    assert(magnitude(0) == 0 * pow2(0));
    assert(magnitude(1) == 1 * pow2(0));
    assert forall|den: nat| den > 0 implies #[trigger] is_nearest(0, 0, den) by {
        let zero: u64 = 0;
        assert((zero + 1) as u64 == 1);
        assert(2 * 0 * pow2(1074) == 0) by (nonlinear_arith);
        assert((magnitude(zero) + magnitude(1)) * den == den) by (nonlinear_arith)
            requires
                magnitude(zero) == 0,
                magnitude(1) == 1,
        ;
    }
}

proof fn lemma_pow2_115()
    ensures
        pow2(115) == 0x8_0000_0000_0000_0000_0000_0000_0000,
        pow2(62) == 0x4000_0000_0000_0000,
        pow2(60) == 0x1000_0000_0000_0000,
        pow2(53) == 0x20_0000_0000_0000,
{
    lemma2_to64();
    lemma2_to64_rest();
    lemma_pow2_adds(64, 51);
}

fn two_to(k: u32) -> (p: u128)
    requires
        k <= 60,
    ensures
        p == pow2(k as nat),
        1 <= p <= 0x1000_0000_0000_0000,
{
    let mut p: u128 = 1;
    let mut i: u32 = 0;
    proof {
        lemma2_to64();
        lemma_pow2_115();
    }
    while i < k
        invariant
            i <= k <= 60,
            p == pow2(i as nat),
            p >= 1,
            pow2(60) == 0x1000_0000_0000_0000,
        decreases k - i,
    {
        proof {
            lemma_pow2_unfold((i + 1) as nat);
            if i + 1 < 60 {
                lemma_pow2_strictly_increases((i + 1) as nat, 60);
            }
        }
        p = p * 2;
        i = i + 1;
    }
    proof {
        if k < 60 {
            lemma_pow2_strictly_increases(k as nat, 60);
        }
    }
    p
}

/// Rounds `n0 / d0 * 2^exp`, which is `num / den`, to the nearest binary64.
fn round_to_nearest(n0: u128, d0: u128, exp: i32, Ghost(num): Ghost<nat>, Ghost(den): Ghost<nat>) -> (bits: u64)
    requires
        1 <= n0 < 0x8_0000_0000_0000_0000_0000_0000_0000,
        1 <= d0 <= 0x100_0000_0000,
        -800 <= exp <= 800,
        den > 0,
        n0 * den * pow2((exp + 1074) as nat) == num * d0 * pow2(1074),
    ensures
        is_nearest(bits, num, den),
        bits > 0,
        exp + 950 <= biased_exponent(bits) <= exp + 1140,
{
    let mut n: u128 = n0;
    let mut d: u128 = d0;
    let mut e: i32 = exp;
    proof {
        lemma2_to64();
        lemma_pow2_115();
    }
    while n / d >= 0x20_0000_0000_0000
        invariant
            n == n0,
            1 <= n0 < 0x8_0000_0000_0000_0000_0000_0000_0000,
            1 <= d <= 0x8000_0000_0000_0000,
            -800 <= exp <= e <= exp + 63,
            exp <= 800,
            d >= pow2((e - exp) as nat),
            pow2(62) == 0x4000_0000_0000_0000,
            den > 0,
            n * den * pow2((e + 1074) as nat) == num * d * pow2(1074),
        decreases exp + 64 - e,
    {
        proof {
            vstd::arithmetic::div_mod::lemma_fundamental_div_mod(n as int, d as int);
            vstd::arithmetic::div_mod::lemma_mod_bound(n as int, d as int);
            let q = n / d;
            assert(d < 0x4000_0000_0000_0000) by (nonlinear_arith)
                requires
                    n >= d * q,
                    q >= 0x20_0000_0000_0000,
                    n < 0x8_0000_0000_0000_0000_0000_0000_0000,
                    d >= 1,
            ;
            if e - exp > 62 {
                lemma_pow2_strictly_increases(62, (e - exp) as nat);
            }
            assert(e - exp < 62);
            lemma_pow2_unfold((e + 1 - exp) as nat);
            lemma_pow2_unfold((e + 1 + 1074) as nat);
            let g = pow2((e + 1074) as nat);
            let g2 = pow2((e + 1 + 1074) as nat);
            let p = pow2(1074);
            assert(n * den * g2 == num * (d * 2) * p) by (nonlinear_arith)
                requires
                    n * den * g == num * d * p,
                    g2 == 2 * g,
            ;
        }
        d = d * 2;
        e = e + 1;
    }
    let ghost e1 = e as int;
    proof {
        lemma2_to64();
    }
    while n / d < 0x10_0000_0000_0000
        invariant
            1 <= d <= 0x8000_0000_0000_0000,
            n >= 1,
            n / d < 0x20_0000_0000_0000,
            e1 - 116 <= e <= e1,
            -800 <= e1 <= 863,
            n >= pow2((e1 - e) as nat),
            pow2(115) == 0x8_0000_0000_0000_0000_0000_0000_0000,
            den > 0,
            n * den * pow2((e + 1074) as nat) == num * d * pow2(1074),
        decreases e - (e1 - 200),
    {
        proof {
            vstd::arithmetic::div_mod::lemma_fundamental_div_mod(n as int, d as int);
            vstd::arithmetic::div_mod::lemma_mod_bound(n as int, d as int);
            let q = n / d;
            let r = n % d;
            assert(n < 0x10_0000_0000_0000 * d) by (nonlinear_arith)
                requires
                    n == d * q + r,
                    r < d,
                    q + 1 <= 0x10_0000_0000_0000,
                    d >= 1,
            ;
            assert(n < 0x8_0000_0000_0000_0000_0000_0000_0000) by (nonlinear_arith)
                requires
                    n < 0x10_0000_0000_0000 * d,
                    d <= 0x8000_0000_0000_0000,
            ;
            if e1 - e > 115 {
                lemma_pow2_strictly_increases(115, (e1 - e) as nat);
            }
            assert(e1 - e < 115);
            lemma_pow2_unfold((e1 - e + 1) as nat);
            lemma_pow2_unfold((e + 1074) as nat);
            let g = pow2((e + 1074) as nat);
            let g2 = pow2((e - 1 + 1074) as nat);
            let p = pow2(1074);
            assert((n * 2) * den * g2 == num * d * p) by (nonlinear_arith)
                requires
                    n * den * g == num * d * p,
                    g == 2 * g2,
            ;
            assert(n * 2 < d * 0x20_0000_0000_0000) by (nonlinear_arith)
                requires
                    n < 0x10_0000_0000_0000 * d,
            ;
            vstd::arithmetic::div_mod::lemma_multiply_divide_lt(
                (n * 2) as int,
                d as int,
                0x20_0000_0000_0000,
            );
        }
        n = n * 2;
        e = e - 1;
    }
    let m: u128 = n / d;
    let r: u128 = n % d;
    proof {
        vstd::arithmetic::div_mod::lemma_fundamental_div_mod(n as int, d as int);
        vstd::arithmetic::div_mod::lemma_mod_bound(n as int, d as int);
        assert(n == m * d + r) by (nonlinear_arith)
            requires
                n == d * m + r,
        ;
        lemma_nearest_by_division(num, den, n as nat, d as nat, e as int, m as nat, r as nat);
        lemma_pattern((e + 1075) as nat, (m - HIDDEN_BIT) as nat);
    }
    let f: u64 = ((e + 1075) as u64) * HIDDEN_BIT + (m as u64 - HIDDEN_BIT);
    assert(f == pattern_of(m as nat, e as int));
    if 2 * r > d || (2 * r == d && m % 2 == 1) {
        proof {
            lemma_fields_of((f + 1) as u64);
        }
        f + 1
    } else {
        f
    }
}

proof fn lemma_far(hi: u64, lo: u64)
    requires
        hi < FIRST_NON_FINITE,
        lo < FIRST_NON_FINITE,
        biased_exponent(lo) >= 1,
        biased_exponent(hi) > biased_exponent(lo) + 60,
    ensures
        is_nearest(hi, magnitude(hi) + magnitude(lo), pow2(1074)),
{
    let p = pow2(1074);
    let v = magnitude(hi);
    let w = magnitude(lo);
    let sl = shift(lo);
    let sh = shift(hi);
    lemma_pow2_pos(1074);
    lemma_magnitude_next(hi);
    lemma_magnitude_next((hi - 1) as u64);
    lemma_fields_of(lo);
    lemma_pow2_115();
    lemma_pow2_adds(54, sl);
    lemma_pow2_pos(sl);
    lemma_pow2_unfold(54);
    assert(2 * w < pow2(54 + sl)) by (nonlinear_arith)
        requires
            w == significand(lo) * pow2(sl),
            significand(lo) < 0x20_0000_0000_0000,
            pow2(54 + sl) == pow2(54) * pow2(sl),
            pow2(54) == 2 * 0x20_0000_0000_0000,
            pow2(sl) > 0,
    ;
    if 54 + sl < sh {
        lemma_pow2_strictly_increases(54 + sl, sh);
    }
    let up = magnitude((hi + 1) as u64);
    let lo1 = magnitude((hi - 1) as u64);
    assert(2 * (v + w) * p < (v + up) * p) by (nonlinear_arith)
        requires
            2 * w < up - v,
            p > 0,
    ;
    assert((lo1 + v) * p < 2 * (v + w) * p) by (nonlinear_arith)
        requires
            lo1 < v,
            w >= 0,
            p > 0,
    ;
}

/// Adds two binary64s that are zero or normal numbers well inside the
/// range, and rounds the sum to the nearest binary64.
fn sum_nearest(x: u64, y: u64) -> (bits: u64)
    requires
        x == 0 || 300 <= biased_exponent(x) <= 1800,
        y == 0 || 300 <= biased_exponent(y) <= 1800,
    ensures
        is_nearest(bits, magnitude(x) + magnitude(y), pow2(1074)),
{
    proof {
        lemma_zero();
    }
    if x == 0 {
        proof {
            lemma_fields_of_bound(y);
            lemma_exact_is_nearest(y);
        }
        return y;
    }
    if y == 0 {
        proof {
            lemma_fields_of_bound(x);
            lemma_exact_is_nearest(x);
        }
        return x;
    }
    proof {
        lemma_fields_of_bound(x);
        lemma_fields_of_bound(y);
    }
    let (hi, lo) = if x / HIDDEN_BIT >= y / HIDDEN_BIT {
        (x, y)
    } else {
        (y, x)
    };
    let high: u64 = hi / HIDDEN_BIT;
    let low: u64 = lo / HIDDEN_BIT;
    let diff: u64 = high - low;
    if diff > 60 {
        proof {
            lemma_far(hi, lo);
        }
        return hi;
    }
    let mh: u128 = (HIDDEN_BIT + hi % HIDDEN_BIT) as u128;
    let ml: u128 = (HIDDEN_BIT + lo % HIDDEN_BIT) as u128;
    let scale: u128 = two_to(diff as u32);
    assert(mh * scale < 0x20_0000_0000_0000 * 0x1000_0000_0000_0000) by (nonlinear_arith)
        requires
            mh < 0x20_0000_0000_0000,
            scale <= 0x1000_0000_0000_0000,
    ;
    let s: u128 = mh * scale + ml;
    let exp: i32 = low as i32 - 1075;
    proof {
        let p = pow2(1074);
        let g = pow2((low - 1) as nat);
        lemma_pow2_pos(1074);
        lemma_pow2_adds(diff as nat, (low - 1) as nat);
        assert(pow2((high - 1) as nat) == scale * g);
        assert(magnitude(hi) == mh * pow2((high - 1) as nat));
        assert(magnitude(lo) == ml * g);
        assert(s * p * g == (magnitude(hi) + magnitude(lo)) * 1 * p) by (nonlinear_arith)
            requires
                s == mh * scale + ml,
                magnitude(hi) == mh * (scale * g),
                magnitude(lo) == ml * g,
        ;
    }
    round_to_nearest(s, 1, exp, Ghost(magnitude(hi) + magnitude(lo)), Ghost(pow2(1074)))
}

proof fn lemma_fields_of_bound(bits: u64)
    requires
        biased_exponent(bits) <= 1800,
    ensures
        bits < FIRST_NON_FINITE,
{
    vstd::arithmetic::div_mod::lemma_fundamental_div_mod(bits as int, HIDDEN_BIT as int);
    vstd::arithmetic::div_mod::lemma_mod_bound(bits as int, HIDDEN_BIT as int);
    let q = bits / HIDDEN_BIT;
    assert(HIDDEN_BIT * q <= 0x10_0000_0000_0000 * 1800) by (nonlinear_arith)
        requires
            q <= 1800,
    ;
}

/// Writes a reading as a binary64 of seconds since the epoch: the whole
/// seconds turned into a binary64, the nanoseconds turned into one and
/// divided by one billion, and the two added, each of the three steps
/// rounded to the nearest binary64.
pub fn seconds_from_timestamp(t: &Timestamp) -> (bits: u64)
    ensures
        bits == reading_seconds(t.nanos()),
        bits < FIRST_NON_FINITE,
        is_nearest(nearest(t.nanos() / (NANOS_PER_SEC as nat), 1), t.nanos() / (NANOS_PER_SEC as nat), 1),
        is_nearest(
            nearest(t.nanos() % (NANOS_PER_SEC as nat), NANOS_PER_SEC as nat),
            t.nanos() % (NANOS_PER_SEC as nat),
            NANOS_PER_SEC as nat,
        ),
        is_nearest_sum(
            bits,
            nearest(t.nanos() / (NANOS_PER_SEC as nat), 1),
            nearest(t.nanos() % (NANOS_PER_SEC as nat), NANOS_PER_SEC as nat),
        ),
{
    let secs: u64 = t.secs();
    let sub: u32 = t.subsec_nanos();
    proof {
        lemma_zero();
        lemma_pow2_pos(1074);
    }
    let whole: u64 = if secs == 0 {
        0
    } else {
        round_to_nearest(secs as u128, 1, 0, Ghost(secs as nat), Ghost(1))
    };
    let part: u64 = if sub == 0 {
        0
    } else {
        round_to_nearest(sub as u128, 1_000_000_000, 0, Ghost(sub as nat), Ghost(1_000_000_000))
    };
    let bits = sum_nearest(whole, part);
    proof {
        lemma_nearest_is(whole, secs as nat, 1);
        lemma_nearest_is(part, sub as nat, 1_000_000_000);
        lemma_nearest_is(bits, magnitude(whole) + magnitude(part), pow2(1074));
    }
    bits
}

/// Whole seconds that a binary64 holds exactly go out as that binary64:
/// where `bits` stands for `secs` seconds to the last digit, a reading of
/// so many seconds and no nanoseconds is written as `bits`.
pub proof fn lemma_whole_seconds_go_out_exactly(bits: u64, secs: nat)
    requires
        bits < FIRST_NON_FINITE,
        magnitude(bits) == secs * pow2(1074),
    ensures
        reading_seconds(secs * (NANOS_PER_SEC as nat)) == bits,
{
    let p = pow2(1074);
    let billion = NANOS_PER_SEC as nat;
    lemma_pow2_pos(1074);
    lemma_zero();
    // the whole seconds
    lemma_exact_is_nearest(bits);
    lemma_nearest_scales(bits, secs, 1, p);
    assert(1 * p == p) by (nonlinear_arith);
    lemma_nearest_is(bits, secs, 1);
    // no nanoseconds
    lemma_nearest_is(0, 0, billion);
    // their sum
    lemma_nearest_is(bits, magnitude(bits) + magnitude(0), p);
    assert((secs * billion) / billion == secs && (secs * billion) % billion == 0) by {
        vstd::arithmetic::div_mod::lemma_fundamental_div_mod_converse(
            (secs * billion) as int,
            billion as int,
            secs as int,
            0,
        );
        assert(secs * billion == billion * secs + 0) by (nonlinear_arith);
    }
}

} // verus!
