//! Whole numbers of any size, held as their decimal digits with the least
//! significant first. They serve where a number of seconds is too large for
//! 128 bits of nanoseconds and has to be written out all the same.

use vstd::prelude::*;
use vstd::arithmetic::power2::pow2;
use vstd::arithmetic::power2::lemma_pow2_unfold;
use vstd::arithmetic::power2::lemma2_to64;
use crate::decimal::digit_byte;
use crate::decimal::digits_of;
use crate::decimal::pow10;
use crate::decimal::ZERO;

verus! {

/// Whether every entry is a digit, a number from zero to nine.
pub open spec fn are_digits(v: Seq<u8>) -> bool {
    forall|i: int| 0 <= i < v.len() ==> #[trigger] v[i] <= 9
}

/// The number that the digits write, the least significant first.
pub open spec fn number_of(v: Seq<u8>) -> nat
    decreases v.len(),
{
    if v.len() == 0 {
        0
    } else {
        v[0] as nat + 10 * number_of(v.drop_first())
    }
}

/// Whether the digits end without a zero at the most significant end.
pub open spec fn is_trimmed(v: Seq<u8>) -> bool {
    v.len() > 0 ==> v.last() != 0
}

/// The digits as text, the most significant first.
pub open spec fn written(v: Seq<u8>) -> Seq<u8> {
    Seq::new(v.len(), |i: int| digit_byte(v[v.len() - 1 - i] as nat))
}

/// One more digit at the most significant end adds it at its place.
pub proof fn lemma_number_push(v: Seq<u8>, d: u8)
    ensures
        number_of(v.push(d)) == number_of(v) + d * pow10(v.len()),
    decreases v.len(),
{
    if v.len() == 0 {
        assert(v.push(d).drop_first() =~= Seq::<u8>::empty());
        assert(v.push(d)[0] == d);
        assert(number_of(v.push(d)) == d + 10 * number_of(v.push(d).drop_first()));
        assert(d * pow10(0) == d) by (nonlinear_arith)
            requires
                pow10(0) == 1,
        ;
    } else {
        let rest = v.drop_first();
        assert(v.push(d).drop_first() =~= rest.push(d));
        assert(v.push(d)[0] == v[0]);
        assert(number_of(v.push(d)) == v[0] + 10 * number_of(v.push(d).drop_first()));
        lemma_number_push(rest, d);
        assert(pow10(v.len()) == 10 * pow10(rest.len()));
        assert(10 * (number_of(rest) + d * pow10(rest.len())) == 10 * number_of(rest) + d * pow10(
            v.len(),
        )) by (nonlinear_arith)
            requires
                pow10(v.len()) == 10 * pow10(rest.len()),
        ;
    }
}

/// So many digits write a number below ten to that many.
pub proof fn lemma_number_bound(v: Seq<u8>)
    requires
        are_digits(v),
    ensures
        number_of(v) < pow10(v.len()),
    decreases v.len(),
{
    if v.len() > 0 {
        let rest = v.drop_first();
        assert forall|i: int| 0 <= i < rest.len() implies #[trigger] rest[i] <= 9 by {
            assert(rest[i] == v[i + 1]);
        }
        lemma_number_bound(rest);
        assert(v[0] <= 9);
    }
}

/// The digits from the `k`th on are the number divided by ten to the `k`,
/// and the digits before it are what the division leaves.
pub proof fn lemma_number_split(v: Seq<u8>, k: nat)
    requires
        are_digits(v),
        k <= v.len(),
    ensures
        number_of(v) == number_of(v.subrange(0, k as int)) + pow10(k) * number_of(
            v.subrange(k as int, v.len() as int),
        ),
        number_of(v.subrange(k as int, v.len() as int)) == number_of(v) / pow10(k),
        number_of(v.subrange(0, k as int)) == number_of(v) % pow10(k),
    decreases v.len(),
{
    let low = v.subrange(0, k as int);
    let high = v.subrange(k as int, v.len() as int);
    if k == 0 {
        assert(high =~= v);
        assert(1 * number_of(high) == number_of(high)) by (nonlinear_arith);
    } else {
        let rest = v.drop_first();
        assert forall|i: int| 0 <= i < rest.len() implies #[trigger] rest[i] <= 9 by {
            assert(rest[i] == v[i + 1]);
        }
        lemma_number_split(rest, (k - 1) as nat);
        assert(low.drop_first() =~= rest.subrange(0, k - 1));
        assert(high =~= rest.subrange(k - 1, rest.len() as int));
        assert(low[0] == v[0]);
        assert(v[0] + 10 * (number_of(low.drop_first()) + pow10((k - 1) as nat) * number_of(high))
            == (v[0] + 10 * number_of(low.drop_first())) + pow10(k) * number_of(high))
            by (nonlinear_arith)
            requires
                pow10(k) == 10 * pow10((k - 1) as nat),
        ;
    }
    assert forall|i: int| 0 <= i < low.len() implies #[trigger] low[i] <= 9 by {
        assert(low[i] == v[i]);
    }
    lemma_number_bound(low);
    crate::decimal::lemma_pow10_adds(k, 0);
    assert(number_of(v) == number_of(high) * pow10(k) + number_of(low)) by (nonlinear_arith)
        requires
            number_of(v) == number_of(low) + pow10(k) * number_of(high),
    ;
    vstd::arithmetic::div_mod::lemma_fundamental_div_mod_converse(
        number_of(v) as int,
        pow10(k) as int,
        number_of(high) as int,
        number_of(low) as int,
    );
}

/// Digits that do not end in a zero write a number other than zero.
pub proof fn lemma_trimmed_is_positive(v: Seq<u8>)
    requires
        v.len() > 0,
        v.last() != 0,
    ensures
        number_of(v) >= 1,
{
    let front = v.drop_last();
    assert(v =~= front.push(v.last()));
    lemma_number_push(front, v.last());
    crate::decimal::lemma_pow10_adds(front.len(), 0);
    assert(v.last() * pow10(front.len()) >= 1) by (nonlinear_arith)
        requires
            v.last() >= 1,
            pow10(front.len()) >= 1,
    ;
}

/// Digits that do not end in a zero, written the most significant first,
/// are the decimal text of their number.
pub proof fn lemma_written(v: Seq<u8>)
    requires
        are_digits(v),
        v.len() > 0,
        v.last() != 0,
    ensures
        written(v) == digits_of(number_of(v)),
    decreases v.len(),
{
    let n = number_of(v);
    if v.len() == 1 {
        assert(v.drop_first() =~= Seq::<u8>::empty());
        assert(v[0] <= 9);
        assert(written(v) =~= seq![digit_byte(n)]);
    } else {
        let rest = v.drop_first();
        assert forall|i: int| 0 <= i < rest.len() implies #[trigger] rest[i] <= 9 by {
            assert(rest[i] == v[i + 1]);
        }
        assert(rest.last() == v.last());
        lemma_written(rest);
        lemma_trimmed_is_positive(rest);
        assert(v[0] <= 9);
        vstd::arithmetic::div_mod::lemma_fundamental_div_mod_converse(
            n as int,
            10,
            number_of(rest) as int,
            v[0] as int,
        );
        assert(written(v) =~= written(rest).push(digit_byte(v[0] as nat)));
    }
}

/// The digits of a number that 128 bits hold; none for zero.
pub fn small_digits(n: u128) -> (v: Vec<u8>)
    ensures
        number_of(v@) == n,
        are_digits(v@),
        is_trimmed(v@),
{
    let mut v: Vec<u8> = Vec::new();
    let mut rest: u128 = n;
    assert(rest * pow10(0) == rest) by (nonlinear_arith)
        requires
            pow10(0) == 1,
    ;
    while rest > 0
        invariant
            number_of(v@) + rest * pow10(v@.len()) == n,
            are_digits(v@),
            rest == 0 ==> is_trimmed(v@),
        decreases rest,
    {
        let d: u8 = (rest % 10) as u8;
        proof {
            lemma_number_push(v@, d);
            assert(pow10(v@.len() + 1) == 10 * pow10(v@.len()));
            assert(d * pow10(v@.len()) + (rest / 10) * pow10(v@.len() + 1) == rest * pow10(
                v@.len(),
            )) by (nonlinear_arith)
                requires
                    rest == 10 * (rest / 10) + d,
                    pow10(v@.len() + 1) == 10 * pow10(v@.len()),
            ;
        }
        v.push(d);
        rest = rest / 10;
    }
    assert(0 * pow10(v@.len()) == 0) by (nonlinear_arith);
    v
}

/// Twice the number.
pub fn doubled(v: &Vec<u8>) -> (out: Vec<u8>)
    requires
        are_digits(v@),
    ensures
        number_of(out@) == 2 * number_of(v@),
        are_digits(out@),
        is_trimmed(v@) ==> is_trimmed(out@),
{
    let mut out: Vec<u8> = Vec::new();
    let mut carry: u8 = 0;
    let mut i: usize = 0;
    assert(v@.subrange(0, 0) =~= Seq::<u8>::empty());
    assert(0 * pow10(0) == 0) by (nonlinear_arith);
    while i < v.len()
        invariant
            i <= v@.len(),
            out@.len() == i,
            carry <= 1,
            are_digits(v@),
            are_digits(out@),
            number_of(out@) + carry * pow10(i as nat) == 2 * number_of(v@.subrange(0, i as int)),
            i > 0 && carry == 0 ==> out@.last() != 0 || v@[i - 1] == 0,
        decreases v@.len() - i,
    {
        let d: u8 = v[i];
        assert(d <= 9);
        let t: u8 = 2 * d + carry;
        let low: u8 = t % 10;
        let high: u8 = t / 10;
        proof {
            lemma_number_push(out@, low);
            lemma_number_push(v@.subrange(0, i as int), d);
            assert(v@.subrange(0, i + 1) =~= v@.subrange(0, i as int).push(d));
            assert(number_of(out@) + low * pow10(i as nat) + high * pow10((i + 1) as nat) == 2 * (
            number_of(v@.subrange(0, i as int)) + d * pow10(i as nat))) by (nonlinear_arith)
                requires
                    number_of(out@) + carry * pow10(i as nat) == 2 * number_of(
                        v@.subrange(0, i as int),
                    ),
                    low + 10 * high == 2 * d + carry,
                    pow10((i + 1) as nat) == 10 * pow10(i as nat),
            ;
        }
        out.push(low);
        carry = high;
        i = i + 1;
    }
    assert(v@.subrange(0, i as int) =~= v@);
    if carry > 0 {
        proof {
            lemma_number_push(out@, carry);
        }
        out.push(carry);
    } else {
        assert(carry * pow10(i as nat) == 0) by (nonlinear_arith)
            requires
                carry == 0,
        ;
    }
    out
}

/// The digits of `m * 2^e`.
pub fn times_power_of_two(m: u128, e: u16) -> (out: Vec<u8>)
    ensures
        number_of(out@) == m * pow2(e as nat),
        are_digits(out@),
        is_trimmed(out@),
{
    let mut out = small_digits(m);
    let mut i: u16 = 0;
    proof {
        lemma2_to64();
        assert(m * pow2(0) == m) by (nonlinear_arith)
            requires
                pow2(0) == 1,
        ;
    }
    while i < e
        invariant
            i <= e,
            number_of(out@) == m * pow2(i as nat),
            are_digits(out@),
            is_trimmed(out@),
        decreases e - i,
    {
        proof {
            lemma_pow2_unfold((i + 1) as nat);
            assert(2 * (m * pow2(i as nat)) == m * pow2((i + 1) as nat)) by (nonlinear_arith)
                requires
                    pow2((i + 1) as nat) == 2 * pow2(i as nat),
            ;
        }
        out = doubled(&out);
        i = i + 1;
    }
    out
}

/// The number and `small` added.
pub fn plus(v: &Vec<u8>, small: u128) -> (out: Vec<u8>)
    requires
        are_digits(v@),
        small <= u128::MAX - 9,
    ensures
        number_of(out@) == number_of(v@) + small,
        are_digits(out@),
        out@.len() >= v@.len(),
{
    let mut out: Vec<u8> = Vec::new();
    let mut carry: u128 = small;
    let mut i: usize = 0;
    assert(v@.subrange(0, 0) =~= Seq::<u8>::empty());
    assert(carry * pow10(0) == carry) by (nonlinear_arith)
        requires
            pow10(0) == 1,
    ;
    while i < v.len()
        invariant
            i <= v@.len(),
            out@.len() == i,
            carry <= small,
            small <= u128::MAX - 9,
            are_digits(v@),
            are_digits(out@),
            number_of(out@) + carry * pow10(i as nat) == number_of(v@.subrange(0, i as int))
                + small,
        decreases v@.len() - i,
    {
        let d: u8 = v[i];
        assert(d <= 9);
        let t: u128 = carry + d as u128;
        let low: u8 = (t % 10) as u8;
        let high: u128 = t / 10;
        proof {
            lemma_number_push(out@, low);
            lemma_number_push(v@.subrange(0, i as int), d);
            assert(v@.subrange(0, i + 1) =~= v@.subrange(0, i as int).push(d));
            assert(number_of(out@) + low * pow10(i as nat) + high * pow10((i + 1) as nat)
                == number_of(v@.subrange(0, i as int)) + d * pow10(i as nat) + small)
                by (nonlinear_arith)
                requires
                    number_of(out@) + carry * pow10(i as nat) == number_of(
                        v@.subrange(0, i as int),
                    ) + small,
                    low + 10 * high == carry + d,
                    pow10((i + 1) as nat) == 10 * pow10(i as nat),
            ;
        }
        out.push(low);
        carry = high;
        i = i + 1;
    }
    assert(v@.subrange(0, i as int) =~= v@);
    while carry > 0
        invariant
            are_digits(out@),
            out@.len() >= v@.len(),
            number_of(out@) + carry * pow10(out@.len()) == number_of(v@) + small,
        decreases carry,
    {
        let low: u8 = (carry % 10) as u8;
        proof {
            lemma_number_push(out@, low);
            assert(low * pow10(out@.len()) + (carry / 10) * pow10(out@.len() + 1) == carry * pow10(
                out@.len(),
            )) by (nonlinear_arith)
                requires
                    carry == 10 * (carry / 10) + low,
                    pow10(out@.len() + 1) == 10 * pow10(out@.len()),
            ;
        }
        out.push(low);
        carry = carry / 10;
    }
    assert(0 * pow10(out@.len()) == 0) by (nonlinear_arith);
    out
}

/// The number less `small`, which is not more than the number.
pub fn minus(v: &Vec<u8>, small: u128) -> (out: Vec<u8>)
    requires
        are_digits(v@),
        small <= number_of(v@),
    ensures
        number_of(out@) == number_of(v@) - small,
        are_digits(out@),
        out@.len() == v@.len(),
{
    let mut out: Vec<u8> = Vec::new();
    let mut rest: u128 = small;
    let mut borrow: u8 = 0;
    let mut i: usize = 0;
    assert(v@.subrange(0, 0) =~= Seq::<u8>::empty());
    assert(rest * pow10(0) == rest && 0 * pow10(0) == 0) by (nonlinear_arith)
        requires
            pow10(0) == 1,
    ;
    while i < v.len()
        invariant
            i <= v@.len(),
            out@.len() == i,
            borrow <= 1,
            are_digits(v@),
            are_digits(out@),
            number_of(out@) + small == number_of(v@.subrange(0, i as int)) + (borrow + rest)
                * pow10(i as nat),
        decreases v@.len() - i,
    {
        let d: u8 = v[i];
        assert(d <= 9);
        let take: u8 = (rest % 10) as u8 + borrow;
        let (low, next): (u8, u8) = if d >= take {
            (d - take, 0)
        } else {
            (d + 10 - take, 1)
        };
        proof {
            lemma_number_push(out@, low);
            lemma_number_push(v@.subrange(0, i as int), d);
            assert(v@.subrange(0, i + 1) =~= v@.subrange(0, i as int).push(d));
            let p = pow10(i as nat);
            let q = rest / 10;
            assert(number_of(out@) + low * p + small == number_of(v@.subrange(0, i as int)) + d * p
                + (next + q) * pow10((i + 1) as nat)) by (nonlinear_arith)
                requires
                    number_of(out@) + small == number_of(v@.subrange(0, i as int)) + (borrow
                        + rest) * p,
                    low + take == d + 10 * next,
                    take == rest - 10 * q + borrow,
                    pow10((i + 1) as nat) == 10 * p,
            ;
        }
        out.push(low);
        borrow = next;
        rest = rest / 10;
        i = i + 1;
    }
    proof {
        assert(v@.subrange(0, i as int) =~= v@);
        lemma_number_bound(out@);
        lemma_number_bound(v@);
        let p = pow10(i as nat);
        assert(borrow + rest == 0) by (nonlinear_arith)
            requires
                number_of(out@) + small == number_of(v@) + (borrow + rest) * p,
                number_of(out@) < p,
                small <= number_of(v@),
                borrow + rest >= 0,
        ;
        assert((borrow + rest) * p == 0) by (nonlinear_arith)
            requires
                borrow + rest == 0,
        ;
    }
    out
}

/// The digits without zeros at the most significant end.
pub fn trimmed(v: Vec<u8>) -> (out: Vec<u8>)
    requires
        are_digits(v@),
    ensures
        number_of(out@) == number_of(v@),
        are_digits(out@),
        is_trimmed(out@),
{
    let mut out = v;
    while out.len() > 0 && out[out.len() - 1] == 0
        invariant
            are_digits(out@),
            number_of(out@) == number_of(v@),
        decreases out@.len(),
    {
        proof {
            let front = out@.drop_last();
            assert(out@ =~= front.push(0));
            lemma_number_push(front, 0);
            assert(0 * pow10(front.len()) == 0) by (nonlinear_arith);
        }
        out.pop();
    }
    out
}

/// The digits from the one at `from` on.
pub fn digits_from(v: &Vec<u8>, from: usize) -> (out: Vec<u8>)
    requires
        from <= v@.len(),
    ensures
        out@ == v@.subrange(from as int, v@.len() as int),
{
    let mut out: Vec<u8> = Vec::new();
    let mut i: usize = from;
    assert(v@.subrange(from as int, from as int) =~= Seq::<u8>::empty());
    while i < v.len()
        invariant
            from <= i <= v@.len(),
            out@ == v@.subrange(from as int, i as int),
        decreases v@.len() - i,
    {
        out.push(v[i]);
        i = i + 1;
        assert(out@ =~= v@.subrange(from as int, i as int));
    }
    out
}

/// Appends the number to `out` as decimal text.
pub fn push_number(out: &mut Vec<u8>, v: &Vec<u8>)
    requires
        are_digits(v@),
        is_trimmed(v@),
    ensures
        final(out)@ == old(out)@ + digits_of(number_of(v@)),
{
    if v.len() == 0 {
        out.push(ZERO);
        assert(out@ =~= old(out)@ + digits_of(0));
        return ;
    }
    proof {
        lemma_written(v@);
    }
    let ghost text = written(v@);
    let mut i: usize = v.len();
    assert(out@ =~= old(out)@ + text.subrange(0, 0));
    while i > 0
        invariant
            i <= v@.len(),
            are_digits(v@),
            text == written(v@),
            out@ == old(out)@ + text.subrange(0, v@.len() - i),
        decreases i,
    {
        i = i - 1;
        assert(v@[i as int] <= 9);
        out.push(ZERO + v[i]);
        assert(out@ =~= old(out)@ + text.subrange(0, v@.len() - i));
    }
    assert(text.subrange(0, v@.len() as int) =~= text);
}

} // verus!
