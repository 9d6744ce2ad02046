//! The one double-precision expression of the library, `hash / denom * 100.0`
//! truncated to an integer, computed with integers alone.
//!
//! A positive double is a 53-bit significand times a power of two, and each
//! arithmetic operation gives the double nearest to the exact result, a tie going to
//! the even significand. The numbers here stay far from the ends of the exponent
//! range, so neither overflow nor gradual underflow comes into play.
use vstd::arithmetic::power2::{
    lemma2_to64, lemma2_to64_rest, lemma_pow2_adds, lemma_pow2_pos, lemma_pow2_strictly_increases,
    lemma_pow2_unfold, pow2,
};
use vstd::prelude::*;

verus! {

/// A positive double: `significand` times two to the power `exponent`.
pub struct Double {
    pub significand: nat,
    pub exponent: int,
}

/// The integer nearest to `num / den`; of two equally near ones, the even one.
pub open spec fn round_ties_even(num: nat, den: nat) -> nat {
    let quotient = num / den;
    let twice_rest = 2 * (num % den);
    if twice_rest > den || (twice_rest == den && quotient % 2 == 1) {
        quotient + 1
    } else {
        quotient
    }
}

/// Two to the power `e`, or one where `e` is negative.
pub open spec fn two_up(e: int) -> nat {
    if e > 0 {
        pow2(e as nat)
    } else {
        1
    }
}

/// Whether `num / den` lies from 2^52 up to 2^53, in units of two to the power `e`.
pub open spec fn has_exponent(num: nat, den: nat, e: int) -> bool {
    pow2(52) * (den * two_up(e)) <= num * two_up(-e) < pow2(53) * (den * two_up(e))
}

/// The double nearest to the positive number `num / den`.
pub open spec fn nearest_double(num: nat, den: nat) -> Double {
    let e = choose|e: int| has_exponent(num, den, e);
    Double { significand: round_ties_even(num * two_up(-e), den * two_up(e)), exponent: e }
}

/// What `(hash as f64) / (denom as f64) * 100.0` truncates to: the conversion of
/// `denom`, the quotient and the product each round to the nearest double.
pub open spec fn hundredfold_ratio(hash: nat, denom: nat) -> nat {
    let d = nearest_double(denom, 1);
    let q = nearest_double(hash * two_up(-d.exponent), d.significand * two_up(d.exponent));
    let v = nearest_double(q.significand * 100 * two_up(q.exponent), two_up(-q.exponent));
    v.significand * two_up(v.exponent) / two_up(-v.exponent)
}

proof fn lemma_two_up_pos(e: int)
    ensures
        two_up(e) >= 1,
{
    if e > 0 {
        lemma_pow2_pos(e as nat);
    }
}

proof fn lemma_times_one(x: nat, one: nat)
    requires
        one == 1,
    ensures
        x * one == x,
{
}

/// The condition on the exponent, with both sides scaled to a common power of two.
proof fn lemma_has_exponent_scaled(num: nat, den: nat, e: int, k: nat)
    requires
        e + k >= 0,
    ensures
        has_exponent(num, den, e) <==> pow2(52) * (den * pow2((e + k) as nat)) <= num * pow2(k)
            < pow2(53) * (den * pow2((e + k) as nat)),
{
    let a = den * two_up(e);
    let b = num * two_up(-e);
    if e > 0 {
        lemma_pow2_adds(e as nat, k);
        lemma_pow2_pos(k);
        let c = pow2(k);
        let p = pow2(e as nat);
        assert(den * (p * c) == (den * p) * c) by (nonlinear_arith);
        lemma_cancel(pow2(52), a, b, c);
        lemma_cancel(pow2(53), a, b, c);
    } else {
        let c = pow2((e + k) as nat);
        lemma_pow2_pos((e + k) as nat);
        if e < 0 {
            lemma_pow2_adds((-e) as nat, (e + k) as nat);
        } else {
            assert(two_up(-e) == 1);
        }
        let p = two_up(-e);
        assert(pow2(k) == p * c);
        assert(num * (p * c) == (num * p) * c) by (nonlinear_arith);
        assert(den * 1 == den);
        lemma_cancel(pow2(52), a, b, c);
        lemma_cancel(pow2(53), a, b, c);
    }
}

proof fn lemma_cancel(f: nat, a: nat, b: nat, c: nat)
    requires
        c > 0,
    ensures
        f * a <= b <==> f * (a * c) <= b * c,
        b < f * a <==> b * c < f * (a * c),
{
    assert(f * (a * c) == (f * a) * c) by (nonlinear_arith);
    let fa = f * a;
    assert(fa <= b <==> fa * c <= b * c) by (nonlinear_arith)
        requires
            c > 0,
    ;
}

/// No number has two exponents.
proof fn lemma_exponent_unique(num: nat, den: nat, e1: int, e2: int)
    requires
        has_exponent(num, den, e1),
        has_exponent(num, den, e2),
    ensures
        e1 == e2,
{
    if e1 < e2 {
        lemma_exponent_not_both(num, den, e1, e2);
    } else if e2 < e1 {
        lemma_exponent_not_both(num, den, e2, e1);
    }
}

proof fn lemma_exponent_not_both(num: nat, den: nat, e1: int, e2: int)
    requires
        e1 < e2,
    ensures
        !(has_exponent(num, den, e1) && has_exponent(num, den, e2)),
{
    let k: nat = if e1 < 0 {
        (-e1) as nat
    } else {
        0
    };
    lemma_has_exponent_scaled(num, den, e1, k);
    lemma_has_exponent_scaled(num, den, e2, k);
    let low = pow2((e1 + k) as nat);
    let high = pow2((e2 + k) as nat);
    lemma_pow2_unfold((e1 + k + 1) as nat);
    if e1 + 1 < e2 {
        lemma_pow2_strictly_increases((e1 + k + 1) as nat, (e2 + k) as nat);
    }
    lemma_pow2_unfold(53);
    let p = pow2(52);
    assert((2 * p) * (den * low) <= p * (den * high)) by (nonlinear_arith)
        requires
            2 * low <= high,
    ;
}

/// Every positive number has an exponent.
proof fn lemma_exponent_exists(num: nat, den: nat)
    requires
        num > 0,
        den > 0,
    ensures
        exists|e: int| has_exponent(num, den, e),
{
    let k = (52 + den) as nat;
    lemma_pow2_adds(52, den);
    lemma_less_than_pow2(den);
    lemma_pow2_pos(52);
    lemma_pow2_pos(0);
    let p = pow2(52);
    let d = pow2(den);
    assert(pow2(0) == 1) by {
        lemma2_to64();
    }
    assert(p * (den * 1) <= num * (p * d)) by (nonlinear_arith)
        requires
            den <= d,
            num >= 1,
            p >= 1,
    ;
    lemma_exponent_search(num, den, k, 0);
}

proof fn lemma_less_than_pow2(n: nat)
    ensures
        n < pow2(n),
    decreases n,
{
    if n == 0 {
        lemma_pow2_pos(0);
    } else {
        lemma_less_than_pow2((n - 1) as nat);
        lemma_pow2_unfold(n);
    }
}

proof fn lemma_exponent_search(num: nat, den: nat, k: nat, j: nat)
    requires
        den > 0,
        pow2(52) * (den * pow2(j)) <= num * pow2(k),
    ensures
        exists|e: int| has_exponent(num, den, e),
    decreases num * pow2(k) - j,
{
    let bound = num * pow2(k);
    lemma_has_exponent_scaled(num, den, j - k, k);
    assert(j - k + k == j);
    if bound < pow2(53) * (den * pow2(j)) {
        assert(has_exponent(num, den, j - k));
    } else {
        lemma_pow2_unfold(53);
        lemma_pow2_unfold(j + 1);
        let p = pow2(52);
        let w = pow2(j);
        assert((2 * p) * (den * w) == p * (den * (2 * w))) by (nonlinear_arith);
        lemma_less_than_pow2(j);
        lemma_pow2_pos(52);
        assert(w <= p * (den * w)) by (nonlinear_arith)
            requires
                p >= 1,
                den >= 1,
        ;
        lemma_exponent_search(num, den, k, j + 1);
    }
}

/// The exponent that the nearest double is given.
proof fn lemma_nearest_exponent(num: nat, den: nat, e: int)
    requires
        has_exponent(num, den, e),
    ensures
        nearest_double(num, den).exponent == e,
        nearest_double(num, den).significand == round_ties_even(num * two_up(-e), den * two_up(e)),
{
    lemma_exponent_unique(num, den, e, choose|x: int| has_exponent(num, den, x));
}

/// A common factor of numerator and denominator does not change the rounding.
proof fn lemma_round_scaled(num: nat, den: nat, c: nat)
    requires
        den > 0,
        c > 0,
    ensures
        round_ties_even(num * c, den * c) == round_ties_even(num, den),
{
    let q = num / den;
    let r = num % den;
    vstd::arithmetic::div_mod::lemma_fundamental_div_mod(num as int, den as int);
    assert(num * c == q * (den * c) + r * c && 0 <= r * c < den * c) by (nonlinear_arith)
        requires
            num == den * q + r,
            0 <= r < den,
            c > 0,
    ;
    vstd::arithmetic::div_mod::lemma_fundamental_div_mod_converse(
        (num * c) as int,
        (den * c) as int,
        q as int,
        (r * c) as int,
    );
    assert(2 * (r * c) > den * c <==> 2 * r > den) by (nonlinear_arith)
        requires
            c > 0,
    ;
    assert(2 * (r * c) == den * c <==> 2 * r == den) by (nonlinear_arith)
        requires
            c > 0,
    ;
}

/// A number that is a double already rounds to itself.
proof fn lemma_round_exact(num: nat)
    ensures
        round_ties_even(num, 1) == num,
{
}

/// Rounding stays between the whole numbers that enclose the argument.
proof fn lemma_round_bounds(num: nat, den: nat, low: nat, high: nat)
    requires
        den > 0,
        low * den <= num < high * den,
    ensures
        low <= round_ties_even(num, den) <= high,
{
    let q = num / den;
    vstd::arithmetic::div_mod::lemma_fundamental_div_mod(num as int, den as int);
    assert(low <= q < high) by (nonlinear_arith)
        requires
            low * den <= num < high * den,
            num == den * q + num % den,
            0 <= num % den < den,
            den > 0,
    ;
}

/// A nearest double is at most twice the number it stands for.
proof fn lemma_nearest_at_most_twice(num: nat, den: nat)
    requires
        num > 0,
        den > 0,
    ensures
        ({
            let x = nearest_double(num, den);
            &&& has_exponent(num, den, x.exponent)
            &&& pow2(52) <= x.significand <= pow2(53)
            &&& x.significand * two_up(x.exponent) * den <= 2 * num * two_up(-x.exponent)
        }),
{
    lemma_exponent_exists(num, den);
    let x = nearest_double(num, den);
    let e = x.exponent;
    lemma_two_up_pos(e);
    let up = two_up(e);
    let down = two_up(-e);
    assert(den * up > 0) by (nonlinear_arith)
        requires
            den > 0,
            up >= 1,
    ;
    lemma_round_bounds(num * down, den * up, pow2(52), pow2(53));
    lemma_pow2_unfold(53);
    let p = pow2(52);
    let m = x.significand;
    assert(m * up * den <= 2 * num * down) by (nonlinear_arith)
        requires
            m <= 2 * p,
            p * (den * up) <= num * down,
    ;
}

/// Above 2^53 the ratio is so small that a hundred times it is still below one.
proof fn lemma_ratio_vanishes(hash: nat, denom: nat)
    requires
        0 < hash < 0x1_0000_0000,
        0x20_0000_0000_0000 <= denom,
    ensures
        hundredfold_ratio(hash, denom) == 0,
{
    lemma2_to64();
    lemma2_to64_rest();
    lemma_nearest_at_most_twice(denom, 1);
    let d = nearest_double(denom, 1);
    if d.exponent <= 0 {
        lemma_two_up_pos(-d.exponent);
        let down = two_up(-d.exponent);
        assert(denom * down >= denom) by (nonlinear_arith)
            requires
                down >= 1,
        ;
        assert(false);
    }
    lemma_pow2_unfold(d.exponent as nat);
    lemma_pow2_pos((d.exponent - 1) as nat);
    let den = d.significand * two_up(d.exponent);
    let m = d.significand;
    let up = two_up(d.exponent);
    assert(den >= 0x20_0000_0000_0000) by (nonlinear_arith)
        requires
            den == m * up,
            m >= 0x10_0000_0000_0000,
            up >= 2,
    ;
    assert(hash * two_up(-d.exponent) == hash);
    lemma_nearest_at_most_twice(hash, den);
    let q = nearest_double(hash, den);
    let q_up = two_up(q.exponent);
    let q_down = two_up(-q.exponent);
    lemma_two_up_pos(q.exponent);
    lemma_two_up_pos(-q.exponent);
    let num = q.significand * 100 * q_up;
    let s = q.significand;
    assert(num > 0) by (nonlinear_arith)
        requires
            num == s * 100 * q_up,
            s >= 1,
            q_up >= 1,
    ;
    lemma_nearest_at_most_twice(num, q_down);
    let v = nearest_double(num, q_down);
    let v_up = two_up(v.exponent);
    let v_down = two_up(-v.exponent);
    lemma_two_up_pos(-v.exponent);
    let t = v.significand * v_up;
    assert(t < v_down) by {
        assert(t * q_down <= 2 * num * v_down);
        assert(s * q_up * den <= 2 * hash * q_down);
        assert((t * den) * q_down <= (400 * hash * v_down) * q_down) by (nonlinear_arith)
            requires
                t * q_down <= 2 * num * v_down,
                num == s * 100 * q_up,
                s * q_up * den <= 2 * hash * q_down,
        {
            assert((t * den) * q_down == (t * q_down) * den);
            assert((t * q_down) * den <= (2 * num * v_down) * den);
            assert((2 * num * v_down) * den == 200 * v_down * (s * q_up * den));
            assert(200 * v_down * (s * q_up * den) <= 200 * v_down * (2 * hash * q_down));
            assert(200 * v_down * (2 * hash * q_down) == (400 * hash * v_down) * q_down);
        }
        assert(t * den <= 400 * hash * v_down) by (nonlinear_arith)
            requires
                (t * den) * q_down <= (400 * hash * v_down) * q_down,
                q_down >= 1,
        ;
        assert(t < v_down) by (nonlinear_arith)
            requires
                t * den <= 400 * hash * v_down,
                hash < 0x1_0000_0000,
                den >= 0x20_0000_0000_0000,
                v_down >= 1,
        {
            assert(400 * hash < 0x20_0000_0000_0000);
            assert(t * 0x20_0000_0000_0000 <= t * den);
            assert(400 * hash * v_down < 0x20_0000_0000_0000 * v_down);
        }
    }
    vstd::arithmetic::div_mod::lemma_basic_div(t as int, v_down as int);
}

/// `(hash as f64) / (denom as f64) * 100.0`, truncated.
pub(crate) fn hundredfold(hash: u32, denom: u64) -> (value: u64)
    requires
        hash > 0,
        denom > 0,
    ensures
        value == hundredfold_ratio(hash as nat, denom as nat),
{
    if denom >= 0x20_0000_0000_0000 {
        proof {
            lemma_ratio_vanishes(hash as nat, denom as nat);
        }
        return 0;
    }
    let low: u128 = 0x10_0000_0000_0000 * denom as u128;
    let mut scaled: u128 = hash as u128;
    let mut unit: u128 = 1;
    let ghost mut k: nat = 0;
    proof {
        lemma2_to64();
    }
    while scaled < low
        invariant
            0 < hash,
            0 < denom < 0x20_0000_0000_0000,
            low == 0x10_0000_0000_0000 * denom,
            scaled == hash * unit,
            scaled < 2 * low,
            unit == pow2(k),
            unit >= 1,
        decreases 2 * low - scaled,
    {
        proof {
            lemma_pow2_unfold(k + 1);
            k = k + 1;
        }
        assert(unit <= scaled) by (nonlinear_arith)
            requires
                scaled == hash * unit,
                hash >= 1,
        ;
        assert(hash * (unit * 2) == (hash * unit) * 2) by (nonlinear_arith);
        scaled = scaled * 2;
        unit = unit * 2;
    }
    let significand = round_exec(scaled, denom as u128);
    proof {
        lemma2_to64_rest();
        lemma_round_bounds(
            scaled as nat,
            denom as nat,
            0x10_0000_0000_0000,
            0x20_0000_0000_0000,
        );
        if k <= 7 {
            if k < 7 {
                lemma_pow2_strictly_increases(k, 7);
            }
            assert(hash * unit <= 0x1_0000_0000 * 0x80) by (nonlinear_arith)
                requires
                    hash <= 0x1_0000_0000,
                    unit <= 0x80,
            ;
            assert(false);
        }
    }
    let product: u128 = significand * 100;
    let step: u128 = if product < 0x800_0000_0000_0000 {
        0x40
    } else {
        0x80
    };
    let rounded = round_exec(product, step);
    let ghost s: nat = if step == 0x40 {
        6
    } else {
        7
    };
    proof {
        lemma_round_bounds(product as nat, step as nat, 0, 0x20_0000_0000_0000);
        lemma_pow2_adds(s, (k - s) as nat);
        lemma_pow2_pos((k - s) as nat);
        lemma_hundredfold_steps(hash as nat, denom as nat, k, s);
        let rest = pow2((k - s) as nat);
        assert(unit == step * rest);
        assert(unit / step == rest) by (nonlinear_arith)
            requires
                unit == step * rest,
                step > 0,
        ;
        vstd::arithmetic::div_mod::lemma_div_is_ordered_by_denominator(
            rounded as int,
            1,
            rest as int,
        );
    }
    (rounded / (unit / step)) as u64
}

/// The three roundings, each written as the rounding that the integers go through:
/// `k` scales the quotient to a 53-bit significand and `s` the product back to one.
proof fn lemma_hundredfold_steps(hash: nat, denom: nat, k: nat, s: nat)
    requires
        hash > 0,
        0 < denom < 0x20_0000_0000_0000,
        pow2(52) * denom <= hash * pow2(k) < pow2(53) * denom,
        s <= k,
        0 < s,
        ({
            let m = round_ties_even(hash * pow2(k), denom);
            pow2(52) * pow2(s) <= m * 100 < pow2(53) * pow2(s)
        }),
        0 < k,
    ensures
        hundredfold_ratio(hash, denom) == round_ties_even(
            round_ties_even(hash * pow2(k), denom) * 100,
            pow2(s),
        ) / pow2((k - s) as nat),
{
    lemma2_to64();
    lemma2_to64_rest();
    // The conversion of the denominator is exact.
    lemma_nearest_at_most_twice(denom, 1);
    let d = nearest_double(denom, 1);
    if d.exponent > 0 {
        lemma_pow2_unfold(d.exponent as nat);
        lemma_pow2_pos((d.exponent - 1) as nat);
        let up = two_up(d.exponent);
        assert(0x10_0000_0000_0000 * (1 * up) >= 0x20_0000_0000_0000) by (nonlinear_arith)
            requires
                up >= 2,
        ;
        assert(false);
    }
    let c = two_up(-d.exponent);
    lemma_two_up_pos(-d.exponent);
    lemma_round_exact(denom * c);
    assert(d.significand == denom * c);
    // The quotient.
    let e = -(k as int);
    assert(two_up(-e) == pow2(k) && two_up(e) == 1);
    assert(has_exponent(hash, denom, e));
    lemma_nearest_scaled(hash, denom, c, e);
    let q = nearest_double(hash * c, denom * c);
    let m = round_ties_even(hash * pow2(k), denom);
    assert(q.significand == m && q.exponent == e);
    // The product.
    let rest = pow2((k - s) as nat);
    lemma_pow2_pos((k - s) as nat);
    lemma_pow2_adds(s, (k - s) as nat);
    let ev = s - k;
    assert(two_up(-ev) == rest && two_up(ev) == 1) by {
        if s == k {
            assert(pow2(0) == 1);
        }
    }
    let product = m * 100;
    lemma_cancel(pow2(52), pow2(s), product, rest);
    lemma_cancel(pow2(53), pow2(s), product, rest);
    assert(product * 1 == product);
    assert(has_exponent(product, pow2(k), ev));
    lemma_nearest_exponent(product, pow2(k), ev);
    lemma_pow2_pos(s);
    lemma_round_scaled(product, pow2(s), rest);
    let v = nearest_double(product, pow2(k));
    lemma_times_one(d.significand, two_up(d.exponent));
    lemma_times_one(product, two_up(q.exponent));
    lemma_times_one(pow2(k), two_up(ev));
    lemma_times_one(v.significand, two_up(ev));
}

/// A common factor changes neither the exponent nor the significand.
proof fn lemma_nearest_scaled(num: nat, den: nat, c: nat, e: int)
    requires
        den > 0,
        c > 0,
        has_exponent(num, den, e),
    ensures
        nearest_double(num * c, den * c) == nearest_double(num, den),
        nearest_double(num, den).exponent == e,
        nearest_double(num, den).significand == round_ties_even(num * two_up(-e), den * two_up(e)),
{
    let up = two_up(e);
    let down = two_up(-e);
    lemma_two_up_pos(e);
    lemma_cancel(pow2(52), den * up, num * down, c);
    lemma_cancel(pow2(53), den * up, num * down, c);
    assert((den * c) * up == (den * up) * c) by (nonlinear_arith);
    assert((num * c) * down == (num * down) * c) by (nonlinear_arith);
    assert(den * up > 0) by (nonlinear_arith)
        requires
            den > 0,
            up >= 1,
    ;
    lemma_nearest_exponent(num, den, e);
    lemma_nearest_exponent(num * c, den * c, e);
    lemma_round_scaled(num * down, den * up, c);
}

fn round_exec(num: u128, den: u128) -> (value: u128)
    requires
        0 < den,
        num < u128::MAX / 4,
        den < u128::MAX / 4,
    ensures
        value == round_ties_even(num as nat, den as nat),
{
    let quotient = num / den;
    let twice_rest = 2 * (num % den);
    if twice_rest > den || (twice_rest == den && quotient % 2 == 1) {
        quotient + 1
    } else {
        quotient
    }
}

/// Whether `value` is the whole number nearest to `num / den`, an even one if two are
/// equally near.
pub open spec fn is_nearest(num: nat, den: nat, value: nat) -> bool {
    let twice_off = 2 * num - 2 * (value * den);
    &&& -den <= twice_off <= den
    &&& twice_off == den || twice_off == -den ==> value % 2 == 0
}

proof fn lemma_nearest_is_round(num: nat, den: nat, value: nat)
    requires
        den > 0,
        is_nearest(num, den, value),
    ensures
        round_ties_even(num, den) == value,
{
    let q = num / den;
    let r = num % den;
    vstd::arithmetic::div_mod::lemma_fundamental_div_mod(num as int, den as int);
    assert(value == q || value == q + 1) by (nonlinear_arith)
        requires
            num == den * q + r,
            0 <= r < den,
            -den <= 2 * num - 2 * (value * den) <= den,
            den > 0,
    ;
    if value == q {
        assert(2 * num - 2 * (value * den) == 2 * r) by (nonlinear_arith)
            requires
                num == den * q + r,
                value == q,
        ;
    } else {
        assert(2 * num - 2 * (value * den) == 2 * r - 2 * den) by (nonlinear_arith)
            requires
                num == den * q + r,
                value == q + 1,
        ;
    }
}

proof fn lemma_round_is_nearest(num: nat, den: nat)
    requires
        den > 0,
    ensures
        is_nearest(num, den, round_ties_even(num, den)),
{
    let q = num / den;
    let r = num % den;
    let value = round_ties_even(num, den);
    vstd::arithmetic::div_mod::lemma_fundamental_div_mod(num as int, den as int);
    if value == q {
        assert(2 * num - 2 * (value * den) == 2 * r) by (nonlinear_arith)
            requires
                num == den * q + r,
                value == q,
        ;
    } else {
        assert(2 * num - 2 * (value * den) == 2 * r - 2 * den) by (nonlinear_arith)
            requires
                num == den * q + r,
                value == q + 1,
        ;
    }
}

/// The ratio is computed with two roundings: `m` is the quotient, scaled by two to the power
/// `k` to 53 bits, to the nearest whole number; `v` is a hundred times `m`, scaled back by two
/// to the power `s` to 53 bits, to the nearest whole number; and what is left of `v` without
/// its binary fraction is the result.
pub proof fn law_ratio_rounded_twice(hash: nat, denom: nat, k: nat, s: nat, m: nat, v: nat)
    requires
        0 < hash,
        0 < denom < 0x20_0000_0000_0000,
        0 < s <= k,
        0x10_0000_0000_0000 * denom <= hash * pow2(k) < 0x20_0000_0000_0000 * denom,
        is_nearest(hash * pow2(k), denom, m),
        0x10_0000_0000_0000 * pow2(s) <= m * 100 < 0x20_0000_0000_0000 * pow2(s),
        is_nearest(m * 100, pow2(s), v),
    ensures
        hundredfold_ratio(hash, denom) == v / pow2((k - s) as nat),
{
    lemma2_to64();
    lemma2_to64_rest();
    lemma_pow2_pos(s);
    lemma_nearest_is_round(hash * pow2(k), denom, m);
    lemma_nearest_is_round(m * 100, pow2(s), v);
    lemma_hundredfold_steps(hash, denom, k, s);
}

proof fn lemma_scale_found(hash: nat, denom: nat) -> (k: nat)
    requires
        0 < hash < 0x1_0000_0000,
        0 < denom,
    ensures
        k >= 8,
        0x10_0000_0000_0000 * denom <= hash * pow2(k) < 0x20_0000_0000_0000 * denom,
{
    lemma2_to64();
    lemma2_to64_rest();
    lemma_exponent_exists(hash, denom);
    let e = choose|e: int| has_exponent(hash, denom, e);
    if e >= 0 {
        lemma_two_up_pos(e);
        let up = two_up(e);
        lemma_times_one(hash, two_up(-e));
        assert(0x10_0000_0000_0000 * (denom * up) >= 0x10_0000_0000_0000) by (nonlinear_arith)
            requires
                denom >= 1,
                up >= 1,
        ;
        assert(false);
    }
    let k = (-e) as nat;
    lemma_times_one(denom, two_up(e));
    if k < 8 {
        if k < 7 {
            lemma_pow2_strictly_increases(k, 7);
        }
        let unit = pow2(k);
        assert(hash * unit <= 0x1_0000_0000 * 0x80) by (nonlinear_arith)
            requires
                hash <= 0x1_0000_0000,
                unit <= 0x80,
        ;
        assert(false);
    }
    k
}

/// The ratio is a hundred times the hash divided by the denominator, less than two away from
/// it: rounding never moves it further.
pub proof fn law_ratio_close(hash: nat, denom: nat)
    requires
        0 < hash < 0x1_0000_0000,
        0 < denom < 0x20_0000_0000_0000,
    ensures
        ({
            let ratio = hundredfold_ratio(hash, denom);
            (ratio - 1) * denom < 100 * hash < (ratio + 2) * denom
        }),
{
    lemma2_to64();
    lemma2_to64_rest();
    let k = lemma_scale_found(hash, denom);
    let unit = pow2(k);
    let m = round_ties_even(hash * unit, denom);
    lemma_round_is_nearest(hash * unit, denom);
    lemma_round_bounds(hash * unit, denom, 0x10_0000_0000_0000, 0x20_0000_0000_0000);
    let s: nat = if m * 100 < 0x800_0000_0000_0000 {
        6
    } else {
        7
    };
    let step = pow2(s);
    let v = round_ties_even(m * 100, step);
    lemma_round_is_nearest(m * 100, step);
    lemma_hundredfold_steps(hash, denom, k, s);
    let rest = pow2((k - s) as nat);
    lemma_pow2_adds(s, (k - s) as nat);
    lemma_pow2_pos((k - s) as nat);
    let ratio = hundredfold_ratio(hash, denom);
    vstd::arithmetic::div_mod::lemma_fundamental_div_mod(v as int, rest as int);
    let fraction = v % rest;
    if k > 8 {
        lemma_pow2_strictly_increases(8, k);
    }
    assert(unit >= 256);
    // Everything is measured in units of `unit * denom`.
    assert(v * step == ratio * unit + fraction * step) by (nonlinear_arith)
        requires
            v == rest * ratio + fraction,
            unit == step * rest,
    ;
    assert(fraction * step <= unit - step) by (nonlinear_arith)
        requires
            0 <= fraction <= rest - 1,
            unit == step * rest,
            step > 0,
    ;
    let a = ratio * unit;
    assert(a <= 100 * m + 64 && 100 * m <= a + unit + 64);
    assert(a * denom <= (100 * m + 64) * denom) by (nonlinear_arith)
        requires
            a <= 100 * m + 64,
    ;
    assert(100 * m * denom <= (a + unit + 64) * denom) by (nonlinear_arith)
        requires
            100 * m <= a + unit + 64,
    ;
    let mine = m * denom;
    assert((100 * m + 64) * denom == 100 * mine + 64 * denom) by (nonlinear_arith)
        requires
            mine == m * denom,
    ;
    assert(100 * m * denom == 100 * mine) by (nonlinear_arith)
        requires
            mine == m * denom,
    ;
    let h = hash * unit;
    assert(a * denom <= 100 * h + 114 * denom);
    assert(100 * h <= (a + unit + 64) * denom + 50 * denom);
    assert((ratio - 1) * denom < 100 * hash) by (nonlinear_arith)
        requires
            a == ratio * unit,
            h == hash * unit,
            a * denom <= 100 * h + 114 * denom,
            unit >= 256,
            denom > 0,
    {
        assert((ratio * denom) * unit <= (100 * hash) * unit + 114 * denom);
        assert(114 * denom < denom * unit);
        assert((ratio * denom - denom) * unit < (100 * hash) * unit);
    }
    assert(100 * hash < (ratio + 2) * denom) by (nonlinear_arith)
        requires
            a == ratio * unit,
            h == hash * unit,
            100 * h <= (a + unit + 64) * denom + 50 * denom,
            unit >= 256,
            denom > 0,
    {
        assert((100 * hash) * unit <= (ratio * denom + denom) * unit + 114 * denom);
        assert(114 * denom < denom * unit);
        assert((100 * hash) * unit < (ratio * denom + 2 * denom) * unit);
    }
}

/// From 2 to the power 53 on a denominator leaves nothing of a 32-bit hash.
pub proof fn law_ratio_vanishes(hash: nat, denom: nat)
    requires
        0 < hash < 0x1_0000_0000,
        0x20_0000_0000_0000 <= denom,
    ensures
        hundredfold_ratio(hash, denom) == 0,
{
    lemma_ratio_vanishes(hash, denom);
}

} // verus!
