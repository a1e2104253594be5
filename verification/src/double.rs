//! Binary64 floating-point numbers (IEEE 754 "double"), computed exactly.
//!
//! A double is held as its 64-bit pattern. Every finite double is a whole
//! number of *units* of 2^-1074, so sums, products and quotients of doubles
//! are exact ratios of natural numbers; each operation forms that ratio with
//! unbounded integers and rounds it once, to the nearest double, ties to the
//! even mantissa. All NaN patterns are treated alike, and every NaN that an
//! operation produces is the one pattern `NAN_BITS`.

use crate::bignat::{BigNat, Order, order_of};
use vstd::arithmetic::div_mod::{
    lemma_basic_div, lemma_div_multiples_vanish, lemma_div_multiples_vanish_quotient,
    lemma_fundamental_div_mod, lemma_fundamental_div_mod_converse, lemma_mod_multiples_basic,
    lemma_small_mod,
};
use vstd::arithmetic::power2::{
    lemma2_to64, lemma2_to64_rest, lemma_pow2_adds, lemma_pow2_pos, lemma_pow2_strictly_increases,
    lemma_pow2_unfold, pow2,
};
use vstd::prelude::*;

verus! {

pub const SIGN_BIT: u64 = 0x8000_0000_0000_0000;

/// 2^52: the implicit leading mantissa bit, and the weight of one exponent step in the pattern.
pub const HIDDEN_BIT: u64 = 0x10_0000_0000_0000;

pub const INFINITY_BITS: u64 = 0x7FF0_0000_0000_0000;

pub const NAN_BITS: u64 = 0x7FF8_0000_0000_0000;

/// The pattern without its sign bit.
pub open spec fn magnitude(bits: u64) -> u64 {
    (bits % SIGN_BIT) as u64
}

pub open spec fn is_negative(bits: u64) -> bool {
    bits >= SIGN_BIT
}

pub open spec fn is_nan(bits: u64) -> bool {
    magnitude(bits) > INFINITY_BITS
}

pub open spec fn is_infinite(bits: u64) -> bool {
    magnitude(bits) == INFINITY_BITS
}

pub open spec fn is_zero(bits: u64) -> bool {
    magnitude(bits) == 0
}

/// The pattern that stands for `bits`: itself, or `NAN_BITS` for any NaN.
pub open spec fn canonical(bits: u64) -> u64 {
    if is_nan(bits) {
        NAN_BITS
    } else {
        bits
    }
}

/// The pattern with the given sign and magnitude.
pub open spec fn with_sign(negative: bool, mag: u64) -> u64 {
    if negative {
        (mag + SIGN_BIT) as u64
    } else {
        mag
    }
}

/// The pattern with the other sign.
pub open spec fn negated(bits: u64) -> u64 {
    with_sign(!is_negative(bits), magnitude(bits))
}

/// The integer mantissa of a magnitude: the fraction bits, with the hidden
/// bit unless the number is subnormal.
pub open spec fn mantissa(mag: u64) -> nat {
    if mag < HIDDEN_BIT {
        mag as nat
    } else {
        (HIDDEN_BIT + mag % HIDDEN_BIT) as nat
    }
}

/// The power of two that scales the mantissa to units of 2^-1074.
pub open spec fn scale(mag: u64) -> nat {
    if mag < HIDDEN_BIT {
        0
    } else {
        (mag / HIDDEN_BIT - 1) as nat
    }
}

/// The magnitude as a count of units of 2^-1074. For the pattern of
/// infinity this is 2^2098, one binade above the largest finite double, so
/// that order by units is order by value.
pub open spec fn units(mag: u64) -> nat {
    mantissa(mag) * pow2(scale(mag))
}

/// The value as a count of units of 2^-1074, with its sign.
pub open spec fn signed_units(bits: u64) -> int {
    if is_negative(bits) {
        -(units(magnitude(bits)) as int)
    } else {
        units(magnitude(bits)) as int
    }
}

/// The binade of the ratio `n / d` (in units): the least `p` with
/// `n < d * 2^(53 + p)`. Doubles in binade `p` are `2^p` units apart.
pub open spec fn binade(n: nat, d: nat) -> nat
    decreases n,
{
    if d == 0 || n == 0 || n < d * pow2(53) {
        0
    } else {
        1 + binade(n / 2, d)
    }
}

/// Magnitude of the double nearest to `n / d` units, ties to the even
/// mantissa; infinity where the ratio lies beyond the finite range.
pub open spec fn nearest(n: nat, d: nat) -> u64
    recommends
        d > 0,
{
    let p = binade(n, d);
    if p > 2045 {
        INFINITY_BITS
    } else {
        let step = d * pow2(p);
        let q = n / step;
        let r = n % step;
        let up: nat = if 2 * r > step || (2 * r == step && q % 2 == 1) {
            1
        } else {
            0
        };
        (p * HIDDEN_BIT + q + up) as u64
    }
}

/// `a + b`.
pub open spec fn sum_bits(a: u64, b: u64) -> u64 {
    if is_nan(a) || is_nan(b) {
        NAN_BITS
    } else if is_infinite(a) {
        if is_infinite(b) && is_negative(a) != is_negative(b) {
            NAN_BITS
        } else {
            a
        }
    } else if is_infinite(b) {
        b
    } else {
        let s = signed_units(a) + signed_units(b);
        if s == 0 {
            with_sign(is_negative(a) && is_negative(b), 0)
        } else if s < 0 {
            with_sign(true, nearest((-s) as nat, 1))
        } else {
            with_sign(false, nearest(s as nat, 1))
        }
    }
}

/// `a - b`.
pub open spec fn difference_bits(a: u64, b: u64) -> u64 {
    sum_bits(a, negated(b))
}

/// `a * b`.
pub open spec fn product_bits(a: u64, b: u64) -> u64 {
    let negative = is_negative(a) != is_negative(b);
    if is_nan(a) || is_nan(b) {
        NAN_BITS
    } else if is_infinite(a) || is_infinite(b) {
        if is_zero(a) || is_zero(b) {
            NAN_BITS
        } else {
            with_sign(negative, INFINITY_BITS)
        }
    } else {
        with_sign(negative, nearest(units(magnitude(a)) * units(magnitude(b)), pow2(1074)))
    }
}

/// `a / b`.
pub open spec fn quotient_bits(a: u64, b: u64) -> u64 {
    let negative = is_negative(a) != is_negative(b);
    if is_nan(a) || is_nan(b) {
        NAN_BITS
    } else if is_infinite(a) {
        if is_infinite(b) {
            NAN_BITS
        } else {
            with_sign(negative, INFINITY_BITS)
        }
    } else if is_infinite(b) {
        with_sign(negative, 0)
    } else if is_zero(b) {
        if is_zero(a) {
            NAN_BITS
        } else {
            with_sign(negative, INFINITY_BITS)
        }
    } else {
        with_sign(negative, nearest(units(magnitude(a)) * pow2(1074), units(magnitude(b))))
    }
}

/// The double nearest to the integer `v`.
pub open spec fn integer_bits(v: int) -> u64 {
    if v < 0 {
        with_sign(true, nearest(((-v) * pow2(1074)) as nat, 1))
    } else {
        with_sign(false, nearest((v * pow2(1074)) as nat, 1))
    }
}

/// The integer part of a double, rounded toward zero; zero for NaN.
pub open spec fn truncated(bits: u64) -> int {
    if is_nan(bits) {
        0
    } else {
        let whole = (units(magnitude(bits)) / pow2(1074)) as int;
        if is_negative(bits) {
            -whole
        } else {
            whole
        }
    }
}

/// `v` held to the range from `low` to `high`.
pub open spec fn clamped(v: int, low: int, high: int) -> int {
    if v < low {
        low
    } else if v > high {
        high
    } else {
        v
    }
}

/// How two doubles compare by value; `None` where either is NaN.
pub open spec fn comparison(a: u64, b: u64) -> Option<Order> {
    if is_nan(a) || is_nan(b) {
        None
    } else {
        Some(order_of(signed_units(a), signed_units(b)))
    }
}

pub proof fn lemma_pow2_le(a: nat, b: nat)
    requires
        a <= b,
    ensures
        pow2(a) <= pow2(b),
{
    if a < b {
        lemma_pow2_strictly_increases(a, b);
    }
}

proof fn lemma_pow2_values()
    ensures
        pow2(0) == 1,
        pow2(1) == 2,
        pow2(10) == 0x400,
        pow2(11) == 0x800,
        pow2(52) == 0x10_0000_0000_0000,
        pow2(53) == 0x20_0000_0000_0000,
        pow2(63) == 0x8000_0000_0000_0000,
        pow2(64) == 0x1_0000_0000_0000_0000,
{
    lemma2_to64();
    lemma2_to64_rest();
}

/// A `p` that brackets the ratio is its binade.
pub proof fn lemma_binade_is(n: nat, d: nat, p: nat)
    requires
        d > 0,
        n < d * pow2(53 + p),
        p == 0 || n >= d * pow2(52 + p),
    ensures
        binade(n, d) == p,
    decreases p,
{
    if p > 0 {
        let c = d * pow2((51 + p) as nat);
        lemma_pow2_unfold(52 + p);
        lemma_pow2_unfold(53 + p);
        lemma_pow2_le(53, 52 + p);
        assert(d * pow2(52 + p) == 2 * c) by (nonlinear_arith)
            requires
                pow2(52 + p) == 2 * pow2((51 + p) as nat),
                c == d * pow2((51 + p) as nat),
        ;
        assert(d * pow2(53 + p) == 4 * c) by (nonlinear_arith)
            requires
                pow2(53 + p) == 2 * pow2(52 + p),
                d * pow2(52 + p) == 2 * c,
        ;
        assert(d * pow2(53) <= d * pow2(52 + p)) by (nonlinear_arith)
            requires
                pow2(53) <= pow2(52 + p),
        ;
        assert(53 + (p - 1) as nat == 52 + p);
        assert(52 + (p - 1) as nat == (51 + p) as nat);
        lemma_binade_is(n / 2, d, (p - 1) as nat);
    }
}

/// A ratio of at least `2^(52 + p)` lies in binade `p` or above.
pub proof fn lemma_binade_at_least(n: nat, d: nat, p: nat)
    requires
        d > 0,
        n >= d * pow2(52 + p),
    ensures
        binade(n, d) >= p,
    decreases p,
{
    if p > 0 {
        let c = d * pow2((51 + p) as nat);
        lemma_pow2_unfold(52 + p);
        lemma_pow2_le(53, 52 + p);
        assert(d * pow2(52 + p) == 2 * c) by (nonlinear_arith)
            requires
                pow2(52 + p) == 2 * pow2((51 + p) as nat),
                c == d * pow2((51 + p) as nat),
        ;
        assert(d * pow2(53) <= d * pow2(52 + p)) by (nonlinear_arith)
            requires
                pow2(53) <= pow2(52 + p),
        ;
        lemma_pow2_pos(53);
        assert(d * pow2(53) > 0) by (nonlinear_arith)
            requires
                d > 0,
                pow2(53) > 0,
        ;
        assert(52 + (p - 1) as nat == (51 + p) as nat);
        lemma_binade_at_least(n / 2, d, (p - 1) as nat);
    }
}

/// Nothing rounds to a magnitude above that of infinity.
pub proof fn lemma_nearest_bound(n: nat, d: nat)
    requires
        d > 0,
    ensures
        nearest(n, d) <= INFINITY_BITS,
        n == 0 ==> nearest(n, d) == 0,
{
    let p = binade(n, d);
    lemma_pow2_values();
    if p <= 2045 {
        let step = d * pow2(p);
        lemma_pow2_pos(p);
        assert(step > 0) by (nonlinear_arith)
            requires
                step == d * pow2(p),
                d > 0,
                pow2(p) > 0,
        ;
        lemma_binade_bracket(n, d);
        lemma_pow2_adds(p, 53);
        assert(n < step * pow2(53)) by (nonlinear_arith)
            requires
                n < d * pow2(53 + p),
                pow2(53 + p) == pow2(p) * pow2(53),
                step == d * pow2(p),
        ;
        lemma_fundamental_div_mod(n as int, step as int);
        let q = n / step;
        assert(q < pow2(53)) by (nonlinear_arith)
            requires
                n < step * pow2(53),
                n == step * q + n % step,
                n % step >= 0,
                step > 0,
        ;
        assert(p * HIDDEN_BIT <= 2045 * HIDDEN_BIT) by (nonlinear_arith)
            requires
                p <= 2045,
        ;
        if n == 0 {
            assert(p == 0) by {
                assert(d * pow2(53) > 0) by (nonlinear_arith)
                    requires
                        d > 0,
                        pow2(53) > 0,
                ;
            }
            lemma_basic_div(0, step as int);
            lemma_small_mod(0, step);
        }
    }
}

/// The binade brackets the ratio.
pub proof fn lemma_binade_bracket(n: nat, d: nat)
    requires
        d > 0,
    ensures
        n < d * pow2(53 + binade(n, d)),
        binade(n, d) > 0 ==> n >= d * pow2(52 + binade(n, d)),
    decreases n,
{
    if n < d * pow2(53) {
    } else {
        lemma_pow2_pos(53);
        assert(d * pow2(53) >= 1) by (nonlinear_arith)
            requires
                d >= 1,
                pow2(53) >= 1,
        ;
        let p = binade(n / 2, d);
        lemma_binade_bracket(n / 2, d);
        lemma_pow2_unfold(54 + p);
        assert(d * pow2(54 + p) == 2 * (d * pow2(53 + p))) by (nonlinear_arith)
            requires
                pow2(54 + p) == 2 * pow2(53 + p),
        ;
        assert(53 + (1 + p) == 54 + p);
        assert(52 + (1 + p) == 53 + p);
        if p > 0 {
            lemma_pow2_unfold(53 + p);
            assert(d * pow2(53 + p) == 2 * (d * pow2(52 + p))) by (nonlinear_arith)
                requires
                    pow2(53 + p) == 2 * pow2(52 + p),
            ;
        }
    }
}

/// Two to the power `k`.
fn pow2_u64(k: usize) -> (r: u64)
    requires
        k < 64,
    ensures
        r == pow2(k as nat),
        r >= 1,
{
    let mut r: u64 = 1;
    let mut i: usize = 0;
    proof {
        lemma_pow2_values();
    }
    while i < k
        invariant
            i <= k,
            k < 64,
            r == pow2(i as nat),
            r >= 1,
        decreases k - i,
    {
        proof {
            lemma_pow2_unfold((i + 1) as nat);
            lemma_pow2_le((i + 1) as nat, 63);
            lemma_pow2_values();
        }
        r = r * 2;
        i = i + 1;
    }
    r
}

/// Rounds the ratio `n / d` of units to the nearest double magnitude.
pub fn round_ratio(n: &BigNat, d: &BigNat) -> (mag: u64)
    requires
        n.wf(),
        d.wf(),
        d@ > 0,
    ensures
        mag == nearest(n@, d@),
        mag <= INFINITY_BITS,
{
    proof {
        lemma_nearest_bound(n@, d@);
        lemma_pow2_values();
    }
    if n.is_zero() {
        return 0;
    }
    let bn = n.bit_length();
    let bd = d.bit_length();
    if bn > bd + 2100 {
        proof {
            // n >= 2^(bn-1) >= 2^(bd+2100) > d * 2^2100 >= d * 2^(52+2046)
            lemma_pow2_le((bd + 2100) as nat, (bn - 1) as nat);
            lemma_pow2_adds(bd as nat, 2100);
            lemma_pow2_le(2098, 2100);
            assert(d@ * pow2(2098) <= pow2(bd as nat) * pow2(2100)) by (nonlinear_arith)
                requires
                    d@ < pow2(bd as nat),
                    pow2(2098) <= pow2(2100),
            ;
            lemma_binade_at_least(n@, d@, 2046);
        }
        return INFINITY_BITS;
    }
    let base: usize = if bn > bd + 53 {
        (bn - bd - 53) as usize
    } else {
        0
    };
    let bound = d.shl(53 + base);
    let below = match n.compare(&bound) {
        Order::Below => true,
        _ => false,
    };
    let p: usize = if below {
        base
    } else {
        base + 1
    };
    proof {
        let b = base as nat;
        if base > 0 {
            // d * 2^(52+base) < 2^bd * 2^(bn-bd-1) = 2^(bn-1) <= n
            lemma_pow2_adds(bd as nat, (bn - bd - 1) as nat);
            assert(52 + b == bn - bd - 1);
            assert(d@ * pow2(52 + b) <= pow2(bd as nat) * pow2((bn - bd - 1) as nat))
                by (nonlinear_arith)
                requires
                    d@ < pow2(bd as nat),
                    pow2(52 + b) == pow2((bn - bd - 1) as nat),
            ;
            // n < 2^bn = 2^(bd-1) * 2^(bn-bd+1) <= d * 2^(54+base)
            lemma_pow2_adds((bd - 1) as nat, (bn - bd + 1) as nat);
            assert(54 + b == bn - bd + 1);
            assert(pow2((bd - 1) as nat) * pow2((bn - bd + 1) as nat) <= d@ * pow2(54 + b))
                by (nonlinear_arith)
                requires
                    pow2((bd - 1) as nat) <= d@,
                    pow2(54 + b) == pow2((bn - bd + 1) as nat),
            ;
        } else {
            // n < 2^bn <= 2^(bd+53) = 2^(bd-1) * 2^54 <= d * 2^54
            lemma_pow2_le(bn as nat, (bd + 53) as nat);
            lemma_pow2_adds((bd - 1) as nat, 54);
            assert(pow2((bd - 1) as nat) * pow2(54) <= d@ * pow2(54)) by (nonlinear_arith)
                requires
                    pow2((bd - 1) as nat) <= d@,
            ;
        }
        assert(53 + (base + 1) as nat == 54 + b);
        assert(52 + (base + 1) as nat == 53 + b);
        lemma_binade_is(n@, d@, p as nat);
    }
    if p > 2045 {
        return INFINITY_BITS;
    }
    let step = d.shl(p);
    let mut q: u64 = 0;
    let mut acc = BigNat::zero();
    let mut i: usize = 53;
    proof {
        lemma_pow2_adds(p as nat, 53);
        assert(d@ * pow2(53 + p as nat) == step@ * pow2(53)) by (nonlinear_arith)
            requires
                pow2(53 + p as nat) == pow2(p as nat) * pow2(53),
                step@ == d@ * pow2(p as nat),
        ;
        assert(q * step@ == 0) by (nonlinear_arith)
            requires
                q == 0,
        ;
    }
    while i > 0
        invariant
            i <= 53,
            n.wf(),
            step.wf(),
            acc.wf(),
            acc@ == q * step@,
            acc@ <= n@,
            n@ < acc@ + step@ * pow2(i as nat),
            q + pow2(i as nat) <= pow2(53),
            pow2(53) == 0x20_0000_0000_0000,
        decreases i,
    {
        i = i - 1;
        let bit = pow2_u64(i);
        let part = step.shl(i);
        let next = acc.add(&part);
        proof {
            lemma_pow2_unfold((i + 1) as nat);
            assert(step@ * pow2((i + 1) as nat) == 2 * (step@ * pow2(i as nat)))
                by (nonlinear_arith)
                requires
                    pow2((i + 1) as nat) == 2 * pow2(i as nat),
            ;
            assert((q + bit) * step@ == q * step@ + step@ * pow2(i as nat)) by (nonlinear_arith)
                requires
                    bit == pow2(i as nat),
            ;
        }
        match next.compare(n) {
            Order::Above => {},
            _ => {
                acc = next;
                q = q + bit;
            },
        }
    }
    let rest = n.sub(&acc);
    let twice = rest.shl(1);
    proof {
        assert(step@ * pow2(0) == step@) by (nonlinear_arith)
            requires
                pow2(0) == 1,
        ;
        assert(twice@ == 2 * rest@) by (nonlinear_arith)
            requires
                twice@ == rest@ * pow2(1),
                pow2(1) == 2,
        ;
        assert(n@ == q * step@ + rest@);
        lemma_fundamental_div_mod_converse(n@ as int, step@ as int, q as int, rest@ as int);
        assert(p * HIDDEN_BIT <= 2045 * HIDDEN_BIT) by (nonlinear_arith)
            requires
                p <= 2045,
        ;
    }
    let up: u64 = match twice.compare(&step) {
        Order::Above => 1,
        Order::Same => q % 2,
        Order::Below => 0,
    };
    (p as u64) * HIDDEN_BIT + q + up
}

/// Splits a magnitude into mantissa and scale.
fn decode(mag: u64) -> (r: (u64, usize))
    requires
        mag <= INFINITY_BITS,
    ensures
        r.0 == mantissa(mag),
        r.1 == scale(mag),
        r.0 < 0x20_0000_0000_0000,
        r.1 <= 2046,
        mag >= HIDDEN_BIT ==> r.0 >= HIDDEN_BIT,
{
    if mag < HIDDEN_BIT {
        (mag, 0)
    } else {
        (HIDDEN_BIT + mag % HIDDEN_BIT, (mag / HIDDEN_BIT - 1) as usize)
    }
}

/// The units of a magnitude, as an unbounded integer.
pub fn units_of(mag: u64) -> (r: BigNat)
    requires
        mag <= INFINITY_BITS,
    ensures
        r.wf(),
        r@ == units(mag),
{
    let (m, p) = decode(mag);
    BigNat::from_u64(m).shl(p)
}

/// The whole part of a magnitude, or 2^63 where it is that large or more.
fn whole_part(mag: u64) -> (r: u64)
    requires
        mag <= INFINITY_BITS,
    ensures
        r <= 0x8000_0000_0000_0000,
        units(mag) / pow2(1074) >= 0x8000_0000_0000_0000 ==> r == 0x8000_0000_0000_0000,
        units(mag) / pow2(1074) < 0x8000_0000_0000_0000 ==> r == units(mag) / pow2(1074),
{
    let (m, p) = decode(mag);
    proof {
        lemma_pow2_values();
        lemma_pow2_pos(1074);
        lemma_pow2_pos(p as nat);
    }
    if p < 1022 {
        proof {
            // m * 2^p < 2^53 * 2^1021 = 2^1074
            lemma_pow2_adds(53, 1021);
            lemma_pow2_le(p as nat, 1021);
            assert(m * pow2(p as nat) < pow2(53) * pow2(1021)) by (nonlinear_arith)
                requires
                    m < pow2(53),
                    pow2(p as nat) <= pow2(1021),
                    pow2(p as nat) > 0,
            ;
            lemma_basic_div(units(mag) as int, pow2(1074) as int);
        }
        return 0;
    }
    if p >= 1085 {
        proof {
            // m * 2^p >= 2^52 * 2^1085 = 2^63 * 2^1074
            lemma_pow2_adds(52, 1085);
            lemma_pow2_adds(63, 1074);
            lemma_pow2_le(1085, p as nat);
            assert(m * pow2(p as nat) >= pow2(52) * pow2(1085)) by (nonlinear_arith)
                requires
                    m >= pow2(52),
                    pow2(p as nat) >= pow2(1085),
            ;
            let u = units(mag);
            let w = pow2(1074);
            lemma_fundamental_div_mod(u as int, w as int);
            assert(u / w >= pow2(63)) by (nonlinear_arith)
                requires
                    u >= pow2(63) * w,
                    u == w * (u / w) + u % w,
                    u % w < w,
                    w > 0,
            ;
        }
        return 0x8000_0000_0000_0000;
    }
    if p >= 1074 {
        let k = p - 1074;
        let f = pow2_u64(k);
        proof {
            lemma_pow2_adds(k as nat, 1074);
            lemma_pow2_le(k as nat, 10);
            assert(m * f < pow2(53) * pow2(10)) by (nonlinear_arith)
                requires
                    m < pow2(53),
                    f <= pow2(10),
                    f > 0,
            ;
            lemma_pow2_adds(53, 10);
            assert(m * pow2(p as nat) == pow2(1074) * (m * f)) by (nonlinear_arith)
                requires
                    pow2(p as nat) == f * pow2(1074),
            ;
            lemma_div_multiples_vanish((m * f) as int, pow2(1074) as int);
        }
        m * f
    } else {
        let k = 1074 - p;
        let f = pow2_u64(k);
        proof {
            lemma_pow2_adds(p as nat, k as nat);
            lemma_div_multiples_vanish_quotient(pow2(p as nat) as int, m as int, f as int);
            assert(pow2(p as nat) * m == m * pow2(p as nat)) by (nonlinear_arith);
        }
        m / f
    }
}

/// A binary64 number, held as its bit pattern.
#[derive(Clone, Copy, Debug, PartialEq, Eq, Structural)]
pub struct Double {
    pub bits: u64,
}

impl View for Double {
    type V = u64;

    open spec fn view(&self) -> u64 {
        self.bits
    }
}

impl Double {
    /// The double with the given pattern; a NaN becomes `NAN_BITS`.
    pub fn from_bits(bits: u64) -> (r: Double)
        ensures
            r@ == canonical(bits),
    {
        if bits % SIGN_BIT > INFINITY_BITS {
            Double { bits: NAN_BITS }
        } else {
            Double { bits }
        }
    }

    /// The pattern of the double.
    pub fn to_bits(&self) -> (r: u64)
        ensures
            r == self@,
    {
        self.bits
    }

    /// The NaN.
    pub fn nan() -> (r: Double)
        ensures
            r@ == NAN_BITS,
    {
        Double { bits: NAN_BITS }
    }

    /// Infinity with the given sign.
    pub fn infinity(negative: bool) -> (r: Double)
        ensures
            r@ == with_sign(negative, INFINITY_BITS),
    {
        Double::signed(negative, INFINITY_BITS)
    }

    /// Puts a sign on a magnitude.
    pub fn signed(negative: bool, mag: u64) -> (r: Double)
        requires
            mag < SIGN_BIT,
        ensures
            r@ == with_sign(negative, mag),
    {
        if negative {
            Double { bits: mag + SIGN_BIT }
        } else {
            Double { bits: mag }
        }
    }

    /// Whether the double is a NaN.
    pub fn is_nan(&self) -> (r: bool)
        ensures
            r == is_nan(self@),
    {
        self.bits % SIGN_BIT > INFINITY_BITS
    }

    /// Whether the sign bit is set.
    pub fn is_negative(&self) -> (r: bool)
        ensures
            r == is_negative(self@),
    {
        self.bits >= SIGN_BIT
    }

    /// The pattern without its sign bit.
    pub fn magnitude(&self) -> (r: u64)
        ensures
            r == magnitude(self@),
    {
        self.bits % SIGN_BIT
    }

    /// The double nearest to `n / d` units of 2^-1074, with the given sign.
    pub fn nearest_ratio(negative: bool, n: &BigNat, d: &BigNat) -> (r: Double)
        requires
            n.wf(),
            d.wf(),
            d@ > 0,
        ensures
            r@ == with_sign(negative, nearest(n@, d@)),
    {
        Double::signed(negative, round_ratio(n, d))
    }

    /// Conversion from a 64-bit integer, rounded to nearest.
    pub fn from_i64(v: i64) -> (r: Double)
        ensures
            r@ == integer_bits(v as int),
    {
        let negative = v < 0;
        let size: u64 = if negative {
            (-(v as i128)) as u64
        } else {
            v as u64
        };
        let one = BigNat::from_u64(1);
        let n = BigNat::from_u64(size).shl(1074);
        Double::nearest_ratio(negative, &n, &one)
    }

    /// Conversion from a 32-bit integer, which is exact.
    pub fn from_i32(v: i32) -> (r: Double)
        ensures
            r@ == integer_bits(v as int),
    {
        Double::from_i64(v as i64)
    }

    /// Conversion to a 64-bit integer: toward zero, saturating, zero for NaN.
    pub fn to_i64(&self) -> (r: i64)
        ensures
            r == clamped(truncated(self@), i64::MIN as int, i64::MAX as int),
    {
        let mag = self.bits % SIGN_BIT;
        if mag > INFINITY_BITS {
            return 0;
        }
        let whole = whole_part(mag);
        if self.bits >= SIGN_BIT {
            if whole >= 0x8000_0000_0000_0000 {
                i64::MIN
            } else {
                -(whole as i64)
            }
        } else {
            if whole >= 0x8000_0000_0000_0000 {
                i64::MAX
            } else {
                whole as i64
            }
        }
    }

    /// Conversion to a 32-bit integer: toward zero, saturating, zero for NaN.
    pub fn to_i32(&self) -> (r: i32)
        ensures
            r == clamped(truncated(self@), i32::MIN as int, i32::MAX as int),
    {
        let wide = self.to_i64();
        if wide < i32::MIN as i64 {
            i32::MIN
        } else if wide > i32::MAX as i64 {
            i32::MAX
        } else {
            wide as i32
        }
    }

    /// The sum, rounded to nearest.
    pub fn add(&self, other: &Double) -> (r: Double)
        ensures
            r@ == sum_bits(self@, other@),
    {
        let ma = self.bits % SIGN_BIT;
        let mb = other.bits % SIGN_BIT;
        let na = self.bits >= SIGN_BIT;
        let nb = other.bits >= SIGN_BIT;
        if ma > INFINITY_BITS || mb > INFINITY_BITS {
            return Double::nan();
        }
        if ma == INFINITY_BITS {
            if mb == INFINITY_BITS && na != nb {
                return Double::nan();
            }
            return *self;
        }
        if mb == INFINITY_BITS {
            return *other;
        }
        let ua = units_of(ma);
        let ub = units_of(mb);
        let one = BigNat::from_u64(1);
        if na == nb {
            let n = ua.add(&ub);
            if n.is_zero() {
                return Double::signed(na && nb, 0);
            }
            Double::nearest_ratio(na, &n, &one)
        } else {
            match ua.compare(&ub) {
                Order::Same => Double::signed(false, 0),
                Order::Above => {
                    let n = ua.sub(&ub);
                    Double::nearest_ratio(na, &n, &one)
                },
                Order::Below => {
                    let n = ub.sub(&ua);
                    Double::nearest_ratio(nb, &n, &one)
                },
            }
        }
    }

    /// The double with the other sign.
    pub fn negate(&self) -> (r: Double)
        ensures
            r@ == negated(self@),
    {
        if self.bits >= SIGN_BIT {
            Double { bits: self.bits - SIGN_BIT }
        } else {
            Double { bits: self.bits + SIGN_BIT }
        }
    }

    /// The difference, rounded to nearest.
    pub fn sub(&self, other: &Double) -> (r: Double)
        ensures
            r@ == difference_bits(self@, other@),
    {
        let flipped = other.negate();
        self.add(&flipped)
    }

    /// The product, rounded to nearest.
    pub fn mul(&self, other: &Double) -> (r: Double)
        ensures
            r@ == product_bits(self@, other@),
    {
        let ma = self.bits % SIGN_BIT;
        let mb = other.bits % SIGN_BIT;
        let negative = (self.bits >= SIGN_BIT) != (other.bits >= SIGN_BIT);
        if ma > INFINITY_BITS || mb > INFINITY_BITS {
            return Double::nan();
        }
        if ma == INFINITY_BITS || mb == INFINITY_BITS {
            if ma == 0 || mb == 0 {
                return Double::nan();
            }
            return Double::infinity(negative);
        }
        let (xa, pa) = decode(ma);
        let (xb, pb) = decode(mb);
        proof {
            assert(xa * xb < 0x20_0000_0000_0000 * 0x20_0000_0000_0000) by (nonlinear_arith)
                requires
                    xa < 0x20_0000_0000_0000,
                    xb < 0x20_0000_0000_0000,
            ;
            lemma_pow2_adds(pa as nat, pb as nat);
            assert((xa * pow2(pa as nat)) * (xb * pow2(pb as nat)) == (xa * xb) * (pow2(pa as nat)
                * pow2(pb as nat))) by (nonlinear_arith);
            lemma_pow2_pos(1074);
            assert(1 * pow2(1074) == pow2(1074));
        }
        let n = BigNat::from_u128((xa as u128) * (xb as u128)).shl(pa + pb);
        let d = BigNat::from_u64(1).shl(1074);
        Double::nearest_ratio(negative, &n, &d)
    }

    /// The quotient, rounded to nearest.
    pub fn div(&self, other: &Double) -> (r: Double)
        ensures
            r@ == quotient_bits(self@, other@),
    {
        let ma = self.bits % SIGN_BIT;
        let mb = other.bits % SIGN_BIT;
        let negative = (self.bits >= SIGN_BIT) != (other.bits >= SIGN_BIT);
        if ma > INFINITY_BITS || mb > INFINITY_BITS {
            return Double::nan();
        }
        if ma == INFINITY_BITS {
            if mb == INFINITY_BITS {
                return Double::nan();
            }
            return Double::infinity(negative);
        }
        if mb == INFINITY_BITS {
            return Double::signed(negative, 0);
        }
        if mb == 0 {
            if ma == 0 {
                return Double::nan();
            }
            return Double::infinity(negative);
        }
        let n = units_of(ma).shl(1074);
        let d = units_of(mb);
        proof {
            lemma_units_positive(mb);
        }
        Double::nearest_ratio(negative, &n, &d)
    }

    /// Comparison by value; `None` where either number is NaN.
    pub fn compare(&self, other: &Double) -> (r: Option<Order>)
        ensures
            r == comparison(self@, other@),
    {
        let ma = self.bits % SIGN_BIT;
        let mb = other.bits % SIGN_BIT;
        let na = self.bits >= SIGN_BIT;
        let nb = other.bits >= SIGN_BIT;
        if ma > INFINITY_BITS || mb > INFINITY_BITS {
            return None;
        }
        let ua = units_of(ma);
        let ub = units_of(mb);
        let sizes = ua.compare(&ub);
        if na && nb {
            Some(
                match sizes {
                    Order::Below => Order::Above,
                    Order::Same => Order::Same,
                    Order::Above => Order::Below,
                },
            )
        } else if !na && !nb {
            Some(sizes)
        } else if ua.is_zero() && ub.is_zero() {
            Some(Order::Same)
        } else if na {
            Some(Order::Below)
        } else {
            Some(Order::Above)
        }
    }
}

/// Only the magnitude zero has no units.
pub proof fn lemma_units_positive(mag: u64)
    requires
        mag > 0,
    ensures
        units(mag) > 0,
{
    lemma_pow2_pos(scale(mag));
    assert(mantissa(mag) * pow2(scale(mag)) > 0) by (nonlinear_arith)
        requires
            mantissa(mag) > 0,
            pow2(scale(mag)) > 0,
    ;
}

/// The units of the magnitude with mantissa `q` in binade `p`.
pub proof fn lemma_units_of_parts(p: nat, q: nat)
    requires
        p <= 2045,
        q <= 0x20_0000_0000_0000,
        p > 0 ==> q >= 0x10_0000_0000_0000,
    ensures
        p * HIDDEN_BIT + q <= INFINITY_BITS,
        units((p * HIDDEN_BIT + q) as u64) == q * pow2(p),
{
    lemma_pow2_values();
    assert(p * HIDDEN_BIT <= 2045 * HIDDEN_BIT) by (nonlinear_arith)
        requires
            p <= 2045,
    ;
    let mag = (p * HIDDEN_BIT + q) as u64;
    if q < 0x10_0000_0000_0000 {
        assert(p == 0);
        assert(mag == q);
        assert(q * pow2(0) == q) by (nonlinear_arith)
            requires
                pow2(0) == 1,
        ;
    } else if q < 0x20_0000_0000_0000 {
        let f = (q - 0x10_0000_0000_0000) as nat;
        assert(mag == (p + 1) * HIDDEN_BIT + f) by (nonlinear_arith)
            requires
                mag == p * HIDDEN_BIT + q,
                q == f + HIDDEN_BIT,
        ;
        lemma_fundamental_div_mod_converse(
            mag as int,
            HIDDEN_BIT as int,
            (p + 1) as int,
            f as int,
        );
    } else {
        assert(mag == (p + 2) * HIDDEN_BIT) by (nonlinear_arith)
            requires
                mag == p * HIDDEN_BIT + q,
                q == 2 * HIDDEN_BIT,
        ;
        lemma_fundamental_div_mod_converse(mag as int, HIDDEN_BIT as int, (p + 2) as int, 0);
        lemma_pow2_unfold(p + 1);
        assert(0x10_0000_0000_0000 * pow2(p + 1) == q * pow2(p)) by (nonlinear_arith)
            requires
                pow2(p + 1) == 2 * pow2(p),
                q == 0x20_0000_0000_0000,
        ;
    }
}

/// A greater magnitude has more units.
pub proof fn lemma_units_increase(a: u64, b: u64)
    requires
        a < b <= INFINITY_BITS,
    ensures
        units(a) < units(b),
{
    lemma_pow2_values();
    let pa = scale(a);
    let pb = scale(b);
    lemma_pow2_pos(pa);
    lemma_pow2_pos(pb);
    if b < HIDDEN_BIT {
        assert(mantissa(a) * pow2(0) < mantissa(b) * pow2(0)) by (nonlinear_arith)
            requires
                mantissa(a) < mantissa(b),
                pow2(0) == 1,
        ;
    } else if a < HIDDEN_BIT {
        // a is subnormal, b is normal
        lemma_pow2_le(0, pb);
        assert(mantissa(a) * pow2(0) < mantissa(b) * pow2(pb)) by (nonlinear_arith)
            requires
                mantissa(a) < 0x10_0000_0000_0000,
                mantissa(b) >= 0x10_0000_0000_0000,
                pow2(0) == 1,
                pow2(pb) >= 1,
        ;
    } else {
        let ea = a / HIDDEN_BIT;
        let eb = b / HIDDEN_BIT;
        lemma_fundamental_div_mod(a as int, HIDDEN_BIT as int);
        lemma_fundamental_div_mod(b as int, HIDDEN_BIT as int);
        if ea == eb {
            assert(mantissa(a) * pow2(pa) < mantissa(b) * pow2(pa)) by (nonlinear_arith)
                requires
                    mantissa(a) < mantissa(b),
                    pow2(pa) > 0,
            ;
        } else {
            assert(ea < eb) by (nonlinear_arith)
                requires
                    a < b,
                    a == HIDDEN_BIT * ea + a % HIDDEN_BIT,
                    b == HIDDEN_BIT * eb + b % HIDDEN_BIT,
                    0 <= a % HIDDEN_BIT < HIDDEN_BIT,
                    0 <= b % HIDDEN_BIT < HIDDEN_BIT,
                    ea != eb,
            ;
            lemma_pow2_le(pa + 1, pb);
            lemma_pow2_unfold(pa + 1);
            assert(mantissa(a) * pow2(pa) < mantissa(b) * pow2(pb)) by (nonlinear_arith)
                requires
                    mantissa(a) < 0x20_0000_0000_0000,
                    mantissa(b) >= 0x10_0000_0000_0000,
                    pow2(pb) >= 2 * pow2(pa),
                    pow2(pa) > 0,
            ;
        }
    }
}

/// How far apart two integers are.
pub open spec fn distance(a: nat, b: nat) -> nat {
    if a < b {
        (b - a) as nat
    } else {
        (a - b) as nat
    }
}

/// A double rounds to itself.
pub proof fn law_nearest_exact(mag: u64)
    requires
        mag <= INFINITY_BITS,
    ensures
        nearest(units(mag), 1) == mag,
{
    lemma_pow2_values();
    let m = mantissa(mag);
    let p = scale(mag);
    let n = units(mag);
    lemma_pow2_pos(p);
    lemma_pow2_adds(53, p);
    lemma_pow2_adds(52, p);
    lemma_fundamental_div_mod(mag as int, HIDDEN_BIT as int);
    assert(n < 1 * pow2(53 + p)) by (nonlinear_arith)
        requires
            n == m * pow2(p),
            m < pow2(53),
            pow2(53 + p) == pow2(53) * pow2(p),
            pow2(p) > 0,
    ;
    if p > 0 {
        assert(n >= 1 * pow2(52 + p)) by (nonlinear_arith)
            requires
                n == m * pow2(p),
                m >= pow2(52),
                pow2(52 + p) == pow2(52) * pow2(p),
                pow2(p) > 0,
        ;
    }
    lemma_binade_is(n, 1, p);
    if p <= 2045 {
        let step = 1 * pow2(p);
        assert(step == pow2(p));
        assert(n == m * step + 0) by (nonlinear_arith)
            requires
                n == m * pow2(p),
                step == pow2(p),
        ;
        lemma_fundamental_div_mod_converse(n as int, step as int, m as int, 0);
        if mag >= HIDDEN_BIT {
            assert(p * HIDDEN_BIT + m == mag) by (nonlinear_arith)
                requires
                    mag == HIDDEN_BIT * (mag / HIDDEN_BIT) + mag % HIDDEN_BIT,
                    p == mag / HIDDEN_BIT - 1,
                    m == HIDDEN_BIT + mag % HIDDEN_BIT,
            ;
        }
    } else {
        assert(mag / HIDDEN_BIT <= 2047) by (nonlinear_arith)
            requires
                mag <= 0x7FF0_0000_0000_0000,
                mag == HIDDEN_BIT * (mag / HIDDEN_BIT) + mag % HIDDEN_BIT,
                mag % HIDDEN_BIT >= 0,
                HIDDEN_BIT == 0x10_0000_0000_0000,
        ;
        assert(mag == INFINITY_BITS) by (nonlinear_arith)
            requires
                mag <= 0x7FF0_0000_0000_0000,
                mag == HIDDEN_BIT * (mag / HIDDEN_BIT) + mag % HIDDEN_BIT,
                mag % HIDDEN_BIT >= 0,
                mag / HIDDEN_BIT == 2047,
                HIDDEN_BIT == 0x10_0000_0000_0000,
        ;
    }
}

/// Rounding looks at the ratio alone: a common factor changes nothing.
pub proof fn law_nearest_scaling(n: nat, d: nat, c: nat)
    requires
        d > 0,
        c > 0,
    ensures
        nearest(n * c, d * c) == nearest(n, d),
{
    let p = binade(n, d);
    lemma_binade_bracket(n, d);
    assert(d * c > 0) by (nonlinear_arith)
        requires
            d > 0,
            c > 0,
    ;
    assert(n * c < (d * c) * pow2(53 + p)) by (nonlinear_arith)
        requires
            n < d * pow2(53 + p),
            c > 0,
    ;
    if p > 0 {
        assert(n * c >= (d * c) * pow2(52 + p)) by (nonlinear_arith)
            requires
                n >= d * pow2(52 + p),
                c > 0,
        ;
    }
    lemma_binade_is(n * c, d * c, p);
    if p <= 2045 {
        let step = d * pow2(p);
        lemma_pow2_pos(p);
        assert(step > 0) by (nonlinear_arith)
            requires
                step == d * pow2(p),
                d > 0,
                pow2(p) > 0,
        ;
        let big = (d * c) * pow2(p);
        assert(big == c * step) by (nonlinear_arith)
            requires
                big == (d * c) * pow2(p),
                step == d * pow2(p),
        ;
        let q = n / step;
        let r = n % step;
        lemma_fundamental_div_mod(n as int, step as int);
        assert(c * r < big) by (nonlinear_arith)
            requires
                r < step,
                big == c * step,
                c > 0,
        ;
        assert(n * c == q * big + c * r) by (nonlinear_arith)
            requires
                n == step * q + r,
                big == c * step,
        ;
        lemma_fundamental_div_mod_converse((n * c) as int, big as int, q as int, (c * r) as int);
        assert((2 * (c * r) > big) == (2 * r > step)) by (nonlinear_arith)
            requires
                big == c * step,
                c > 0,
        ;
        assert((2 * (c * r) == big) == (2 * r == step)) by (nonlinear_arith)
            requires
                big == c * step,
                c > 0,
        ;
    }
}

/// Rounding gives the nearest double: no double, and not the power of two
/// that stands in for infinity, is nearer to the ratio `n / d` than the
/// result is; and where another is as near, the result is the even one.
pub proof fn law_nearest_is_nearest(n: nat, d: nat, other: u64)
    requires
        d > 0,
        other <= INFINITY_BITS,
    ensures
        nearest(n, d) <= INFINITY_BITS,
        distance(n, units(nearest(n, d)) * d) <= distance(n, units(other) * d),
        other != nearest(n, d) && distance(n, units(nearest(n, d)) * d) == distance(
            n,
            units(other) * d,
        ) ==> nearest(n, d) % 2 == 0,
{
    lemma_pow2_values();
    lemma_nearest_bound(n, d);
    let p = binade(n, d);
    let r = nearest(n, d);
    lemma_binade_bracket(n, d);
    if p > 2045 {
        law_nearest_exact(INFINITY_BITS);
        lemma_units_of_infinity();
        lemma_pow2_le(2098, 52 + p);
        assert(n >= pow2(2098) * d) by (nonlinear_arith)
            requires
                n >= d * pow2(52 + p),
                pow2(2098) <= pow2(52 + p),
        ;
        if other < INFINITY_BITS {
            lemma_units_increase(other, INFINITY_BITS);
            assert(units(other) * d < units(INFINITY_BITS) * d) by (nonlinear_arith)
                requires
                    units(other) < units(INFINITY_BITS),
                    d > 0,
            ;
        }
    } else {
        let step = d * pow2(p);
        lemma_pow2_pos(p);
        assert(step > 0) by (nonlinear_arith)
            requires
                step == d * pow2(p),
                d > 0,
                pow2(p) > 0,
        ;
        let q = n / step;
        let rem = n % step;
        lemma_fundamental_div_mod(n as int, step as int);
        lemma_pow2_adds(p, 53);
        lemma_pow2_adds(p, 52);
        assert(q < pow2(53)) by (nonlinear_arith)
            requires
                n < d * pow2(53 + p),
                pow2(53 + p) == pow2(p) * pow2(53),
                step == d * pow2(p),
                n == step * q + rem,
                rem >= 0,
                step > 0,
        ;
        if p > 0 {
            assert(q >= pow2(52)) by (nonlinear_arith)
                requires
                    n >= d * pow2(52 + p),
                    pow2(52 + p) == pow2(p) * pow2(52),
                    step == d * pow2(p),
                    n == step * q + rem,
                    rem < step,
                    step > 0,
            ;
        }
        lemma_units_of_parts(p, q);
        lemma_units_of_parts(p, q + 1);
        let low = (p * HIDDEN_BIT + q) as u64;
        let high = (p * HIDDEN_BIT + q + 1) as u64;
        assert(units(low) * d == q * step) by (nonlinear_arith)
            requires
                units(low) == q * pow2(p),
                step == d * pow2(p),
        ;
        assert(units(high) * d == q * step + step) by (nonlinear_arith)
            requires
                units(high) == (q + 1) * pow2(p),
                step == d * pow2(p),
        ;
        assert(n == q * step + rem) by (nonlinear_arith)
            requires
                n == step * q + rem,
        ;
        assert(HIDDEN_BIT % 2 == 0);
        assert((p * HIDDEN_BIT) % 2 == 0) by (nonlinear_arith)
            requires
                HIDDEN_BIT == 0x10_0000_0000_0000,
        ;
        if other <= low {
            if other < low {
                lemma_units_increase(other, low);
                assert(units(other) * d + d <= units(low) * d) by (nonlinear_arith)
                    requires
                        units(other) < units(low),
                        d > 0,
                ;
            }
        } else {
            if other > high {
                lemma_units_increase(high, other);
                assert(units(high) * d + d <= units(other) * d) by (nonlinear_arith)
                    requires
                        units(high) < units(other),
                        d > 0,
                ;
            }
        }
    }
}

/// Rounding keeps order: of two ratios, the greater does not round to
/// the lesser double.
pub proof fn law_nearest_monotone(n1: nat, d1: nat, n2: nat, d2: nat)
    requires
        d1 > 0,
        d2 > 0,
        n1 * d2 <= n2 * d1,
    ensures
        nearest(n1, d1) <= nearest(n2, d2),
{
    let r1 = nearest(n1, d1);
    let r2 = nearest(n2, d2);
    if r1 > r2 {
        lemma_nearest_bound(n1, d1);
        lemma_nearest_bound(n2, d2);
        law_nearest_is_nearest(n1, d1, r2);
        law_nearest_is_nearest(n2, d2, r1);
        lemma_units_increase(r2, r1);
        let u1 = units(r1);
        let u2 = units(r2);
        let a1 = u1 * d1;
        let a2 = u2 * d1;
        let b1 = u1 * d2;
        let b2 = u2 * d2;
        assert(a2 < a1) by (nonlinear_arith)
            requires
                u2 < u1,
                d1 > 0,
                a1 == u1 * d1,
                a2 == u2 * d1,
        ;
        assert(b2 < b1) by (nonlinear_arith)
            requires
                u2 < u1,
                d2 > 0,
                b1 == u1 * d2,
                b2 == u2 * d2,
        ;
        assert(2 * n1 >= a1 + a2);
        assert(2 * n2 <= b1 + b2);
        let s = (u1 + u2) * d1 * d2;
        assert(2 * (n1 * d2) >= s) by (nonlinear_arith)
            requires
                2 * n1 >= a1 + a2,
                a1 == u1 * d1,
                a2 == u2 * d1,
                s == (u1 + u2) * d1 * d2,
                d2 > 0,
        ;
        assert(2 * (n2 * d1) <= s) by (nonlinear_arith)
            requires
                2 * n2 <= b1 + b2,
                b1 == u1 * d2,
                b2 == u2 * d2,
                s == (u1 + u2) * d1 * d2,
                d1 > 0,
        ;
        assert(n1 * d2 == n2 * d1);
        law_nearest_scaling(n1, d1, d2);
        law_nearest_scaling(n2, d2, d1);
        assert(d1 * d2 == d2 * d1) by (nonlinear_arith);
    }
}

/// The units that stand in for infinity: 2^2098.
pub proof fn lemma_units_of_infinity()
    ensures
        units(INFINITY_BITS) == pow2(2098),
{
    lemma_pow2_values();
    lemma_pow2_adds(52, 2046);
    assert(INFINITY_BITS / HIDDEN_BIT == 2047);
    assert(INFINITY_BITS % HIDDEN_BIT == 0);
}

/// The units of the double that a ratio rounds to, below infinity: the
/// quotient by the step of the binade, raised by one or not, times the step.
pub proof fn lemma_nearest_units(n: nat, d: nat)
    requires
        d > 0,
        binade(n, d) <= 2045,
    ensures
        ({
            let p = binade(n, d);
            let step = d * pow2(p);
            let q = n / step;
            &&& step > 0
            &&& q < 0x20_0000_0000_0000
            &&& (units(nearest(n, d)) == q * pow2(p) || units(nearest(n, d)) == (q + 1) * pow2(p))
            &&& n % step == 0 ==> units(nearest(n, d)) == q * pow2(p)
        }),
{
    lemma_pow2_values();
    let p = binade(n, d);
    lemma_binade_bracket(n, d);
    let step = d * pow2(p);
    lemma_pow2_pos(p);
    assert(step > 0) by (nonlinear_arith)
        requires
            step == d * pow2(p),
            d > 0,
            pow2(p) > 0,
    ;
    let q = n / step;
    let rem = n % step;
    lemma_fundamental_div_mod(n as int, step as int);
    lemma_pow2_adds(p, 53);
    lemma_pow2_adds(p, 52);
    assert(q < pow2(53)) by (nonlinear_arith)
        requires
            n < d * pow2(53 + p),
            pow2(53 + p) == pow2(p) * pow2(53),
            step == d * pow2(p),
            n == step * q + rem,
            rem >= 0,
            step > 0,
    ;
    if p > 0 {
        assert(q >= pow2(52)) by (nonlinear_arith)
            requires
                n >= d * pow2(52 + p),
                pow2(52 + p) == pow2(p) * pow2(52),
                step == d * pow2(p),
                n == step * q + rem,
                rem < step,
                step > 0,
        ;
    }
    lemma_units_of_parts(p, q);
    lemma_units_of_parts(p, q + 1);
}

/// A whole number rounds to a double that is a whole number: its units
/// are a multiple of 2^1074.
pub proof fn law_whole_rounds_to_whole(whole: nat)
    ensures
        units(nearest(whole * pow2(1074), 1)) % pow2(1074) == 0,
{
    let w = pow2(1074);
    lemma_pow2_pos(1074);
    let n = whole * w;
    let p = binade(n, 1);
    if p > 2045 {
        lemma_units_of_infinity();
        lemma_pow2_adds(1024, 1074);
        lemma_mod_multiples_basic(pow2(1024) as int, w as int);
    } else {
        lemma_nearest_units(n, 1);
        let step = 1 * pow2(p);
        assert(step == pow2(p));
        let q = n / step;
        if p >= 1074 {
            lemma_pow2_adds((p - 1074) as nat, 1074);
            let up = pow2((p - 1074) as nat);
            assert(q * pow2(p) == (q * up) * w) by (nonlinear_arith)
                requires
                    pow2(p) == up * w,
            ;
            assert((q + 1) * pow2(p) == ((q + 1) * up) * w) by (nonlinear_arith)
                requires
                    pow2(p) == up * w,
            ;
            lemma_mod_multiples_basic((q * up) as int, w as int);
            lemma_mod_multiples_basic(((q + 1) * up) as int, w as int);
        } else {
            lemma_pow2_adds((1074 - p) as nat, p);
            let down = pow2((1074 - p) as nat);
            assert(n == (whole * down) * step + 0) by (nonlinear_arith)
                requires
                    n == whole * w,
                    w == down * step,
            ;
            lemma_fundamental_div_mod_converse(n as int, step as int, (whole * down) as int, 0);
            assert(q * pow2(p) == n);
            lemma_mod_multiples_basic(whole as int, w as int);
        }
    }
}

} // verus!
