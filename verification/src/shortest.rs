//! The text of a double is the shortest decimal number that reads back as
//! that double, and the nearest to it among the shortest: the proof.

use crate::decimal::{
    all_digits, decimal_digits, decimal_nearest, digits_value, expansion, is_digit,
    lemma_decimal_digits, lemma_decimal_zero, lemma_pow10_increases, lemma_pow10_positive, pow10,
    pow5, shortest,
};
use crate::double::{distance, law_nearest_monotone, lemma_units_positive, units, INFINITY_BITS};
use crate::reading::{
    lemma_all_digits_concat, lemma_decimal_shift, lemma_digits_concat, lemma_expansion_fits,
    lemma_pow10_adds,
};
use vstd::arithmetic::power2::{lemma_pow2_pos, pow2};
use vstd::prelude::*;

verus! {

/// The whole number `c * 10^(e - m)`: the decimal number `c * 10^e` counted
/// in units of `10^m`, where `m` is at most `e`.
pub open spec fn scaled(c: nat, e: int, m: int) -> nat {
    c * pow10((e - m) as nat)
}

/// Reading keeps order: of two decimal numbers, the greater does not read
/// as the lesser double.
pub proof fn law_decimal_monotone(c1: nat, e1: int, c2: nat, e2: int, m: int)
    requires
        m <= e1,
        m <= e2,
        scaled(c1, e1, m) <= scaled(c2, e2, m),
    ensures
        decimal_nearest(c1, e1) <= decimal_nearest(c2, e2),
{
    let a = scaled(c1, e1, m);
    let b = scaled(c2, e2, m);
    lemma_decimal_shift(c1, (e1 - m) as nat, m);
    lemma_decimal_shift(c2, (e2 - m) as nat, m);
    assert(m + (e1 - m) as nat == e1);
    assert(m + (e2 - m) as nat == e2);
    let w = pow2(1074);
    lemma_pow2_pos(1074);
    if m >= 0 {
        let p = pow10(m as nat);
        lemma_pow10_positive(m as nat);
        assert((a * p * w) * 1 <= (b * p * w) * 1) by (nonlinear_arith)
            requires
                a <= b,
                p > 0,
                w > 0,
        ;
        law_nearest_monotone(a * p * w, 1, b * p * w, 1);
    } else {
        let q = pow10((-m) as nat);
        lemma_pow10_positive((-m) as nat);
        assert((a * w) * q <= (b * w) * q) by (nonlinear_arith)
            requires
                a <= b,
                q > 0,
                w > 0,
        ;
        law_nearest_monotone(a * w, q, b * w, q);
    }
}

/// Digits stand for a number below ten to their count.
pub proof fn lemma_digits_bound(s: Seq<u8>)
    requires
        all_digits(s),
    ensures
        digits_value(s) < pow10(s.len()),
    decreases s.len(),
{
    if s.len() > 0 {
        let shorter = s.drop_last();
        assert forall|i: int| 0 <= i < shorter.len() implies is_digit(#[trigger] shorter[i]) by {
            assert(shorter[i] == s[i]);
        }
        lemma_digits_bound(shorter);
        assert(is_digit(s[s.len() - 1]));
    }
}

/// The digits of a number above zero do not start with a zero.
pub proof fn lemma_leading_digit(n: nat)
    requires
        n > 0,
    ensures
        decimal_digits(n)[0] > 48,
        decimal_digits(n)[0] <= 57,
    decreases n,
{
    if n >= 10 {
        lemma_leading_digit(n / 10);
        lemma_decimal_digits(n / 10);
    }
}

/// The first `n` digits of a number and the digits after them.
///
/// With `low` for the number of the first `n` digits and `rest` for that
/// of the others, of which there are `more`: the number is
/// `low * 10^more + rest`, `rest` is below `10^more`, and `low` has `n`
/// digits exactly.
pub proof fn lemma_bracket(whole: nat, n: nat)
    requires
        whole > 0,
        1 <= n <= decimal_digits(whole).len(),
    ensures
        ({
            let all = decimal_digits(whole);
            let low = digits_value(all.take(n as int));
            let rest = digits_value(all.skip(n as int));
            let more = (all.len() - n) as nat;
            &&& whole == low * pow10(more) + rest
            &&& rest < pow10(more)
            &&& pow10((n - 1) as nat) <= low < pow10(n)
        }),
{
    let all = decimal_digits(whole);
    lemma_decimal_digits(whole);
    lemma_leading_digit(whole);
    let head = all.take(n as int);
    let tail = all.skip(n as int);
    assert(head + tail =~= all);
    lemma_all_digits_concat(head, tail);
    lemma_digits_concat(head, tail);
    lemma_digits_bound(head);
    lemma_digits_bound(tail);
    let first = head.take(1);
    let others = head.skip(1);
    assert(first + others =~= head);
    lemma_all_digits_concat(first, others);
    lemma_digits_concat(first, others);
    assert(first.drop_last() =~= Seq::<u8>::empty());
    assert(digits_value(first.drop_last()) == 0);
    assert(first.last() == all[0]);
    assert(digits_value(first) >= 1);
    assert(others.len() == n - 1);
    assert(digits_value(first) * pow10((n - 1) as nat) >= pow10((n - 1) as nat))
        by (nonlinear_arith)
        requires
            digits_value(first) >= 1,
    ;
}

/// The first digit that is left out says which way is nearer: it is five
/// or more just where what is left out is half of its place or more.
pub proof fn lemma_first_dropped(whole: nat, n: nat)
    requires
        whole > 0,
        1 <= n < decimal_digits(whole).len(),
    ensures
        ({
            let all = decimal_digits(whole);
            let rest = digits_value(all.skip(n as int));
            let more = (all.len() - n) as nat;
            (all[n as int] >= 53) == (2 * rest >= pow10(more))
        }),
{
    let all = decimal_digits(whole);
    lemma_decimal_digits(whole);
    let tail = all.skip(n as int);
    let first = tail.take(1);
    let others = tail.skip(1);
    let more = (all.len() - n) as nat;
    assert(first + others =~= tail);
    assert forall|i: int| 0 <= i < tail.len() implies is_digit(#[trigger] tail[i]) by {
        assert(tail[i] == all[i + n]);
    }
    lemma_all_digits_concat(first, others);
    lemma_digits_concat(first, others);
    lemma_digits_bound(others);
    assert(first.drop_last() =~= Seq::<u8>::empty());
    assert(digits_value(first.drop_last()) == 0);
    assert(first.last() == all[n as int]);
    let d = digits_value(first);
    assert(d == all[n as int] - 48);
    assert(is_digit(all[n as int]));
    let p = pow10((more - 1) as nat);
    assert(others.len() == more - 1);
    assert(pow10(more) == 10 * p);
    let rest = digits_value(tail);
    assert(rest == d * p + digits_value(others));
    if d >= 5 {
        assert(2 * (d * p) >= 10 * p) by (nonlinear_arith)
            requires
                d >= 5,
                p >= 0,
        ;
    } else {
        assert(2 * (d * p) + 2 * p <= 10 * p) by (nonlinear_arith)
            requires
                d <= 4,
                p >= 0,
        ;
    }
}

/// Whether the first `n` digits of an expansion read back as the double.
pub open spec fn low_fits(mag: u64, whole: nat, n: nat) -> bool {
    let all = decimal_digits(whole);
    decimal_nearest(digits_value(all.take(n as int)), all.len() - n - 1074) == mag
}

/// Whether the first `n` digits of an expansion, raised by one in the last
/// place, read back as the double.
pub open spec fn high_fits(mag: u64, whole: nat, n: nat) -> bool {
    let all = decimal_digits(whole);
    decimal_nearest(digits_value(all.take(n as int)) + 1, all.len() - n - 1074) == mag
}

/// The count of digits at which the search of `shortest` from `n` upward ends.
pub open spec fn shortest_count(mag: u64, whole: nat, n: nat) -> nat
    decreases 18 - n,
{
    if n >= decimal_digits(whole).len() || n > 17 {
        n
    } else if low_fits(mag, whole, n) || high_fits(mag, whole, n) {
        n
    } else {
        shortest_count(mag, whole, n + 1)
    }
}

/// Before the search ends, neither of the two numbers reads back.
pub proof fn lemma_search_goes_on(mag: u64, whole: nat, from: nat, j: nat)
    requires
        from <= j < shortest_count(mag, whole, from),
    ensures
        j < decimal_digits(whole).len(),
        j <= 17,
        !low_fits(mag, whole, j),
        !high_fits(mag, whole, j),
    decreases 18 - from,
{
    if from >= decimal_digits(whole).len() || from > 17 {
    } else if low_fits(mag, whole, from) || high_fits(mag, whole, from) {
    } else if j > from {
        lemma_search_goes_on(mag, whole, from + 1, j);
    }
}

/// What the search gives where it ends.
pub proof fn lemma_search_ends(mag: u64, whole: nat, from: nat)
    ensures
        ({
            let all = decimal_digits(whole);
            let n = shortest_count(mag, whole, from);
            let best = shortest(mag, whole, from);
            let low = digits_value(all.take(n as int));
            let k = all.len() - n - 1074;
            &&& n >= from
            &&& if n >= all.len() || n > 17 {
                best == (whole, -1074int)
            } else if high_fits(mag, whole, n) && (!low_fits(mag, whole, n) || all[n as int]
                >= 53) {
                best == (low + 1, k)
            } else {
                low_fits(mag, whole, n) && best == (low, k)
            }
        }),
    decreases 18 - from,
{
    if from >= decimal_digits(whole).len() || from > 17 {
    } else if low_fits(mag, whole, from) || high_fits(mag, whole, from) {
    } else {
        lemma_search_ends(mag, whole, from + 1);
    }
}

/// The expansion of a double that is not zero is not zero.
pub proof fn lemma_expansion_positive(mag: u64)
    requires
        0 < mag,
    ensures
        expansion(mag) > 0,
{
    lemma_units_positive(mag);
    lemma_pow5_positive(1074);
    assert(units(mag) * pow5(1074) > 0) by (nonlinear_arith)
        requires
            units(mag) > 0,
            pow5(1074) > 0,
    ;
}

pub proof fn lemma_pow5_positive(k: nat)
    ensures
        pow5(k) > 0,
    decreases k,
{
    if k > 0 {
        lemma_pow5_positive((k - 1) as nat);
    }
}

/// The exact value lies between the two numbers of `n` digits: counted in
/// units of `10^m`.
pub proof fn lemma_enclosed(whole: nat, n: nat, m: int)
    requires
        whole > 0,
        1 <= n <= decimal_digits(whole).len(),
        m <= -1074,
    ensures
        ({
            let all = decimal_digits(whole);
            let low = digits_value(all.take(n as int));
            let k = all.len() - n - 1074;
            &&& scaled(low, k, m) <= scaled(whole, -1074, m)
            &&& scaled(whole, -1074, m) < scaled(low + 1, k, m)
        }),
{
    let all = decimal_digits(whole);
    let low = digits_value(all.take(n as int));
    let rest = digits_value(all.skip(n as int));
    let more = (all.len() - n) as nat;
    let k = all.len() - n - 1074;
    lemma_bracket(whole, n);
    let t = pow10((-1074 - m) as nat);
    lemma_pow10_positive((-1074 - m) as nat);
    lemma_pow10_adds(more, (-1074 - m) as nat);
    assert((k - m) as nat == more + (-1074 - m) as nat);
    let pm = pow10(more);
    assert(low * (pm * t) <= whole * t) by (nonlinear_arith)
        requires
            whole == low * pm + rest,
            t > 0,
    ;
    assert(whole * t < (low + 1) * (pm * t)) by (nonlinear_arith)
        requires
            whole == low * pm + rest,
            rest < pm,
            t > 0,
    ;
}

/// A decimal number of at most `n` digits does not lie between the two
/// numbers of `n` digits that enclose the exact value.
pub proof fn lemma_outside(whole: nat, n: nat, c: nat, e: int, m: int)
    requires
        whole > 0,
        1 <= n <= decimal_digits(whole).len(),
        c < pow10(n),
        m <= e,
        m <= -1074,
    ensures
        ({
            let all = decimal_digits(whole);
            let low = digits_value(all.take(n as int));
            let k = all.len() - n - 1074;
            scaled(c, e, m) <= scaled(low, k, m) || scaled(low + 1, k, m) <= scaled(c, e, m)
        }),
{
    let all = decimal_digits(whole);
    let low = digits_value(all.take(n as int));
    let k = all.len() - n - 1074;
    lemma_bracket(whole, n);
    if e >= k {
        let up = pow10((e - k) as nat);
        let base = pow10((k - m) as nat);
        lemma_pow10_adds((e - k) as nat, (k - m) as nat);
        assert((e - m) as nat == (e - k) as nat + (k - m) as nat);
        let big = c * up;
        assert(scaled(c, e, m) == big * base) by (nonlinear_arith)
            requires
                scaled(c, e, m) == c * (up * base),
                big == c * up,
        ;
        if big <= low {
            assert(big * base <= low * base) by (nonlinear_arith)
                requires
                    big <= low,
                    base >= 0,
            ;
        } else {
            assert((low + 1) * base <= big * base) by (nonlinear_arith)
                requires
                    low + 1 <= big,
                    base >= 0,
            ;
        }
    } else {
        // c * 10^(e - m) < 10^(n + e - m) <= 10^(n - 1 + k - m) <= low * 10^(k - m)
        let small = pow10((e - m) as nat);
        lemma_pow10_positive((e - m) as nat);
        lemma_pow10_adds(n, (e - m) as nat);
        lemma_pow10_increases(n + (e - m) as nat, ((n - 1) as nat) + (k - m) as nat);
        lemma_pow10_adds((n - 1) as nat, (k - m) as nat);
        let base = pow10((k - m) as nat);
        assert(c * small <= pow10(n) * small) by (nonlinear_arith)
            requires
                c < pow10(n),
                small > 0,
        ;
        assert(pow10((n - 1) as nat) * base <= low * base) by (nonlinear_arith)
            requires
                pow10((n - 1) as nat) <= low,
                base >= 0,
        ;
    }
}

/// A decimal number that reads back as the double and is not above the
/// lower of the two numbers of `n` digits makes that lower number read
/// back; likewise for the upper one.
pub proof fn lemma_sandwich(mag: u64, n: nat, c: nat, e: int, m: int)
    requires
        0 < mag <= INFINITY_BITS,
        1 <= n <= decimal_digits(expansion(mag)).len(),
        m <= e,
        m <= -1074,
        decimal_nearest(c, e) == mag,
    ensures
        ({
            let whole = expansion(mag);
            let all = decimal_digits(whole);
            let low = digits_value(all.take(n as int));
            let k = all.len() - n - 1074;
            &&& scaled(c, e, m) <= scaled(low, k, m) ==> low_fits(mag, whole, n)
            &&& scaled(low + 1, k, m) <= scaled(c, e, m) ==> high_fits(mag, whole, n)
        }),
{
    let whole = expansion(mag);
    let all = decimal_digits(whole);
    let low = digits_value(all.take(n as int));
    let k = all.len() - n - 1074;
    lemma_expansion_positive(mag);
    lemma_expansion_fits(mag);
    lemma_enclosed(whole, n, m);
    law_decimal_monotone(low, k, whole, -1074, m);
    law_decimal_monotone(whole, -1074, low + 1, k, m);
    if scaled(c, e, m) <= scaled(low, k, m) {
        law_decimal_monotone(c, e, low, k, m);
    }
    if scaled(low + 1, k, m) <= scaled(c, e, m) {
        law_decimal_monotone(low + 1, k, c, e, m);
    }
}

/// No decimal number of fewer digits reads back as the double than the
/// search of `shortest` has gone through.
pub proof fn law_nothing_shorter_reads_back(mag: u64, digits: nat, c: nat, e: int)
    requires
        0 < mag < INFINITY_BITS,
        digits < shortest_count(mag, expansion(mag), 1),
        c < pow10(digits),
    ensures
        decimal_nearest(c, e) != mag,
{
    let whole = expansion(mag);
    if digits == 0 {
        assert(c == 0);
        lemma_decimal_zero(e);
    } else if decimal_nearest(c, e) == mag {
        lemma_search_goes_on(mag, whole, 1, digits);
        lemma_expansion_positive(mag);
        let m = if e < -1074 {
            e
        } else {
            -1074int
        };
        lemma_outside(whole, digits, c, e, m);
        lemma_sandwich(mag, digits, c, e, m);
    }
}

/// The text of a double has no more digits than the search has gone
/// through, unless the search has given up and the text is the exact
/// expansion.
pub proof fn law_shortest_has_the_count(mag: u64)
    requires
        0 < mag < INFINITY_BITS,
    ensures
        ({
            let whole = expansion(mag);
            let n = shortest_count(mag, whole, 1);
            let best = shortest(mag, whole, 1);
            if n >= decimal_digits(whole).len() || n > 17 {
                best == (whole, -1074int)
            } else {
                best.0 <= pow10(n)
            }
        }),
{
    let whole = expansion(mag);
    let n = shortest_count(mag, whole, 1);
    lemma_search_ends(mag, whole, 1);
    lemma_expansion_positive(mag);
    if !(n >= decimal_digits(whole).len() || n > 17) {
        lemma_bracket(whole, n);
    }
}

/// Among the decimal numbers of as many digits that read back as the
/// double, none is nearer to the exact value of the double than its text
/// is. The numbers are counted in units of `10^m`.
pub proof fn law_shortest_is_nearest(mag: u64, c: nat, e: int, m: int)
    requires
        0 < mag < INFINITY_BITS,
        c < pow10(shortest_count(mag, expansion(mag), 1)),
        decimal_nearest(c, e) == mag,
        m <= e,
        m <= -1074,
    ensures
        ({
            let whole = expansion(mag);
            let best = shortest(mag, whole, 1);
            best.1 >= -1074 && distance(scaled(best.0, best.1, m), scaled(whole, -1074, m))
                <= distance(scaled(c, e, m), scaled(whole, -1074, m))
        }),
{
    let whole = expansion(mag);
    let all = decimal_digits(whole);
    let n = shortest_count(mag, whole, 1);
    let best = shortest(mag, whole, 1);
    lemma_search_ends(mag, whole, 1);
    lemma_expansion_positive(mag);
    if n >= all.len() || n > 17 {
    } else {
        let low = digits_value(all.take(n as int));
        let rest = digits_value(all.skip(n as int));
        let more = (all.len() - n) as nat;
        let k = all.len() - n - 1074;
        lemma_outside(whole, n, c, e, m);
        lemma_sandwich(mag, n, c, e, m);
        lemma_enclosed(whole, n, m);
        lemma_bracket(whole, n);
        lemma_first_dropped(whole, n);
        // In units of 10^m: the exact value is `base * (low * 10^more + rest)`,
        // the two numbers are `base * low * 10^more` and one place more.
        let t = pow10((-1074 - m) as nat);
        lemma_pow10_positive((-1074 - m) as nat);
        lemma_pow10_adds(more, (-1074 - m) as nat);
        assert((k - m) as nat == more + (-1074 - m) as nat);
        let pm = pow10(more);
        let v = scaled(whole, -1074, m);
        let lo = scaled(low, k, m);
        let hi = scaled(low + 1, k, m);
        assert(v - lo == rest * t) by (nonlinear_arith)
            requires
                v == whole * t,
                lo == low * (pm * t),
                whole == low * pm + rest,
        ;
        assert(hi - v == (pm - rest) * t) by (nonlinear_arith)
            requires
                v == whole * t,
                hi == (low + 1) * (pm * t),
                whole == low * pm + rest,
        ;
        if 2 * rest >= pm {
            assert((pm - rest) * t <= rest * t) by (nonlinear_arith)
                requires
                    2 * rest >= pm,
                    t > 0,
            ;
        } else {
            assert(rest * t < (pm - rest) * t) by (nonlinear_arith)
                requires
                    2 * rest < pm,
                    t > 0,
            ;
        }
    }
}

} // verus!
