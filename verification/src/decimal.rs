//! Numbers as decimal text: which byte strings denote an integer or a
//! double, what they denote, and how a number is written.

use crate::bignat::BigNat;
use crate::double::{
    is_nan, is_negative, lemma_binade_at_least, lemma_binade_is, lemma_nearest_bound,
    lemma_pow2_le, magnitude, nearest, round_ratio, units, units_of, with_sign, Double,
    INFINITY_BITS, NAN_BITS,
};
use vstd::arithmetic::div_mod::{lemma_basic_div, lemma_small_mod};
use vstd::arithmetic::power2::{lemma2_to64, lemma_pow2_adds, lemma_pow2_pos, pow2};
use vstd::prelude::*;

verus! {

pub open spec fn is_digit(b: u8) -> bool {
    48 <= b && b <= 57
}

pub open spec fn all_digits(s: Seq<u8>) -> bool {
    forall|i: int| 0 <= i < s.len() ==> is_digit(#[trigger] s[i])
}

/// The number that a string of decimal digits denotes.
pub open spec fn digits_value(s: Seq<u8>) -> nat
    decreases s.len(),
{
    if s.len() == 0 {
        0
    } else {
        10 * digits_value(s.drop_last()) + (s.last() - 48) as nat
    }
}

/// The integer that a text denotes: an optional sign, then one digit or
/// more, and nothing else.
pub open spec fn integer_text(s: Seq<u8>) -> Option<int> {
    if s.len() == 0 {
        None
    } else {
        let signed = s[0] == 43 || s[0] == 45;
        let body = if signed {
            s.skip(1)
        } else {
            s
        };
        if body.len() == 0 || !all_digits(body) {
            None
        } else if s[0] == 45 {
            Some(-(digits_value(body) as int))
        } else {
            Some(digits_value(body) as int)
        }
    }
}

/// The 32-bit integer that a text denotes, if it denotes one.
pub open spec fn int_text(s: Seq<u8>) -> Option<i32> {
    match integer_text(s) {
        Some(v) => if i32::MIN <= v <= i32::MAX {
            Some(v as i32)
        } else {
            None
        },
        None => None,
    }
}

/// The 64-bit integer that a text denotes, if it denotes one.
pub open spec fn long_text(s: Seq<u8>) -> Option<i64> {
    match integer_text(s) {
        Some(v) => if i64::MIN <= v <= i64::MAX {
            Some(v as i64)
        } else {
            None
        },
        None => None,
    }
}

/// The shortest decimal digits of a natural number.
pub open spec fn decimal_digits(n: nat) -> Seq<u8>
    decreases n,
{
    if n < 10 {
        seq![(48 + n) as u8]
    } else {
        decimal_digits(n / 10).push((48 + n % 10) as u8)
    }
}

/// How an integer is written: a minus sign where it is negative, then its digits.
pub open spec fn integer_digits(v: int) -> Seq<u8> {
    if v < 0 {
        seq![45u8] + decimal_digits((-v) as nat)
    } else {
        decimal_digits(v as nat)
    }
}

/// Ten to the power `k`.
pub open spec fn pow10(k: nat) -> nat
    decreases k,
{
    if k == 0 {
        1
    } else {
        10 * pow10((k - 1) as nat)
    }
}

/// An upper-case letter as its lower-case letter; any other byte as itself.
pub open spec fn lower(b: u8) -> u8 {
    if 65 <= b && b <= 90 {
        (b + 32) as u8
    } else {
        b
    }
}

/// A text with its upper-case letters lowered.
pub open spec fn lowered(s: Seq<u8>) -> Seq<u8> {
    s.map_values(|b: u8| lower(b))
}

/// The end of the longest run of digits that starts at `from`.
pub open spec fn digit_run(s: Seq<u8>, from: int) -> int
    decreases s.len() - from,
{
    if 0 <= from < s.len() && is_digit(s[from]) {
        digit_run(s, from + 1)
    } else {
        from
    }
}

/// Magnitude of the double nearest to `digits * 10^exponent`.
pub open spec fn decimal_nearest(digits: nat, exponent: int) -> u64 {
    if exponent >= 0 {
        nearest(digits * pow10(exponent as nat) * pow2(1074), 1)
    } else {
        nearest(digits * pow2(1074), pow10((-exponent) as nat))
    }
}

/// The digits and the power of ten of an unsigned decimal number: digits
/// with at most one point among them and at least one digit, then
/// optionally `e` or `E` and an integer.
pub open spec fn number_text(s: Seq<u8>) -> Option<(nat, int)> {
    let b = mantissa_end(s);
    let digits = whole_digits(s) + fraction_digits(s);
    if digits.len() == 0 {
        None
    } else if b == s.len() {
        Some((digits_value(digits), -(fraction_digits(s).len() as int)))
    } else if lower(s[b]) == 101 {
        match integer_text(s.skip(b + 1)) {
            Some(e) => Some((digits_value(digits), e - fraction_digits(s).len())),
            None => None,
        }
    } else {
        None
    }
}

/// Whether a point follows the leading digits of a number.
pub open spec fn has_point(s: Seq<u8>) -> bool {
    digit_run(s, 0) < s.len() && s[digit_run(s, 0)] == 46
}

/// The digits before the point.
pub open spec fn whole_digits(s: Seq<u8>) -> Seq<u8> {
    s.subrange(0, digit_run(s, 0))
}

/// The digits after the point.
pub open spec fn fraction_digits(s: Seq<u8>) -> Seq<u8> {
    if has_point(s) {
        s.subrange(digit_run(s, 0) + 1, mantissa_end(s))
    } else {
        Seq::<u8>::empty()
    }
}

/// Where the digits and the point of a number end.
pub open spec fn mantissa_end(s: Seq<u8>) -> int {
    if has_point(s) {
        digit_run(s, digit_run(s, 0) + 1)
    } else {
        digit_run(s, 0)
    }
}

pub open spec fn word_inf() -> Seq<u8> {
    seq![105u8, 110u8, 102u8]
}

pub open spec fn word_infinity() -> Seq<u8> {
    seq![105u8, 110u8, 102u8, 105u8, 110u8, 105u8, 116u8, 121u8]
}

pub open spec fn word_nan() -> Seq<u8> {
    seq![110u8, 97u8, 110u8]
}

/// The double that a text denotes, as its bit pattern: an optional sign,
/// then `inf`, `infinity` or `nan` in either case of letters, or a decimal
/// number, which stands for the double nearest to it.
pub open spec fn double_text(s: Seq<u8>) -> Option<u64> {
    let signed = s.len() > 0 && (s[0] == 43 || s[0] == 45);
    let negative = s.len() > 0 && s[0] == 45;
    let body = if signed {
        s.skip(1)
    } else {
        s
    };
    match special_text(body) {
        Some(mag) => Some(
            if mag == NAN_BITS {
                NAN_BITS
            } else {
                with_sign(negative, mag)
            },
        ),
        None => match number_text(body) {
            Some((digits, exponent)) => Some(with_sign(negative, decimal_nearest(digits, exponent))),
            None => None,
        },
    }
}

/// The magnitude that one of the words `inf`, `infinity` and `nan` denotes.
pub open spec fn special_text(s: Seq<u8>) -> Option<u64> {
    if lowered(s) == word_inf() || lowered(s) == word_infinity() {
        Some(INFINITY_BITS)
    } else if lowered(s) == word_nan() {
        Some(NAN_BITS)
    } else {
        None
    }
}

/// `v`, or `cap` where `v` is more.
pub open spec fn capped(v: nat, cap: nat) -> nat {
    if v > cap {
        cap
    } else {
        v
    }
}

pub proof fn lemma_digits_push(s: Seq<u8>, b: u8)
    ensures
        digits_value(s.push(b)) == 10 * digits_value(s) + (b - 48) as nat,
        all_digits(s.push(b)) == (all_digits(s) && is_digit(b)),
{
    let t = s.push(b);
    assert(t.drop_last() =~= s);
    if all_digits(s) && is_digit(b) {
        assert forall|i: int| 0 <= i < t.len() implies is_digit(#[trigger] t[i]) by {
            if i < s.len() {
                assert(t[i] == s[i]);
            }
        }
    }
    if all_digits(t) {
        assert(is_digit(t[s.len() as int]));
        assert forall|i: int| 0 <= i < s.len() implies is_digit(#[trigger] s[i]) by {
            assert(t[i] == s[i]);
        }
    }
}

pub proof fn lemma_pow10_positive(k: nat)
    ensures
        pow10(k) >= 1,
    decreases k,
{
    if k > 0 {
        lemma_pow10_positive((k - 1) as nat);
    }
}

/// Ten to a power is at least eight to that power.
pub proof fn lemma_pow10_lower(k: nat)
    ensures
        pow10(k) >= pow2(3 * k),
    decreases k,
{
    lemma2_to64();
    if k > 0 {
        lemma_pow10_lower((k - 1) as nat);
        lemma_pow2_adds(3 * ((k - 1) as nat), 3);
        assert(3 * ((k - 1) as nat) + 3 == 3 * k);
        let w = pow2(3 * ((k - 1) as nat));
        lemma_pow2_pos(3 * ((k - 1) as nat));
        assert(w * 8 <= 10 * pow10((k - 1) as nat)) by (nonlinear_arith)
            requires
                pow10((k - 1) as nat) >= w,
                w > 0,
        ;
    }
}

/// No digits stand for the double zero, whatever the power of ten.
pub proof fn lemma_decimal_zero(exponent: int)
    ensures
        decimal_nearest(0, exponent) == 0,
{
    if exponent >= 0 {
        assert(0 * pow10(exponent as nat) * pow2(1074) == 0) by (nonlinear_arith);
        lemma_nearest_bound(0, 1);
    } else {
        lemma_pow10_positive((-exponent) as nat);
        assert(0 * pow2(1074) == 0) by (nonlinear_arith);
        lemma_nearest_bound(0, pow10((-exponent) as nat));
    }
}

/// A number of four hundred decimal places or more lies beyond the doubles.
pub proof fn lemma_decimal_overflow(digits: nat, exponent: int)
    requires
        digits >= 1,
        exponent >= 400,
    ensures
        decimal_nearest(digits, exponent) == INFINITY_BITS,
{
    let k = exponent as nat;
    lemma_pow10_lower(k);
    lemma_pow2_le(1024, 3 * k);
    lemma_pow2_adds(1024, 1074);
    lemma_pow2_pos(1074);
    let n = digits * pow10(k) * pow2(1074);
    assert(n >= pow2(1024) * pow2(1074)) by (nonlinear_arith)
        requires
            n == digits * pow10(k) * pow2(1074),
            digits >= 1,
            pow10(k) >= pow2(1024),
            pow2(1074) > 0,
    ;
    assert(52 + 2046 == 1024 + 1074);
    assert(1 * pow2(52 + 2046) == pow2(2098)) by (nonlinear_arith);
    lemma_binade_at_least(n, 1, 2046);
}

/// A number below 2^-1076 stands for the double zero.
pub proof fn lemma_decimal_underflow(digits: nat, exponent: int, bits: nat)
    requires
        digits < pow2(bits),
        exponent < 0,
        3 * (-exponent) >= bits + 1076,
    ensures
        decimal_nearest(digits, exponent) == 0,
{
    let j = (-exponent) as nat;
    let n = digits * pow2(1074);
    let d = pow10(j);
    lemma_pow10_lower(j);
    lemma_pow2_le(bits + 1076, 3 * j);
    lemma_pow2_adds(bits, 1076);
    lemma_pow2_adds(1074, 2);
    lemma_pow2_adds(bits, 1074);
    lemma_pow2_pos(1074);
    lemma_pow2_pos(53);
    lemma2_to64();
    assert(4 * n < d) by (nonlinear_arith)
        requires
            n == digits * pow2(1074),
            digits < pow2(bits),
            pow2(1076) == pow2(1074) * 4,
            d >= pow2(bits) * pow2(1076),
            pow2(1074) > 0,
    ;
    assert(n < d * pow2(53)) by (nonlinear_arith)
        requires
            4 * n < d,
            pow2(53) >= 1,
    ;
    lemma_binade_is(n, d, 0);
    assert(d * pow2(0) == d) by (nonlinear_arith)
        requires
            pow2(0) == 1,
    ;
    lemma_basic_div(n as int, d as int);
    lemma_small_mod(n, d);
}

/// The value of the digits in `s[from..to]`, at most `cap`; nothing if a
/// byte there is not a digit.
fn read_digits(s: &Vec<u8>, from: usize, to: usize, cap: u128) -> (r: Option<u128>)
    requires
        from <= to <= s.len(),
        cap <= 0x1_0000_0000_0000_0000_0000_0000_0000,
    ensures
        r is None <==> !all_digits(s@.subrange(from as int, to as int)),
        r matches Some(v) ==> v == capped(
            digits_value(s@.subrange(from as int, to as int)),
            cap as nat,
        ),
{
    let mut acc: u128 = 0;
    let mut i: usize = from;
    proof {
        assert(s@.subrange(from as int, from as int).len() == 0);
    }
    while i < to
        invariant
            from <= i <= to <= s.len(),
            cap <= 0x1_0000_0000_0000_0000_0000_0000_0000,
            all_digits(s@.subrange(from as int, i as int)),
            acc == capped(digits_value(s@.subrange(from as int, i as int)), cap as nat),
        decreases to - i,
    {
        let b = s[i];
        if b < 48 || b > 57 {
            proof {
                let whole = s@.subrange(from as int, to as int);
                assert(whole[i - from] == b);
            }
            return None;
        }
        proof {
            let before = s@.subrange(from as int, i as int);
            assert(s@.subrange(from as int, i + 1) =~= before.push(b));
            lemma_digits_push(before, b);
        }
        let next = acc * 10 + (b - 48) as u128;
        acc = if next > cap {
            cap
        } else {
            next
        };
        i = i + 1;
    }
    Some(acc)
}

/// Sign and size, at most `cap`, of the integer that `s[from..]` denotes.
fn read_integer(s: &Vec<u8>, from: usize, cap: u128) -> (r: Option<(bool, u128)>)
    requires
        from <= s.len(),
        cap <= 0x1_0000_0000_0000_0000_0000_0000_0000,
    ensures
        integer_text(s@.skip(from as int)) is None <==> r is None,
        r matches Some((negative, size)) ==> {
            let v = integer_text(s@.skip(from as int))->0;
            &&& negative ==> v <= 0 && size == capped((-v) as nat, cap as nat)
            &&& !negative ==> v >= 0 && size == capped(v as nat, cap as nat)
        },
{
    let text = Ghost(s@.skip(from as int));
    if from == s.len() {
        return None;
    }
    let first = s[from];
    let start = if first == 43 || first == 45 {
        from + 1
    } else {
        from
    };
    proof {
        assert(text@[0] == first);
        if start == from {
            assert(s@.subrange(start as int, s.len() as int) =~= text@);
        } else {
            assert(s@.subrange(start as int, s.len() as int) =~= text@.skip(1));
        }
    }
    if start == s.len() {
        return None;
    }
    match read_digits(s, start, s.len(), cap) {
        None => None,
        Some(size) => Some((first == 45, size)),
    }
}

/// Reads a 64-bit integer.
pub fn parse_long(s: &Vec<u8>) -> (r: Option<i64>)
    ensures
        r == long_text(s@),
{
    proof {
        assert(s@.skip(0) =~= s@);
    }
    match read_integer(s, 0, 0x8000_0000_0000_0001) {
        None => None,
        Some((negative, size)) => {
            if negative {
                if size > 0x8000_0000_0000_0000 {
                    None
                } else {
                    Some((-(size as i128)) as i64)
                }
            } else {
                if size > 0x7FFF_FFFF_FFFF_FFFF {
                    None
                } else {
                    Some(size as i64)
                }
            }
        },
    }
}

/// Reads a 32-bit integer.
pub fn parse_int(s: &Vec<u8>) -> (r: Option<i32>)
    ensures
        r == int_text(s@),
{
    match parse_long(s) {
        None => None,
        Some(v) => if v < i32::MIN as i64 || v > i32::MAX as i64 {
            None
        } else {
            Some(v as i32)
        },
    }
}

/// Appends the digits of `n`.
fn push_digits(n: u64, out: &mut Vec<u8>)
    ensures
        final(out)@ == old(out)@ + decimal_digits(n as nat),
    decreases n,
{
    if n >= 10 {
        push_digits(n / 10, out);
    }
    out.push(48 + (n % 10) as u8);
    proof {
        if n >= 10 {
            assert(final(out)@ =~= old(out)@ + decimal_digits(n as nat));
        } else {
            assert(final(out)@ =~= old(out)@ + decimal_digits(n as nat));
        }
    }
}

/// Writes a 64-bit integer.
pub fn format_long(v: i64) -> (r: Vec<u8>)
    ensures
        r@ == integer_digits(v as int),
{
    let mut out: Vec<u8> = Vec::new();
    if v < 0 {
        out.push(45);
        push_digits((-(v as i128)) as u64, &mut out);
    } else {
        push_digits(v as u64, &mut out);
    }
    proof {
        if v < 0 {
            assert(out@ =~= seq![45u8] + decimal_digits((-v) as nat));
        } else {
            assert(out@ =~= decimal_digits(v as nat));
        }
    }
    out
}

/// Rounds `digits * 10^exponent` to the nearest double magnitude.
pub fn decimal_magnitude(digits: &BigNat, exponent: i128) -> (mag: u64)
    requires
        digits.wf(),
    ensures
        mag == decimal_nearest(digits@, exponent as int),
        mag <= INFINITY_BITS,
{
    if digits.is_zero() {
        proof {
            lemma_decimal_zero(exponent as int);
        }
        return 0;
    }
    let one = BigNat::from_u64(1);
    if exponent >= 0 {
        if exponent >= 400 {
            proof {
                lemma_decimal_overflow(digits@, exponent as int);
            }
            return INFINITY_BITS;
        }
        let mut n = digits.duplicate();
        let mut i: i128 = 0;
        proof {
            assert(digits@ * pow10(0) == digits@) by (nonlinear_arith)
                requires
                    pow10(0) == 1,
            ;
        }
        while i < exponent
            invariant
                0 <= i <= exponent,
                n.wf(),
                n@ == digits@ * pow10(i as nat),
            decreases exponent - i,
        {
            proof {
                assert(digits@ * pow10(i as nat) * 10 + 0 == digits@ * pow10((i + 1) as nat))
                    by (nonlinear_arith)
                    requires
                        pow10((i + 1) as nat) == 10 * pow10(i as nat),
                ;
            }
            n = n.mul_small_add(10, 0);
            i = i + 1;
        }
        let scaled = n.shl(1074);
        round_ratio(&scaled, &one)
    } else {
        let bits = digits.bit_length();
        if exponent < -0x1_0000_0000_0000_0000_0000 || 3 * (-exponent) >= bits as i128 + 1076 {
            proof {
                lemma_decimal_underflow(digits@, exponent as int, bits as nat);
            }
            return 0;
        }
        let places = -exponent;
        let mut d = one;
        let mut i: i128 = 0;
        while i < places
            invariant
                0 <= i <= places,
                d.wf(),
                d@ == pow10(i as nat),
            decreases places - i,
        {
            d = d.mul_small_add(10, 0);
            i = i + 1;
        }
        proof {
            lemma_pow10_positive(places as nat);
        }
        let scaled = digits.shl(1074);
        round_ratio(&scaled, &d)
    }
}

/// Whether `s[from..]`, letters lowered, is the given word.
fn is_word(s: &Vec<u8>, from: usize, word: &Vec<u8>) -> (b: bool)
    requires
        from <= s.len(),
    ensures
        b == (lowered(s@.skip(from as int)) == word@),
{
    if s.len() - from != word.len() {
        return false;
    }
    let mut i: usize = 0;
    while i < word.len()
        invariant
            from <= s.len(),
            s.len() - from == word.len(),
            i <= word.len(),
            forall|j: int| 0 <= j < i ==> lowered(s@.skip(from as int))[j] == word@[j],
        decreases word.len() - i,
    {
        let b = s[from + i];
        let low = if 65 <= b && b <= 90 {
            b + 32
        } else {
            b
        };
        if low != word[i] {
            proof {
                assert(lowered(s@.skip(from as int))[i as int] == low);
            }
            return false;
        }
        i = i + 1;
    }
    proof {
        assert(lowered(s@.skip(from as int)) =~= word@);
    }
    true
}

/// Adds the digits of `s[from..]`, up to the first byte that is no digit,
/// to `acc`; returns where they end.
fn read_run(s: &Vec<u8>, from: usize, acc: &mut BigNat, Ghost(before): Ghost<Seq<u8>>) -> (end:
    usize)
    requires
        from <= s.len(),
        old(acc).wf(),
        old(acc)@ == digits_value(before),
        old(acc)@ < pow10(before.len()),
    ensures
        end == digit_run(s@, from as int),
        from <= end <= s.len(),
        final(acc).wf(),
        final(acc)@ == digits_value(before + s@.subrange(from as int, end as int)),
        final(acc)@ < pow10((before.len() + (end - from)) as nat),
{
    let mut i: usize = from;
    proof {
        assert(before + s@.subrange(from as int, from as int) =~= before);
    }
    while i < s.len() && 48 <= s[i] && s[i] <= 57
        invariant
            from <= i <= s.len(),
            acc.wf(),
            acc@ == digits_value(before + s@.subrange(from as int, i as int)),
            acc@ < pow10((before.len() + (i - from)) as nat),
            digit_run(s@, from as int) == digit_run(s@, i as int),
        decreases s.len() - i,
    {
        proof {
            let sofar = before + s@.subrange(from as int, i as int);
            assert(before + s@.subrange(from as int, i + 1) =~= sofar.push(s@[i as int]));
            lemma_digits_push(sofar, s@[i as int]);
            assert((before.len() + (i + 1 - from)) as nat == (before.len() + (i - from)) as nat
                + 1);
        }
        *acc = acc.mul_small_add(10, (s[i] - 48) as u32);
        i = i + 1;
    }
    i
}

/// A run of digits is found at the same place in a text and in its tail.
pub proof fn lemma_run_skip(s: Seq<u8>, k: int, from: int)
    requires
        0 <= k <= from <= s.len(),
    ensures
        digit_run(s.skip(k), from - k) == digit_run(s, from) - k,
    decreases s.len() - from,
{
    if from < s.len() && is_digit(s[from]) {
        assert(s.skip(k)[from - k] == s[from]);
        lemma_run_skip(s, k, from + 1);
    }
}

/// Ten to a power is at most sixteen to that power.
pub proof fn lemma_pow10_upper(k: nat)
    ensures
        pow10(k) <= pow2(4 * k),
    decreases k,
{
    lemma2_to64();
    if k > 0 {
        lemma_pow10_upper((k - 1) as nat);
        lemma_pow2_adds(4 * ((k - 1) as nat), 4);
        assert(4 * ((k - 1) as nat) + 4 == 4 * k);
        let w = pow2(4 * ((k - 1) as nat));
        assert(10 * pow10((k - 1) as nat) <= w * 16) by (nonlinear_arith)
            requires
                pow10((k - 1) as nat) <= w,
        ;
    }
}

/// Reads the digits and the point of the number in `s[start..]`: the value
/// of the digits, where they end, how many follow the point, and whether
/// there is any digit.
fn read_mantissa(s: &Vec<u8>, start: usize) -> (r: (BigNat, usize, usize, bool))
    requires
        start <= s.len(),
    ensures
        r.0.wf(),
        r.0@ == digits_value(
            whole_digits(s@.skip(start as int)) + fraction_digits(s@.skip(start as int)),
        ),
        r.0@ < pow10(
            (whole_digits(s@.skip(start as int)) + fraction_digits(s@.skip(start as int))).len(),
        ),
        r.1 == start + mantissa_end(s@.skip(start as int)),
        start <= r.1 <= s.len(),
        (whole_digits(s@.skip(start as int)) + fraction_digits(s@.skip(start as int))).len()
            <= s.len(),
        r.2 == fraction_digits(s@.skip(start as int)).len(),
        r.3 == ((whole_digits(s@.skip(start as int)) + fraction_digits(
            s@.skip(start as int),
        )).len() > 0),
{
    let ghost body = s@.skip(start as int);
    let mut digits = BigNat::zero();
    let a = read_run(s, start, &mut digits, Ghost(Seq::<u8>::empty()));
    let dotted = a < s.len() && s[a] == 46;
    let ghost whole = s@.subrange(start as int, a as int);
    proof {
        lemma_run_skip(s@, start as int, start as int);
        assert(Seq::<u8>::empty() + whole =~= whole);
        assert(body.subrange(0, a - start) =~= whole);
        if a < s.len() {
            assert(body[a - start] == s@[a as int]);
        }
    }
    let b = if dotted {
        read_run(s, a + 1, &mut digits, Ghost(whole))
    } else {
        a
    };
    let places: usize = if dotted {
        b - (a + 1)
    } else {
        0
    };
    proof {
        if dotted {
            lemma_run_skip(s@, start as int, a + 1);
            assert(body.subrange(a + 1 - start, b - start) =~= s@.subrange(a + 1, b as int));
        } else {
            assert(whole + Seq::<u8>::empty() =~= whole);
        }
    }
    (digits, b, places, a - start + places > 0)
}

/// Reads one of the words `inf`, `infinity` and `nan` at `s[start..]`.
fn read_special(s: &Vec<u8>, start: usize) -> (r: Option<u64>)
    requires
        start <= s.len(),
    ensures
        r == special_text(s@.skip(start as int)),
{
    let inf = vec![105u8, 110u8, 102u8];
    let infinity = vec![105u8, 110u8, 102u8, 105u8, 110u8, 105u8, 116u8, 121u8];
    let nan = vec![110u8, 97u8, 110u8];
    proof {
        assert(inf@ =~= word_inf());
        assert(infinity@ =~= word_infinity());
        assert(nan@ =~= word_nan());
    }
    if is_word(s, start, &inf) || is_word(s, start, &infinity) {
        Some(INFINITY_BITS)
    } else if is_word(s, start, &nan) {
        Some(NAN_BITS)
    } else {
        None
    }
}

/// Reads the power of ten that follows the digits of a number: the integer
/// at `s[from..]`, less the count of digits after the point. The result may
/// differ from that number only where both stand for the same double.
fn read_exponent(s: &Vec<u8>, from: usize, places: usize, digits: &BigNat, Ghost(count): Ghost<
    nat,
>) -> (r: Option<i128>)
    requires
        from <= s.len(),
        digits@ < pow10(count),
        count <= usize::MAX,
    ensures
        r is None <==> integer_text(s@.skip(from as int)) is None,
        r matches Some(k) ==> decimal_nearest(digits@, k as int) == decimal_nearest(
            digits@,
            integer_text(s@.skip(from as int))->0 - places,
        ),
{
    match read_integer(s, from, 0x10_0000_0000_0000_0000_0000_0000) {
        None => None,
        Some((minus, size)) => {
            let shift = if minus {
                -(size as i128)
            } else {
                size as i128
            };
            let exponent = shift - places as i128;
            proof {
                let e = integer_text(s@.skip(from as int))->0;
                let cap = 0x10_0000_0000_0000_0000_0000_0000int;
                let exact = e - places;
                lemma_pow10_upper(count);
                if e >= cap {
                    if digits@ == 0 {
                        lemma_decimal_zero(exact);
                        lemma_decimal_zero(exponent as int);
                    } else {
                        lemma_decimal_overflow(digits@, exact);
                        lemma_decimal_overflow(digits@, exponent as int);
                    }
                } else if e <= -cap {
                    lemma_decimal_underflow(digits@, exact, 4 * count);
                    lemma_decimal_underflow(digits@, exponent as int, 4 * count);
                }
            }
            Some(exponent)
        },
    }
}

/// Reads the unsigned decimal number at `s[start..]` as a double magnitude.
fn read_number(s: &Vec<u8>, start: usize) -> (r: Option<u64>)
    requires
        start <= s.len(),
    ensures
        r is None <==> number_text(s@.skip(start as int)) is None,
        r matches Some(mag) ==> {
            let parts = number_text(s@.skip(start as int))->0;
            mag == decimal_nearest(parts.0, parts.1) && mag <= INFINITY_BITS
        },
{
    let ghost body = s@.skip(start as int);
    let (digits, b, places, some) = read_mantissa(s, start);
    let ghost count = (whole_digits(body) + fraction_digits(body)).len();
    if !some {
        return None;
    }
    if b == s.len() {
        return Some(decimal_magnitude(&digits, -(places as i128)));
    }
    proof {
        assert(body[b - start] == s@[b as int]);
        assert(s@.skip(b + 1) =~= body.skip(b - start + 1));
    }
    if s[b] == 101 || s[b] == 69 {
        match read_exponent(s, b + 1, places, &digits, Ghost(count)) {
            None => None,
            Some(exponent) => Some(decimal_magnitude(&digits, exponent)),
        }
    } else {
        None
    }
}

/// Reads a double.
pub fn parse_double(s: &Vec<u8>) -> (r: Option<Double>)
    ensures
        r is None <==> double_text(s@) is None,
        r matches Some(d) ==> d@ == double_text(s@)->0,
{
    let signed = s.len() > 0 && (s[0] == 43 || s[0] == 45);
    let negative = s.len() > 0 && s[0] == 45;
    let start: usize = if signed {
        1
    } else {
        0
    };
    proof {
        assert(s@.skip(0) =~= s@);
    }
    match read_special(s, start) {
        Some(mag) => {
            if mag == NAN_BITS {
                Some(Double::nan())
            } else {
                Some(Double::signed(negative, mag))
            }
        },
        None => match read_number(s, start) {
            Some(mag) => Some(Double::signed(negative, mag)),
            None => None,
        },
    }
}

/// Five to the power `k`.
pub open spec fn pow5(k: nat) -> nat
    decreases k,
{
    if k == 0 {
        1
    } else {
        5 * pow5((k - 1) as nat)
    }
}

/// The whole number whose digits are the exact decimal expansion of a
/// magnitude: its value times 10^1074.
pub open spec fn expansion(mag: u64) -> nat {
    units(mag) * pow5(1074)
}

/// The shortest decimal number that stands for the double of magnitude
/// `mag`, as digits and a power of ten, searched from `n` digits upward:
/// of the two numbers of `n` digits that enclose the exact value, the one
/// that reads back as this double, and the nearer one where both do (the
/// upper one where they are equally near). With no such number of
/// seventeen digits or fewer, the exact expansion.
pub open spec fn shortest(mag: u64, whole: nat, n: nat) -> (nat, int)
    decreases 18 - n,
{
    let all = decimal_digits(whole);
    if n >= all.len() || n > 17 {
        (whole, -1074)
    } else {
        let low = digits_value(all.take(n as int));
        let k = all.len() - n - 1074;
        let low_fits = decimal_nearest(low, k) == mag;
        let high_fits = decimal_nearest(low + 1, k) == mag;
        if high_fits && (!low_fits || all[n as int] >= 53) {
            (low + 1, k)
        } else if low_fits {
            (low, k)
        } else {
            shortest(mag, whole, n + 1)
        }
    }
}

/// Digits without the zeros at their end; one digit is always left.
pub open spec fn strip_zeros(s: Seq<u8>) -> Seq<u8>
    decreases s.len(),
{
    if s.len() > 1 && s.last() == 48 {
        strip_zeros(s.drop_last())
    } else {
        s
    }
}

/// `n` digits zero.
pub open spec fn zeros(n: nat) -> Seq<u8> {
    Seq::new(n, |i: int| 48u8)
}

/// Digits written with the decimal point after the first `point` of them.
pub open spec fn positional(s: Seq<u8>, point: int) -> Seq<u8> {
    if point <= 0 {
        seq![48u8, 46u8] + zeros((-point) as nat) + s
    } else if point < s.len() {
        s.take(point) + seq![46u8] + s.skip(point)
    } else {
        s + zeros((point - s.len()) as nat)
    }
}

/// `digits * 10^exponent` written without an exponent and without zeros
/// at the end of a fraction.
pub open spec fn plain(digits: Seq<u8>, exponent: int) -> Seq<u8> {
    positional(strip_zeros(digits), digits.len() + exponent)
}

pub open spec fn word_nan_mixed() -> Seq<u8> {
    seq![78u8, 97u8, 78u8]
}

/// How a double is written: `NaN`, `inf` or `-inf`, or the shortest decimal
/// number that reads back as the same double, without an exponent.
pub open spec fn double_digits(bits: u64) -> Seq<u8> {
    if is_nan(bits) {
        word_nan_mixed()
    } else {
        let mag = magnitude(bits);
        let body = if mag == INFINITY_BITS {
            word_inf()
        } else if mag == 0 {
            seq![48u8]
        } else {
            let best = shortest(mag, expansion(mag), 1);
            plain(decimal_digits(best.0), best.1)
        };
        if is_negative(bits) {
            seq![45u8] + body
        } else {
            body
        }
    }
}

pub proof fn lemma_decimal_digits(n: nat)
    ensures
        decimal_digits(n).len() >= 1,
        all_digits(decimal_digits(n)),
        digits_value(decimal_digits(n)) == n,
    decreases n,
{
    if n < 10 {
        let s = decimal_digits(n);
        assert(s.drop_last().len() == 0);
        assert(digits_value(s.drop_last()) == 0);
    } else {
        lemma_decimal_digits(n / 10);
        lemma_digits_push(decimal_digits(n / 10), (48 + n % 10) as u8);
    }
}

pub proof fn lemma_pow10_increases(a: nat, b: nat)
    requires
        a <= b,
    ensures
        pow10(a) <= pow10(b),
    decreases b,
{
    if a < b {
        lemma_pow10_increases(a, (b - 1) as nat);
    }
}

proof fn lemma_pow10_sixteen()
    ensures
        pow10(16) == 10_000_000_000_000_000,
{
    reveal_with_fuel(pow10, 17);
}

/// Appends the digits of `n`.
fn push_big_digits(n: &BigNat, out: &mut Vec<u8>)
    requires
        n.wf(),
    ensures
        final(out)@ == old(out)@ + decimal_digits(n@),
    decreases n@,
{
    let (q, r) = n.divrem_small(10);
    if !q.is_zero() {
        push_big_digits(&q, out);
    }
    out.push(48 + r as u8);
    proof {
        assert(final(out)@ =~= old(out)@ + decimal_digits(n@));
    }
}

/// The digits and the power of ten of the shortest decimal number that
/// stands for a finite magnitude other than zero.
fn shortest_digits(mag: u64) -> (r: (Vec<u8>, i128))
    requires
        0 < mag < INFINITY_BITS,
    ensures
        r.0@ == decimal_digits(shortest(mag, expansion(mag), 1).0),
        r.1 == shortest(mag, expansion(mag), 1).1,
        -1074 <= r.0.len() + r.1 <= usize::MAX,
{
    let mut whole = units_of(mag);
    let mut i: usize = 0;
    proof {
        assert(units(mag) * pow5(0) == units(mag)) by (nonlinear_arith)
            requires
                pow5(0) == 1,
        ;
    }
    while i < 1074
        invariant
            i <= 1074,
            whole.wf(),
            whole@ == units(mag) * pow5(i as nat),
        decreases 1074 - i,
    {
        proof {
            assert(units(mag) * pow5(i as nat) * 5 + 0 == units(mag) * pow5((i + 1) as nat))
                by (nonlinear_arith)
                requires
                    pow5((i + 1) as nat) == 5 * pow5(i as nat),
            ;
        }
        whole = whole.mul_small_add(5, 0);
        i = i + 1;
    }
    let mut all: Vec<u8> = Vec::new();
    push_big_digits(&whole, &mut all);
    proof {
        assert(all@ =~= decimal_digits(whole@));
        lemma_decimal_digits(whole@);
        lemma_pow10_sixteen();
        assert(all@.take(0).len() == 0);
    }
    let mut n: usize = 1;
    let mut low: u64 = 0;
    while n <= 17 && n < all.len()
        invariant
            1 <= n <= 18,
            all@ == decimal_digits(whole@),
            all_digits(all@),
            all.len() >= 1,
            whole@ == expansion(mag),
            low == digits_value(all@.take(n - 1)),
            low < pow10((n - 1) as nat),
            shortest(mag, expansion(mag), 1) == shortest(mag, expansion(mag), n as nat),
        decreases 18 - n,
    {
        proof {
            let before = all@.take(n - 1);
            assert(all@.take(n as int) =~= before.push(all@[n - 1]));
            lemma_digits_push(before, all@[n - 1]);
            lemma_pow10_increases((n - 1) as nat, 16);
            lemma_pow10_sixteen();
            assert(is_digit(all@[n - 1]));
        }
        low = low * 10 + (all[n - 1] - 48) as u64;
        proof {
            assert(low < pow10(n as nat));
            assert(pow10((n + 1) as nat) == 10 * pow10(n as nat));
        }
        let k: i128 = all.len() as i128 - n as i128 - 1074;
        let low_fits = decimal_magnitude(&BigNat::from_u64(low), k) == mag;
        let high_fits = decimal_magnitude(&BigNat::from_u64(low + 1), k) == mag;
        if high_fits && (!low_fits || all[n] >= 53) {
            let mut out: Vec<u8> = Vec::new();
            push_digits(low + 1, &mut out);
            proof {
                assert(out@ =~= decimal_digits((low + 1) as nat));
                lemma_decimal_digits((low + 1) as nat);
                lemma_digits_count((low + 1) as nat, (n + 1) as nat);
            }
            return (out, k);
        }
        if low_fits {
            let mut out: Vec<u8> = Vec::new();
            push_digits(low, &mut out);
            proof {
                assert(out@ =~= decimal_digits(low as nat));
                lemma_decimal_digits(low as nat);
                lemma_digits_count(low as nat, n as nat);
            }
            return (out, k);
        }
        n = n + 1;
    }
    (all, -1074)
}

/// A number below ten to the `n` has at most `n` digits.
pub proof fn lemma_digits_count(v: nat, n: nat)
    requires
        v < pow10(n),
        n >= 1,
    ensures
        decimal_digits(v).len() <= n,
    decreases n,
{
    if v >= 10 {
        assert(n >= 2) by {
            if n == 1 {
                assert(pow10(1) == 10) by {
                    reveal_with_fuel(pow10, 2);
                }
            }
        }
        lemma_digits_count(v / 10, (n - 1) as nat);
    }
}

/// Appends `count` zeros.
fn push_zeros(count: usize, out: &mut Vec<u8>)
    ensures
        final(out)@ == old(out)@ + zeros(count as nat),
{
    let mut i: usize = 0;
    proof {
        assert(out@ + zeros(0) =~= out@);
    }
    while i < count
        invariant
            i <= count,
            out@ == old(out)@ + zeros(i as nat),
        decreases count - i,
    {
        out.push(48);
        proof {
            assert(out@ =~= old(out)@ + zeros((i + 1) as nat));
        }
        i = i + 1;
    }
}

/// Appends `s[from..to]`.
fn push_range(s: &Vec<u8>, from: usize, to: usize, out: &mut Vec<u8>)
    requires
        from <= to <= s.len(),
    ensures
        final(out)@ == old(out)@ + s@.subrange(from as int, to as int),
{
    let mut i: usize = from;
    proof {
        assert(out@ + s@.subrange(from as int, from as int) =~= out@);
    }
    while i < to
        invariant
            from <= i <= to <= s.len(),
            out@ == old(out)@ + s@.subrange(from as int, i as int),
        decreases to - i,
    {
        out.push(s[i]);
        proof {
            assert(out@ =~= old(out)@ + s@.subrange(from as int, i + 1));
        }
        i = i + 1;
    }
}

/// Writes `digits * 10^exponent` without an exponent.
fn render(digits: &Vec<u8>, exponent: i128, out: &mut Vec<u8>)
    requires
        digits.len() >= 1,
        -1074 <= digits.len() + exponent <= usize::MAX,
    ensures
        final(out)@ == old(out)@ + plain(digits@, exponent as int),
{
    let mut kept: usize = digits.len();
    proof {
        assert(digits@.take(digits.len() as int) =~= digits@);
    }
    while kept > 1 && digits[kept - 1] == 48
        invariant
            1 <= kept <= digits.len(),
            strip_zeros(digits@) == strip_zeros(digits@.take(kept as int)),
        decreases kept,
    {
        proof {
            assert(digits@.take(kept as int).drop_last() =~= digits@.take(kept - 1));
        }
        kept = kept - 1;
    }
    proof {
        assert(digits@.take(digits.len() as int) =~= digits@);
    }
    let ghost body = digits@.take(kept as int);
    proof {
        assert(digits@.subrange(0, kept as int) =~= body);
    }
    let point: i128 = digits.len() as i128 + exponent;
    if point <= 0 {
        out.push(48);
        out.push(46);
        push_zeros((-point) as usize, out);
        push_range(digits, 0, kept, out);
        proof {
            assert(final(out)@ =~= old(out)@ + (seq![48u8, 46u8] + zeros((-point) as nat) + body));
        }
    } else if point < kept as i128 {
        let split = point as usize;
        push_range(digits, 0, split, out);
        out.push(46);
        push_range(digits, split, kept, out);
        proof {
            assert(digits@.subrange(0, split as int) =~= body.take(point as int));
            assert(digits@.subrange(split as int, kept as int) =~= body.skip(point as int));
            assert(final(out)@ =~= old(out)@ + (body.take(point as int) + seq![46u8] + body.skip(
                point as int,
            )));
        }
    } else {
        push_range(digits, 0, kept, out);
        push_zeros((point - kept as i128) as usize, out);
        proof {
            assert(final(out)@ =~= old(out)@ + (body + zeros((point - kept) as nat)));
        }
    }
}

/// Writes a double.
pub fn format_double(d: &Double) -> (r: Vec<u8>)
    ensures
        r@ == double_digits(d@),
{
    let mut out: Vec<u8> = Vec::new();
    if d.is_nan() {
        out.push(78);
        out.push(97);
        out.push(78);
        proof {
            assert(out@ =~= word_nan_mixed());
        }
        return out;
    }
    if d.is_negative() {
        out.push(45);
    }
    let ghost sign = out@;
    let mag = d.magnitude();
    if mag == INFINITY_BITS {
        out.push(105);
        out.push(110);
        out.push(102);
        proof {
            assert(out@ =~= sign + word_inf());
        }
    } else if mag == 0 {
        out.push(48);
        proof {
            assert(out@ =~= sign + seq![48u8]);
        }
    } else {
        let (digits, exponent) = shortest_digits(mag);
        proof {
            lemma_decimal_digits(shortest(mag, expansion(mag), 1).0);
        }
        render(&digits, exponent, &mut out);
    }
    proof {
        if is_negative(d@) {
            assert(sign =~= seq![45u8]);
        } else {
            assert(sign =~= Seq::<u8>::empty());
            assert(forall|t: Seq<u8>| Seq::<u8>::empty() + t =~= t);
        }
    }
    out
}

} // verus!
