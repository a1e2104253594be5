//! A double that is written reads back as itself: the proof.

use crate::decimal::{
    all_digits, decimal_digits, decimal_nearest, digit_run, digits_value, double_digits,
    double_text, expansion, fraction_digits, has_point, int_text, integer_text, is_digit,
    lemma_decimal_digits,
    lemma_decimal_zero, lemma_pow10_positive, long_text, lowered, mantissa_end, number_text, plain, positional, pow10, pow5, shortest, special_text, strip_zeros,
    whole_digits, word_inf, word_infinity, word_nan, word_nan_mixed, zeros,
};
use crate::double::{
    canonical, is_nan, is_negative, law_nearest_exact, law_nearest_scaling,
    law_whole_rounds_to_whole, magnitude, units, with_sign, INFINITY_BITS, NAN_BITS, SIGN_BIT,
};
use crate::laws::{all_ascii, all_plain, is_plain, law_one_word, lemma_ascii_bytes};
use crate::parse::{classify, lexemes, Lexeme};
use crate::text::chars_of;
use vstd::arithmetic::power2::{lemma_pow2_pos, lemma_pow2_unfold, pow2};
use vstd::prelude::*;
use vstd::utf8::encode_utf8;

verus! {

pub proof fn lemma_pow10_adds(a: nat, b: nat)
    ensures
        pow10(a + b) == pow10(a) * pow10(b),
    decreases b,
{
    if b == 0 {
        assert(pow10(a) * pow10(0) == pow10(a)) by (nonlinear_arith)
            requires
                pow10(0) == 1,
        ;
    } else {
        lemma_pow10_adds(a, (b - 1) as nat);
        assert(a + b - 1 == a + (b - 1) as nat);
        assert(pow10(a + b) == 10 * pow10((a + b - 1) as nat));
        assert(pow10(a) * (10 * pow10((b - 1) as nat)) == 10 * (pow10(a) * pow10((b - 1) as nat)))
            by (nonlinear_arith);
    }
}

/// Ten to a power is five to it times two to it.
pub proof fn lemma_pow10_split(k: nat)
    ensures
        pow10(k) == pow5(k) * pow2(k),
    decreases k,
{
    if k == 0 {
        vstd::arithmetic::power2::lemma2_to64();
    } else {
        lemma_pow10_split((k - 1) as nat);
        lemma_pow2_unfold(k);
        assert((5 * pow5((k - 1) as nat)) * (2 * pow2((k - 1) as nat)) == 10 * (pow5(
            (k - 1) as nat,
        ) * pow2((k - 1) as nat))) by (nonlinear_arith);
    }
}

/// The value of digits followed by digits.
pub proof fn lemma_digits_concat(a: Seq<u8>, b: Seq<u8>)
    ensures
        digits_value(a + b) == digits_value(a) * pow10(b.len()) + digits_value(b),
    decreases b.len(),
{
    if b.len() == 0 {
        assert(a + b =~= a);
        assert(digits_value(a) * pow10(0) == digits_value(a)) by (nonlinear_arith)
            requires
                pow10(0) == 1,
        ;
    } else {
        let shorter = b.drop_last();
        assert((a + b).drop_last() =~= a + shorter);
        assert((a + b).last() == b.last());
        lemma_digits_concat(a, shorter);
        let x = (b.last() - 48) as nat;
        let va = digits_value(a);
        let vs = digits_value(shorter);
        let w = pow10(shorter.len());
        assert(pow10(b.len()) == 10 * w);
        assert(10 * (va * w + vs) + x == va * (10 * w) + (10 * vs + x)) by (nonlinear_arith);
    }
}

pub proof fn lemma_zeros(n: nat)
    ensures
        digits_value(zeros(n)) == 0,
        all_digits(zeros(n)),
        zeros(n).len() == n,
    decreases n,
{
    if n > 0 {
        lemma_zeros((n - 1) as nat);
        assert(zeros(n).drop_last() =~= zeros((n - 1) as nat));
    }
}

pub proof fn lemma_all_digits_concat(a: Seq<u8>, b: Seq<u8>)
    ensures
        all_digits(a + b) == (all_digits(a) && all_digits(b)),
{
    let s = a + b;
    if all_digits(a) && all_digits(b) {
        assert forall|i: int| 0 <= i < s.len() implies is_digit(#[trigger] s[i]) by {
            if i < a.len() {
                assert(s[i] == a[i]);
            } else {
                assert(s[i] == b[i - a.len()]);
            }
        }
    }
    if all_digits(s) {
        assert forall|i: int| 0 <= i < a.len() implies is_digit(#[trigger] a[i]) by {
            assert(s[i] == a[i]);
        }
        assert forall|i: int| 0 <= i < b.len() implies is_digit(#[trigger] b[i]) by {
            assert(s[i + a.len()] == b[i]);
        }
    }
}

/// A run of digits ends where the digits end.
pub proof fn lemma_run_to(s: Seq<u8>, from: int, to: int)
    requires
        0 <= from <= to <= s.len(),
        forall|j: int| from <= j < to ==> is_digit(#[trigger] s[j]),
        to == s.len() || !is_digit(s[to]),
    ensures
        digit_run(s, from) == to,
    decreases to - from,
{
    if from < to {
        assert(is_digit(s[from]));
        lemma_run_to(s, from + 1, to);
    }
}

/// Digits alone are a number with the power of ten zero.
pub proof fn lemma_number_whole(a: Seq<u8>)
    requires
        a.len() > 0,
        all_digits(a),
    ensures
        number_text(a) == Some((digits_value(a), 0int)),
{
    lemma_run_to(a, 0, a.len() as int);
    assert(!has_point(a));
    assert(whole_digits(a) =~= a);
    assert(fraction_digits(a) =~= Seq::<u8>::empty());
    assert(whole_digits(a) + fraction_digits(a) =~= a);
}

/// Digits, a point and digits are a number whose power of ten is minus
/// the count of digits after the point.
pub proof fn lemma_number_pointed(a: Seq<u8>, b: Seq<u8>)
    requires
        a.len() > 0,
        all_digits(a),
        all_digits(b),
    ensures
        number_text(a + seq![46u8] + b) == Some((digits_value(a + b), -(b.len() as int))),
{
    let s = a + seq![46u8] + b;
    let n = a.len() as int;
    assert(s[n] == 46);
    assert forall|j: int| 0 <= j < n implies is_digit(#[trigger] s[j]) by {
        assert(s[j] == a[j]);
    }
    lemma_run_to(s, 0, n);
    assert(has_point(s));
    assert forall|j: int| n + 1 <= j < s.len() implies is_digit(#[trigger] s[j]) by {
        assert(s[j] == b[j - n - 1]);
    }
    lemma_run_to(s, n + 1, s.len() as int);
    assert(mantissa_end(s) == s.len());
    assert(whole_digits(s) =~= a);
    assert(fraction_digits(s) =~= b);
}

/// What is left of digits without the zeros at their end.
pub proof fn lemma_strip(s: Seq<u8>)
    requires
        s.len() >= 1,
        all_digits(s),
    ensures
        strip_zeros(s).len() >= 1,
        strip_zeros(s).len() <= s.len(),
        all_digits(strip_zeros(s)),
        s == strip_zeros(s) + zeros((s.len() - strip_zeros(s).len()) as nat),
    decreases s.len(),
{
    if s.len() > 1 && s.last() == 48 {
        let shorter = s.drop_last();
        assert forall|i: int| 0 <= i < shorter.len() implies is_digit(#[trigger] shorter[i]) by {
            assert(shorter[i] == s[i]);
        }
        lemma_strip(shorter);
        let t = strip_zeros(shorter);
        let z = (shorter.len() - t.len()) as nat;
        assert(s =~= t + zeros(z + 1)) by {
            assert(shorter == t + zeros(z));
            assert(s =~= shorter.push(48u8));
        }
    } else {
        assert(s =~= s + zeros(0));
    }
}

/// Moving a factor of ten between the digits and the power of ten of a
/// decimal number leaves the double that it stands for.
pub proof fn lemma_decimal_shift(c: nat, shift: nat, k: int)
    ensures
        decimal_nearest(c * pow10(shift), k) == decimal_nearest(c, k + shift),
{
    let w = pow2(1074);
    lemma_pow2_pos(1074);
    lemma_pow10_positive(shift);
    if k >= 0 {
        lemma_pow10_adds(shift, k as nat);
        assert((k + shift) as nat == shift + k as nat);
        assert(c * pow10(shift) * pow10(k as nat) * w == c * pow10((k + shift) as nat) * w)
            by (nonlinear_arith)
            requires
                pow10((k + shift) as nat) == pow10(shift) * pow10(k as nat),
        ;
    } else if k + shift >= 0 {
        let up = (k + shift) as nat;
        let down = (-k) as nat;
        lemma_pow10_adds(up, down);
        assert(up + down == shift);
        lemma_pow10_positive(down);
        let n = c * pow10(up) * w;
        assert(c * pow10(shift) * w == n * pow10(down)) by (nonlinear_arith)
            requires
                pow10(shift) == pow10(up) * pow10(down),
                n == c * pow10(up) * w,
        ;
        assert(1 * pow10(down) == pow10(down));
        law_nearest_scaling(n, 1, pow10(down));
    } else {
        let left = (-k - shift) as nat;
        let down = (-k) as nat;
        lemma_pow10_adds(left, shift);
        assert(left + shift == down);
        lemma_pow10_positive(left);
        let n = c * w;
        assert(c * pow10(shift) * w == n * pow10(shift)) by (nonlinear_arith)
            requires
                n == c * w,
        ;
        assert(pow10(down) == pow10(left) * pow10(shift));
        law_nearest_scaling(n, pow10(left), pow10(shift));
    }
}

/// The exact expansion of a double stands for that double.
pub proof fn lemma_expansion_fits(mag: u64)
    requires
        mag <= INFINITY_BITS,
    ensures
        decimal_nearest(expansion(mag), -1074) == mag,
{
    let u = units(mag);
    lemma_pow10_split(1074);
    lemma_pow10_positive(1074);
    assert(expansion(mag) * pow2(1074) == u * pow10(1074)) by (nonlinear_arith)
        requires
            expansion(mag) == u * pow5(1074),
            pow10(1074) == pow5(1074) * pow2(1074),
    ;
    assert(1 * pow10(1074) == pow10(1074));
    law_nearest_scaling(u, 1, pow10(1074));
    law_nearest_exact(mag);
}

/// The shortest decimal number for a double stands for that double.
pub proof fn lemma_shortest_fits(mag: u64, n: nat)
    requires
        mag <= INFINITY_BITS,
    ensures
        decimal_nearest(
            shortest(mag, expansion(mag), n).0,
            shortest(mag, expansion(mag), n).1,
        ) == mag,
    decreases 18 - n,
{
    let whole = expansion(mag);
    let all = decimal_digits(whole);
    if n >= all.len() || n > 17 {
        lemma_expansion_fits(mag);
    } else {
        let low = digits_value(all.take(n as int));
        let k = all.len() - n - 1074;
        let low_fits = decimal_nearest(low, k) == mag;
        let high_fits = decimal_nearest(low + 1, k) == mag;
        if high_fits && (!low_fits || all[n as int] >= 53) {
        } else if low_fits {
        } else {
            lemma_shortest_fits(mag, n + 1);
        }
    }
}

/// A byte of a number that is written without an exponent.
pub open spec fn is_number_byte(b: u8) -> bool {
    is_digit(b) || b == 46
}

pub open spec fn all_number_bytes(s: Seq<u8>) -> bool {
    forall|i: int| 0 <= i < s.len() ==> is_number_byte(#[trigger] s[i])
}

/// A number written without an exponent reads back as a number that
/// stands for the same double.
pub proof fn lemma_plain_reads_back(c: nat, k: int)
    ensures
        ({
            let text = plain(decimal_digits(c), k);
            &&& text.len() > 0
            &&& is_digit(text[0])
            &&& all_number_bytes(text)
            &&& match number_text(text) {
                Some(parts) => decimal_nearest(parts.0, parts.1) == decimal_nearest(c, k),
                None => false,
            }
        }),
{
    let s = decimal_digits(c);
    lemma_decimal_digits(c);
    lemma_strip(s);
    let body = strip_zeros(s);
    let m = body.len() as int;
    let t = (s.len() - body.len()) as nat;
    let point = s.len() + k;
    let text = positional(body, point);
    lemma_zeros(t);
    lemma_digits_concat(body, zeros(t));
    assert(c == digits_value(body) * pow10(t));
    let value = digits_value(body);
    lemma_decimal_shift(value, t, k);
    assert(point - m == k + t);
    if point <= 0 {
        let gap = zeros((-point) as nat);
        lemma_zeros((-point) as nat);
        let a = seq![48u8];
        let b = gap + body;
        assert(text =~= a + seq![46u8] + b);
        lemma_all_digits_concat(gap, body);
        assert(all_digits(a));
        lemma_number_pointed(a, b);
        lemma_digits_concat(gap, body);
        lemma_digits_concat(a, b);
        assert(a.drop_last() =~= Seq::<u8>::empty());
        assert(digits_value(a.drop_last()) == 0);
        assert(digits_value(a) == 0);
        assert(digits_value(gap) * pow10(body.len()) == 0) by (nonlinear_arith)
            requires
                digits_value(gap) == 0,
        ;
        assert(digits_value(a) * pow10(b.len()) == 0) by (nonlinear_arith)
            requires
                digits_value(a) == 0,
        ;
        assert(digits_value(a + b) == value);
        assert(-(b.len() as int) == point - m);
        assert(text[0] == 48);
        assert forall|i: int| 0 <= i < text.len() implies is_number_byte(#[trigger] text[i]) by {
            if i >= 2 {
                assert(text[i] == b[i - 2]);
                assert(is_digit(b[i - 2]));
            }
        }
    } else if point < m {
        let a = body.take(point);
        let b = body.skip(point);
        assert(a + b =~= body);
        lemma_all_digits_concat(a, b);
        lemma_number_pointed(a, b);
        assert(-(b.len() as int) == point - m);
        assert(text[0] == body[0]);
        assert(is_digit(body[0]));
        assert forall|i: int| 0 <= i < text.len() implies is_number_byte(#[trigger] text[i]) by {
            if i < point {
                assert(text[i] == body[i]);
                assert(is_digit(body[i]));
            } else if i > point {
                assert(text[i] == body[i - 1]);
                assert(is_digit(body[i - 1]));
            }
        }
    } else {
        let tail = zeros((point - m) as nat);
        lemma_zeros((point - m) as nat);
        lemma_all_digits_concat(body, tail);
        lemma_number_whole(text);
        lemma_digits_concat(body, tail);
        lemma_decimal_shift(value, (point - m) as nat, 0);
        assert(text[0] == body[0]);
        assert(is_digit(body[0]));
        assert forall|i: int| 0 <= i < text.len() implies is_number_byte(#[trigger] text[i]) by {
            assert(is_digit(text[i]));
        }
    }
}

/// A text that starts with a digit is none of the words for infinity and NaN.
proof fn lemma_not_special(text: Seq<u8>)
    requires
        text.len() > 0,
        is_digit(text[0]),
    ensures
        special_text(text) is None,
{
    let low = lowered(text);
    assert(low[0] == text[0]);
    assert(word_inf()[0] == 105);
    assert(word_infinity()[0] == 105);
    assert(word_nan()[0] == 110);
}

/// A pattern that is no NaN is its magnitude with its sign.
proof fn lemma_sign_and_magnitude(bits: u64)
    ensures
        with_sign(is_negative(bits), magnitude(bits)) == bits,
        magnitude(bits) < SIGN_BIT,
{
}

/// What the words for infinity and NaN read as.
proof fn lemma_special_words()
    ensures
        special_text(word_inf()) == Some(INFINITY_BITS),
        special_text(word_nan_mixed()) == Some(NAN_BITS),
{
    assert(lowered(word_inf()) =~= word_inf());
    assert(lowered(word_nan_mixed()) =~= word_nan());
    assert(word_nan().len() != word_inf().len() || word_nan()[0] != word_inf()[0]);
    assert(word_nan().len() != word_infinity().len());
}

/// The text of the magnitude of a double reads back as that magnitude,
/// and does not start with a sign.
proof fn lemma_magnitude_reads_back(mag: u64)
    requires
        mag <= INFINITY_BITS,
    ensures
        ({
            let body = if mag == INFINITY_BITS {
                word_inf()
            } else if mag == 0 {
                seq![48u8]
            } else {
                plain(
                    decimal_digits(shortest(mag, expansion(mag), 1).0),
                    shortest(mag, expansion(mag), 1).1,
                )
            };
            &&& body.len() > 0
            &&& body[0] != 43
            &&& body[0] != 45
            &&& all_plain(body)
            &&& all_ascii(body)
            &&& match special_text(body) {
                Some(m) => m == mag && m != NAN_BITS,
                None => match number_text(body) {
                    Some(parts) => decimal_nearest(parts.0, parts.1) == mag,
                    None => false,
                },
            }
        }),
{
    if mag == INFINITY_BITS {
        lemma_special_words();
        assert(word_inf()[0] == 105);
        assert(all_plain(word_inf()));
        assert(all_ascii(word_inf()));
    } else if mag == 0 {
        let body = seq![48u8];
        lemma_not_special(body);
        assert(all_digits(body));
        lemma_number_whole(body);
        assert(body.drop_last() =~= Seq::<u8>::empty());
        assert(digits_value(body.drop_last()) == 0);
        assert(digits_value(body) == 0);
        lemma_decimal_zero(0);
    } else {
        let best = shortest(mag, expansion(mag), 1);
        lemma_shortest_fits(mag, 1);
        lemma_plain_reads_back(best.0, best.1);
        let body = plain(decimal_digits(best.0), best.1);
        lemma_not_special(body);
        assert forall|i: int| 0 <= i < body.len() implies is_plain(#[trigger] body[i]) && body[i]
            < 128 by {
            assert(is_number_byte(body[i]));
        }
    }
}

/// A double that is written reads back as itself; a NaN reads back as
/// the NaN of the one pattern.
pub proof fn law_double_reads_back(bits: u64)
    ensures
        double_text(double_digits(bits)) == Some(canonical(bits)),
        all_plain(double_digits(bits)),
        all_ascii(double_digits(bits)),
        double_digits(bits).len() > 0,
{
    let text = double_digits(bits);
    if is_nan(bits) {
        lemma_special_words();
        assert(text == word_nan_mixed());
        assert(text[0] == 78);
        assert(all_plain(text));
        assert(all_ascii(text));
    } else {
        let mag = magnitude(bits);
        lemma_sign_and_magnitude(bits);
        lemma_magnitude_reads_back(mag);
        let body = if mag == INFINITY_BITS {
            word_inf()
        } else if mag == 0 {
            seq![48u8]
        } else {
            plain(
                decimal_digits(shortest(mag, expansion(mag), 1).0),
                shortest(mag, expansion(mag), 1).1,
            )
        };
        if is_negative(bits) {
            assert(text == seq![45u8] + body);
            assert(text[0] == 45);
            assert(text.skip(1) =~= body);
            assert forall|i: int| 0 <= i < text.len() implies is_plain(#[trigger] text[i])
                && text[i] < 128 by {
                if i > 0 {
                    assert(text[i] == body[i - 1]);
                    assert(is_plain(body[i - 1]));
                }
            }
        } else {
            assert(text == body);
        }
    }
}

/// A double whose text is no integer, written and read again as a token,
/// is the same double. (The text of a double without a fraction and within
/// the range of the 64-bit integers reads back as an integer.)
pub proof fn law_double_reads_back_as_token(bits: u64)
    requires
        long_text(double_digits(bits)) is None,
    ensures
        lexemes(encode_utf8(chars_of(double_digits(bits)))) == seq![
            Lexeme::DoubleLiteral(canonical(bits)),
        ],
{
    let text = double_digits(bits);
    law_double_reads_back(bits);
    lemma_ascii_bytes(text);
    law_one_word(text);
    assert(int_text(text) is None);
    assert(classify(text) == Lexeme::DoubleLiteral(canonical(bits)));
}

/// Whether a double is finite and no whole number.
pub open spec fn has_fraction(bits: u64) -> bool {
    magnitude(bits) < INFINITY_BITS && units(magnitude(bits)) % pow2(1074) != 0
}

/// A double with a fraction is written with a point, so its text is no
/// integer.
pub proof fn law_fraction_is_written_with_a_point(bits: u64)
    requires
        has_fraction(bits),
    ensures
        long_text(double_digits(bits)) is None,
        int_text(double_digits(bits)) is None,
{
    let text = double_digits(bits);
    let mag = magnitude(bits);
    lemma_sign_and_magnitude(bits);
    vstd::arithmetic::power2::lemma2_to64();
    assert(mag != 0) by {
        if mag == 0 {
            assert(units(0) == 0) by (nonlinear_arith)
                requires
                    units(0) == 0 * pow2(0),
            ;
            lemma_pow2_pos(1074);
            vstd::arithmetic::div_mod::lemma_small_mod(0, pow2(1074));
        }
    }
    let best = shortest(mag, expansion(mag), 1);
    let body = plain(decimal_digits(best.0), best.1);
    lemma_shortest_fits(mag, 1);
    lemma_plain_reads_back(best.0, best.1);
    if integer_text(text) is Some {
        if is_negative(bits) {
            assert(text == seq![45u8] + body);
            assert(text[0] == 45);
            assert(text.skip(1) =~= body);
        } else {
            assert(text == body);
            assert(is_digit(text[0]));
        }
        assert(all_digits(body));
        lemma_number_whole(body);
        let whole = digits_value(body);
        assert(decimal_nearest(whole, 0) == mag);
        assert(whole * pow10(0) * pow2(1074) == whole * pow2(1074)) by (nonlinear_arith)
            requires
                pow10(0) == 1,
        ;
        law_whole_rounds_to_whole(whole);
    }
}

/// A double with a fraction, written and read again as a token, is the
/// same double.
pub proof fn law_double_with_fraction_reads_back(bits: u64)
    requires
        has_fraction(bits),
    ensures
        lexemes(encode_utf8(chars_of(double_digits(bits)))) == seq![Lexeme::DoubleLiteral(bits)],
{
    law_fraction_is_written_with_a_point(bits);
    law_double_reads_back_as_token(bits);
}

} // verus!
