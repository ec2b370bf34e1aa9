//! Numbers written as text are read back as they were.
use crate::binary64::{
    lemma_rounded_exact, lemma_rounded_ratio, lemma_rounded_zero, one_unit, units, Binary64,
    INFINITY_BITS, NAN_BITS,
};
use crate::display::{
    floor_at, positional, shortest, shown, shown_magnitude, sign_text, zeros, BOTTOM_EXPONENT,
    TOP_EXPONENT,
};
use crate::number::{
    digit_value, digits_end, digits_value, fraction_end, has_minus, lemma_ten, lower, lowercase,
    number, rounded_decimal, ten, unsigned_number, unsigned_part,
};
use crate::text::{decimal, digit_char};
use vstd::arithmetic::power::{lemma_pow_adds, lemma_pow_distributes, lemma_pow_positive, pow};
use vstd::arithmetic::power2::{lemma_pow2, lemma_pow2_pos, pow2};
use vstd::prelude::*;

verus! {

/// Whether a character is a decimal digit.
pub open spec fn is_digit(c: char) -> bool {
    digit_value(c) is Some
}

/// Whether all characters are digits.
pub open spec fn all_digits(s: Seq<char>) -> bool {
    forall|i: int| 0 <= i < s.len() ==> is_digit(#[trigger] s[i])
}

proof fn lemma_digit(d: nat)
    requires
        d < 10,
    ensures
        digit_value(digit_char(d)) == Some(d),
{
}

/// A numeral has digits only, at least one.
pub proof fn lemma_decimal_digits(n: nat)
    ensures
        decimal(n).len() > 0,
        all_digits(decimal(n)),
    decreases n,
{
    if n >= 10 {
        lemma_decimal_digits(n / 10);
        lemma_digit(n % 10);
    } else {
        lemma_digit(n);
    }
}

/// The first digits, then the last one.
proof fn lemma_digits_value_split(s: Seq<char>, i: int, mid: int, end: int, acc: nat)
    requires
        i <= mid <= end,
    ensures
        digits_value(s, i, end, acc) == digits_value(s, mid, end, digits_value(s, i, mid, acc)),
    decreases mid - i,
{
    if i < mid {
        lemma_digits_value_split(
            s,
            i + 1,
            mid,
            end,
            acc * 10 + digit_value(s[i]).unwrap_or(0),
        );
    }
}

/// Only the characters between matter.
pub proof fn lemma_digits_value_same(s: Seq<char>, t: Seq<char>, i: int, j: int, n: nat, acc: nat)
    requires
        0 <= i,
        0 <= j,
        i + n <= s.len(),
        j + n <= t.len(),
        s.subrange(i, i + n) == t.subrange(j, j + n),
    ensures
        digits_value(s, i, i + n, acc) == digits_value(t, j, j + n, acc),
    decreases n,
{
    if n > 0 {
        assert(s[i] == s.subrange(i, i + n)[0]);
        assert(t[j] == t.subrange(j, j + n)[0]);
        assert(s.subrange(i + 1, i + 1 + (n - 1)) =~= s.subrange(i, i + n).skip(1));
        assert(t.subrange(j + 1, j + 1 + (n - 1)) =~= t.subrange(j, j + n).skip(1));
        lemma_digits_value_same(
            s,
            t,
            i + 1,
            j + 1,
            (n - 1) as nat,
            acc * 10 + digit_value(s[i]).unwrap_or(0),
        );
    }
}

/// A numeral stands for its number.
pub proof fn lemma_decimal_value(n: nat)
    ensures
        digits_value(decimal(n), 0, decimal(n).len() as int, 0) == n,
    decreases n,
{
    let s = decimal(n);
    if n < 10 {
        lemma_digit(n);
        assert(digits_value(s, 1, 1, n) == n);
    } else {
        lemma_decimal_value(n / 10);
        lemma_digit(n % 10);
        let t = decimal(n / 10);
        let k = t.len() as int;
        assert(s.subrange(0, 0 + k) =~= t.subrange(0, 0 + k));
        lemma_digits_value_same(s, t, 0, 0, k as nat, 0);
        lemma_digits_value_split(s, 0, k, k + 1, 0);
        assert(digits_value(s, k + 1, k + 1, (n / 10) * 10 + n % 10) == n);
    }
}

/// Where digits end.
pub proof fn lemma_digits_end(s: Seq<char>, i: int, k: int)
    requires
        0 <= i <= k <= s.len(),
        forall|j: int| i <= j < k ==> is_digit(#[trigger] s[j]),
        k < s.len() ==> !is_digit(s[k]),
    ensures
        digits_end(s, i) == k,
    decreases k - i,
{
    if i < k {
        lemma_digits_end(s, i + 1, k);
    }
}

/// Zeros behind digits multiply.
proof fn lemma_zeros_value(s: Seq<char>, i: int, n: nat, acc: nat)
    requires
        0 <= i,
        i + n <= s.len(),
        forall|j: int| i <= j < i + n ==> #[trigger] s[j] == '0',
    ensures
        digits_value(s, i, i + n, acc) == acc * ten(n as int),
    decreases n,
{
    if n == 0 {
        lemma_ten(0);
        assert(acc * 1 == acc);
    } else {
        lemma_zeros_value(s, i + 1, (n - 1) as nat, acc * 10);
        lemma_ten(n - 1);
        let t = ten(n - 1);
        assert((acc * 10) * t == acc * (10 * t)) by (nonlinear_arith);
    }
}

/// What is read from a number in positional notation.
proof fn lemma_positional(d: nat, e: int)
    requires
        d > 0,
    ensures
        unsigned_number(positional(d, e)) == Some(rounded_decimal(d, e)),
        positional(d, e).len() > 0,
        is_digit(positional(d, e)[0]),
{
    let digits = decimal(d);
    let n = digits.len() as int;
    let s = positional(d, e);
    let point = n + e;
    lemma_decimal_digits(d);
    lemma_decimal_value(d);
    reveal_strlit(".");
    reveal_strlit("0.");
    if e >= 0 {
        let end = s.len() as int;
        assert forall|j: int| 0 <= j < end implies is_digit(#[trigger] s[j]) by {
            if j < n {
                assert(s[j] == digits[j]);
            }
        }
        lemma_digits_end(s, 0, end);
        lemma_digits_value_split(s, 0, n, end, 0);
        assert(s.subrange(0, 0 + n) =~= digits.subrange(0, 0 + n));
        lemma_digits_value_same(s, digits, 0, 0, n as nat, 0);
        lemma_zeros_value(s, n, e as nat, d);
        assert(digits_value(s, 0, end, 0) == d * ten(e));
        lemma_ten(0);
        let v = d * ten(e);
        assert(v * ten(0) == v) by (nonlinear_arith)
            requires
                ten(0) == 1,
        ;
        assert(digits_value(s, end + 1, end, v) == v);
        assert(rounded_decimal(v, 0) == rounded_decimal(d, e));
        assert(s[0] == digits[0]);
    } else if point > 0 {
        let end = s.len() as int;
        assert(end == n + 1);
        assert(s[point] == '.');
        assert forall|j: int| 0 <= j < point implies is_digit(#[trigger] s[j]) by {
            assert(s[j] == digits[j]);
        }
        assert forall|j: int| point + 1 <= j < end implies is_digit(#[trigger] s[j]) by {
            assert(s[j] == digits[j - 1]);
        }
        lemma_digits_end(s, 0, point);
        lemma_digits_end(s, point + 1, end);
        assert(s.subrange(0, 0 + point) =~= digits.subrange(0, 0 + point));
        lemma_digits_value_same(s, digits, 0, 0, point as nat, 0);
        let head = digits_value(digits, 0, point, 0);
        let k = n - point;
        assert(s.subrange(point + 1, point + 1 + k) =~= digits.subrange(point, point + k));
        lemma_digits_value_same(s, digits, point + 1, point, k as nat, head);
        lemma_digits_value_split(digits, 0, point, n, 0);
        assert(fraction_end(s, point) == end);
        assert(s[0] == digits[0]);
    } else {
        let end = s.len() as int;
        let z = -point;
        assert(end == 2 + z + n);
        assert(s[0] == '0' && s[1] == '.');
        assert forall|j: int| 2 <= j < end implies is_digit(#[trigger] s[j]) by {
            if j < 2 + z {
                assert(s[j] == '0');
            } else {
                assert(s[j] == digits[j - 2 - z]);
            }
        }
        lemma_digits_end(s, 0, 1);
        lemma_digits_end(s, 2, end);
        assert(digits_value(s, 1, 1, 0) == 0);
        assert(digits_value(s, 0, 1, 0) == 0);
        lemma_digits_value_split(s, 2, 2 + z, end, 0);
        lemma_zeros_value(s, 2, z as nat, 0);
        assert(0 * ten(z) == 0) by (nonlinear_arith);
        assert(s.subrange(2 + z, 2 + z + n) =~= digits.subrange(0, 0 + n));
        lemma_digits_value_same(s, digits, 2 + z, 0, n as nat, 0);
        assert(fraction_end(s, 1) == end);
    }
}

/// Ten to a power is two to the power times five to the power.
proof fn lemma_ten_split(n: nat)
    ensures
        ten(n as int) == pow2(n) * pow(5, n),
        pow(5, n) > 0,
{
    lemma_pow_distributes(2, 5, n);
    lemma_pow2(n);
    lemma_pow_positive(5, n);
    lemma_ten(n as int);
}

/// Every double is a whole multiple of the smallest power of ten.
proof fn lemma_bottom(b: u64)
    requires
        b < INFINITY_BITS,
    ensures
        rounded_decimal(floor_at(b, BOTTOM_EXPONENT as int), BOTTOM_EXPONENT as int) == b,
{
    let u = units(b as int);
    let e = BOTTOM_EXPONENT as int;
    let top = TOP_EXPONENT as int;
    let one = one_unit();
    let t = ten(top);
    let five = pow(5, 1074) as nat;
    lemma_ten_split(1074);
    lemma_ten(top);
    lemma_pow_adds(10, 342, 1074);
    lemma_ten(top + 1074);
    lemma_ten(1074);
    lemma_pow2_pos(1074);
    assert(ten(top - e) == t * ten(1074));
    assert(ten(1074) == one * five);
    assert(u * (t * (one * five)) == (u * five) * (one * t)) by (nonlinear_arith);
    assert(one * t > 0) by (nonlinear_arith)
        requires
            one > 0,
            t > 0,
    ;
    vstd::arithmetic::div_mod::lemma_div_multiples_vanish((u * five) as int, (one * t) as int);
    assert(((u * five) * (one * t)) / (one * t) == u * five) by {
        vstd::arithmetic::mul::lemma_mul_is_commutative((u * five) as int, (one * t) as int);
    }
    assert(floor_at(b, e) == u * five);
    assert((u * five) * one == u * (one * five)) by (nonlinear_arith);
    assert(one * five > 0) by (nonlinear_arith)
        requires
            one > 0,
            five > 0,
    ;
    lemma_rounded_ratio(u, 1, one * five);
    assert(1 * (one * five) == one * five) by (nonlinear_arith);
    lemma_rounded_exact(b);
}

/// The shortest text is rounded to the double.
pub proof fn lemma_shortest(b: u64, e: int)
    requires
        b < INFINITY_BITS,
        e >= BOTTOM_EXPONENT,
    ensures
        rounded_decimal(shortest(b, e).0, shortest(b, e).1) == b,
    decreases e - BOTTOM_EXPONENT,
{
    if e <= BOTTOM_EXPONENT {
        lemma_bottom(b);
    } else {
        lemma_shortest(b, e - 1);
    }
}

/// Nothing times a power of ten is rounded to zero.
proof fn lemma_zero_decimal(e: int)
    ensures
        rounded_decimal(0, e) == 0,
{
    assert(0 * ten(e) * one_unit() == 0) by (nonlinear_arith);
    assert(0 * one_unit() == 0) by (nonlinear_arith);
    if e >= 0 {
        lemma_rounded_zero(1);
    } else {
        lemma_ten(-e);
        lemma_rounded_zero(ten(-e));
    }
}

/// A text that starts with a digit spells no word.
proof fn lemma_not_a_word(s: Seq<char>)
    requires
        s.len() > 0,
        is_digit(s[0]),
    ensures
        lowercase(s) != "inf"@,
        lowercase(s) != "infinity"@,
        lowercase(s) != "nan"@,
        unsigned_part(s) == s,
        !has_minus(s),
{
    reveal_strlit("inf");
    reveal_strlit("infinity");
    reveal_strlit("nan");
    assert(lowercase(s)[0] == lower(s[0]));
}

/// A double written out is read back as it was. Of the bit patterns that are
/// no number one is read back.
pub proof fn lemma_number_shown(x: Binary64)
    requires
        !x.nan() || x.bits == NAN_BITS,
    ensures
        number(shown(x)) == Some(x),
{
    let b = x.unsigned_bits();
    let s = shown_magnitude(b);
    let t = shown(x);
    reveal_strlit("-");
    if b >= INFINITY_BITS {
        reveal_strlit("NaN");
        reveal_strlit("inf");
        reveal_strlit("infinity");
        reveal_strlit("nan");
        if b == INFINITY_BITS {
            assert(lowercase("inf"@) =~= "inf"@);
            if x.negative() {
                assert(t.skip(1) =~= "inf"@);
            } else {
                assert(t =~= "inf"@);
            }
        } else {
            assert(lowercase("NaN"@) =~= "nan"@);
            assert(t =~= "NaN"@);
            assert("nan"@[0] != "inf"@[0]);
            assert("nan"@[0] != "infinity"@[0]);
        }
    } else {
        lemma_magnitude(b);
        lemma_not_a_word(s);
        if x.negative() {
            assert(t.skip(1) =~= s);
            assert(unsigned_part(t) == s);
        } else {
            assert(t =~= s);
        }
    }
}

proof fn lemma_magnitude(b: u64)
    requires
        b < INFINITY_BITS,
    ensures
        unsigned_number(shown_magnitude(b)) == Some(b),
        shown_magnitude(b).len() > 0,
        is_digit(shown_magnitude(b)[0]),
{
    if b == 0 {
        let s = "0"@;
        reveal_strlit("0");
        lemma_digits_end(s, 0, 1);
        assert(digits_value(s, 1, 1, 0) == 0);
        assert(digits_value(s, 0, 1, 0) == 0);
        assert(digits_value(s, 2, 1, 0) == 0);
        lemma_zero_decimal(0);
    } else {
        let (d, e) = shortest(b, TOP_EXPONENT as int);
        lemma_shortest(b, TOP_EXPONENT as int);
        lemma_zero_decimal(e);
        lemma_positional(d, e);
    }
}

/// Whether a character occurs in written doubles.
pub open spec fn number_char(c: char) -> bool {
    is_digit(c) || c == '.' || c == '-' || c == 'i' || c == 'n' || c == 'f' || c == 'N' || c == 'a'
}

pub open spec fn all_number_chars(s: Seq<char>) -> bool {
    forall|i: int| 0 <= i < s.len() ==> number_char(#[trigger] s[i])
}

/// A written double holds only such characters, and it is not empty.
pub proof fn lemma_shown_chars(x: Binary64)
    ensures
        all_number_chars(shown(x)),
        shown(x).len() > 0,
{
    let b = x.unsigned_bits();
    reveal_strlit("-");
    reveal_strlit("NaN");
    reveal_strlit("inf");
    reveal_strlit("0");
    reveal_strlit("0.");
    reveal_strlit(".");
    let s = shown_magnitude(b);
    assert(all_number_chars(s) && s.len() > 0) by {
        if 0 < b < INFINITY_BITS {
            let (d, e) = shortest(b, TOP_EXPONENT as int);
            lemma_decimal_digits(d);
            let digits = decimal(d);
            let point = digits.len() + e;
            assert(all_number_chars(digits)) by {
                assert forall|i: int| 0 <= i < digits.len() implies number_char(#[trigger] digits[i]) by {
                    assert(is_digit(digits[i]));
                }
            }
            assert(all_number_chars(zeros(e)));
            assert(all_number_chars(zeros(-point)));
            if e < 0 && point > 0 {
                assert(all_number_chars(digits.take(point)));
                assert(all_number_chars(digits.skip(point)));
            }
        }
    }
    assert(all_number_chars(sign_text(x)));
}

} // verus!
