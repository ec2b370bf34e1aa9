//! Doubles written as decimal text.
use crate::bignat::BigNat;
use crate::binary64::{
    lemma_nearest_exists, lemma_rounded, lemma_units_increase, lemma_units_step, nearest, one_unit,
    scale, significand, units, units_of, Binary64, INFINITY_BITS,
};
use crate::number::{lemma_ten, lemma_top, round_decimal, rounded_decimal, ten, ten_of};
use crate::text::{decimal, digit_char};
use vstd::arithmetic::power::lemma_pow_adds;
use vstd::arithmetic::power2::{lemma_pow2_pos, pow2};
use vstd::prelude::*;

verus! {

/// The largest power of ten that is tried; beyond the largest double.
pub const TOP_EXPONENT: i32 = 342;

/// The smallest; every double is a whole multiple of it.
pub const BOTTOM_EXPONENT: i32 = -1074;

/// How many times `10^e` goes into the double with the bit pattern `b`.
pub open spec fn floor_at(b: u64, e: int) -> nat {
    (units(b as int) * ten(TOP_EXPONENT - e)) / (one_unit() * ten(TOP_EXPONENT as int))
}

/// Whether the double is at most halfway from `floor_at(b, e)` to the next
/// multiple of `10^e`.
pub open spec fn lower_half(b: u64, e: int) -> bool {
    2 * (units(b as int) * ten(TOP_EXPONENT - e)) <= (2 * floor_at(b, e) + 1) * (one_unit() * ten(
        TOP_EXPONENT as int,
    ))
}

/// The shortest decimal number `d * 10^x` with `x <= e` that is rounded to
/// the double with the bit pattern `b`: a multiple of the largest possible
/// power of ten next to it, and the closer of two.
pub open spec fn shortest(b: u64, e: int) -> (nat, int)
    decreases e - BOTTOM_EXPONENT,
{
    let lo = floor_at(b, e);
    let lo_fits = rounded_decimal(lo, e) == b;
    let hi_fits = rounded_decimal(lo + 1, e) == b;
    if lo_fits && (!hi_fits || lower_half(b, e)) {
        (lo, e)
    } else if hi_fits {
        (lo + 1, e)
    } else if e <= BOTTOM_EXPONENT {
        (lo, e)
    } else {
        shortest(b, e - 1)
    }
}

/// `n` times the digit zero.
pub open spec fn zeros(n: int) -> Seq<char> {
    Seq::new(n as nat, |i: int| '0')
}

/// The number `d * 10^e` in positional notation.
pub open spec fn positional(d: nat, e: int) -> Seq<char> {
    let digits = decimal(d);
    let point = digits.len() + e;
    if e >= 0 {
        digits + zeros(e)
    } else if point > 0 {
        digits.take(point) + "."@ + digits.skip(point)
    } else {
        "0."@ + zeros(-point) + digits
    }
}

/// The number `d * 10^e` with one digit before the point and an exponent.
pub open spec fn scientific(d: nat, e: int) -> Seq<char> {
    let digits = decimal(d);
    let x = digits.len() + e - 1;
    digits.take(1) + (if digits.len() > 1 {
        "."@ + digits.skip(1)
    } else {
        Seq::empty()
    }) + "e"@ + (if x < 0 {
        "-"@ + decimal((-x) as nat)
    } else {
        decimal(x as nat)
    })
}

pub open spec fn sign_text(x: Binary64) -> Seq<char> {
    if x.negative() && !x.nan() {
        "-"@
    } else {
        Seq::empty()
    }
}

/// A nonnegative double in positional notation, as short as it can be.
pub open spec fn shown_magnitude(b: u64) -> Seq<char> {
    if b > INFINITY_BITS {
        "NaN"@
    } else if b == INFINITY_BITS {
        "inf"@
    } else if b == 0 {
        "0"@
    } else {
        positional(shortest(b, TOP_EXPONENT as int).0, shortest(b, TOP_EXPONENT as int).1)
    }
}

/// The text of a double, as std's `{}` writes it.
pub open spec fn shown(x: Binary64) -> Seq<char> {
    sign_text(x) + shown_magnitude(x.unsigned_bits())
}

/// The bit pattern of `1e16`.
pub const LARGE_BITS: u64 = 0x4341_c379_37e0_8000;

/// The bit pattern of `1e-4`.
pub const SMALL_BITS: u64 = 0x3f1a_36e2_eb1c_432d;

/// A nonnegative double as std's `{:?}` writes it.
pub open spec fn debug_magnitude(b: u64) -> Seq<char> {
    if b >= INFINITY_BITS {
        shown_magnitude(b)
    } else if b == 0 {
        "0.0"@
    } else {
        let d = shortest(b, TOP_EXPONENT as int).0;
        let e = shortest(b, TOP_EXPONENT as int).1;
        if b >= LARGE_BITS || b < SMALL_BITS {
            scientific(d, e)
        } else if e >= 0 {
            positional(d, e) + ".0"@
        } else {
            positional(d, e)
        }
    }
}

/// The text of a double, as std's `{:?}` writes it.
pub open spec fn debugged(x: Binary64) -> Seq<char> {
    sign_text(x) + debug_magnitude(x.unsigned_bits())
}

/// The nearest whole number of hundredths, ties to even.
pub open spec fn hundredths(b: u64) -> nat {
    let n = units(b as int) * 100;
    let q = n / one_unit();
    let r = n % one_unit();
    if 2 * r > one_unit() || (2 * r == one_unit() && q % 2 == 1) {
        q + 1
    } else {
        q
    }
}

/// The text of a double with two decimal places, as std's `{:.2}` writes it.
pub open spec fn fixed(x: Binary64) -> Seq<char> {
    let b = x.unsigned_bits();
    sign_text(x) + (if b >= INFINITY_BITS {
        shown_magnitude(b)
    } else {
        let n = hundredths(b);
        decimal(n / 100) + "."@ + seq![digit_char(n / 10 % 10), digit_char(n % 10)]
    })
}

proof fn lemma_decimal_len(n: nat)
    ensures
        decimal(n).len() >= 1,
    decreases n,
{
    if n >= 10 {
        lemma_decimal_len(n / 10);
    }
}

/// A power of ten more than twice as large is not rounded to the double.
proof fn lemma_too_coarse(b: u64, e: int)
    requires
        0 < b < INFINITY_BITS,
        BOTTOM_EXPONENT <= e <= TOP_EXPONENT,
        2 * (units(b as int) * ten(TOP_EXPONENT - e)) < one_unit() * ten(TOP_EXPONENT as int),
    ensures
        floor_at(b, e) == 0,
        rounded_decimal(0, e) != b,
        rounded_decimal(1, e) != b,
{
    let u = units(b as int);
    let v = units(b + 1);
    let one = one_unit();
    let m = one * ten(TOP_EXPONENT as int);
    lemma_pow2_pos(1074);
    lemma_ten(TOP_EXPONENT - e);
    lemma_ten(TOP_EXPONENT as int);
    assert(m > 0) by (nonlinear_arith)
        requires
            m == one * ten(TOP_EXPONENT as int),
            one > 0,
            ten(TOP_EXPONENT as int) > 0,
    ;
    vstd::arithmetic::div_mod::lemma_basic_div(
        (u * ten(TOP_EXPONENT - e)) as int,
        m as int,
    );
    lemma_top();
    lemma_units_step(b as int);
    lemma_units_increase(0, b as int);
    // The next double is at most twice as large.
    assert(v <= 2 * u) by {
        let s = significand(b as int);
        let p = pow2(scale(b as int));
        assert(s >= 1) by {
            if s == 0 {
                assert(0 * p == 0);
            }
        }
        assert(p <= s * p) by (nonlinear_arith)
            requires
                s >= 1,
                p >= 0,
        ;
    }
    if e >= 0 {
        let t = ten(e);
        lemma_ten(e);
        lemma_pow_adds(10, e as nat, (TOP_EXPONENT - e) as nat);
        let c = ten(TOP_EXPONENT - e);
        assert(ten(TOP_EXPONENT as int) == t * c);
        assert(2 * u < one * t) by (nonlinear_arith)
            requires
                2 * (u * c) < one * (t * c),
                c > 0,
        ;
        assert(one * t == 1 * t * one) by (nonlinear_arith);
        lemma_nearest_exists(1 * t * one, 1);
        assert(!nearest(1 * t * one, 1, b as int));
        assert(0 * t * one == 0) by (nonlinear_arith);
        assert(nearest(0, 1, 0));
        lemma_rounded(0, 1, 0);
    } else {
        let t = ten(-e);
        lemma_ten(-e);
        lemma_pow_adds(10, TOP_EXPONENT as nat, (-e) as nat);
        let c = ten(TOP_EXPONENT as int);
        assert(ten(TOP_EXPONENT - e) == c * t);
        assert(2 * (u * t) < one) by (nonlinear_arith)
            requires
                2 * (u * (c * t)) < one * c,
                c > 0,
        ;
        lemma_nearest_exists(1 * one, t);
        assert(t * (u + v) <= 3 * (u * t)) by (nonlinear_arith)
            requires
                v <= 2 * u,
                t > 0,
        ;
        assert(!nearest(1 * one, t, b as int));
        assert(0 * one == 0);
        assert(t * 1 == t);
        assert(nearest(0, t, 0));
        lemma_rounded(0, t, 0);
    }
}

/// The next lower power of ten adds one digit.
proof fn lemma_next_digit(b: u64, e: int)
    requires
        BOTTOM_EXPONENT < e <= TOP_EXPONENT,
    ensures
        ({
            let m = one_unit() * ten(TOP_EXPONENT as int);
            let n = units(b as int) * ten(TOP_EXPONENT - e);
            &&& m > 0
            &&& units(b as int) * ten(TOP_EXPONENT - (e - 1)) == 10 * n
            &&& n == floor_at(b, e) * m + n % m
            &&& floor_at(b, e - 1) == 10 * floor_at(b, e) + (10 * (n % m)) / m
            &&& (10 * n) % m == (10 * (n % m)) % m
            &&& (10 * (n % m)) / m < 10
        }),
{
    let one = one_unit();
    let u = units(b as int);
    let t = ten(TOP_EXPONENT as int);
    let m = one * t;
    let n = u * ten(TOP_EXPONENT - e);
    lemma_pow2_pos(1074);
    lemma_ten(TOP_EXPONENT - e);
    lemma_ten(TOP_EXPONENT as int);
    assert(m > 0) by (nonlinear_arith)
        requires
            m == one * t,
            one > 0,
            t > 0,
    ;
    assert(u * (10 * ten(TOP_EXPONENT - e)) == 10 * n) by (nonlinear_arith)
        requires
            n == u * ten(TOP_EXPONENT - e),
    ;
    let q = n / m;
    let r = n % m;
    vstd::arithmetic::div_mod::lemma_fundamental_div_mod(n as int, m as int);
    assert(m * q == q * m) by (nonlinear_arith);
    let q2 = (10 * r) / m;
    let r2 = (10 * r) % m;
    vstd::arithmetic::div_mod::lemma_fundamental_div_mod((10 * r) as int, m as int);
    assert(10 * n == (10 * q + q2) * m + r2) by (nonlinear_arith)
        requires
            n == q * m + r,
            10 * r == m * q2 + r2,
    ;
    vstd::arithmetic::div_mod::lemma_mod_bound((10 * r) as int, m as int);
    vstd::arithmetic::div_mod::lemma_fundamental_div_mod_converse(
        (10 * n) as int,
        m as int,
        (10 * q + q2) as int,
        r2 as int,
    );
    assert(q2 < 10) by (nonlinear_arith)
        requires
            10 * r == m * q2 + r2,
            r < m,
            r2 >= 0,
            m > 0,
    ;
}

/// The shortest decimal number that is rounded to a positive finite double,
/// and the power of ten that scales it.
fn find_shortest(b: u64) -> (r: (BigNat, i32))
    requires
        0 < b < INFINITY_BITS,
    ensures
        (r.0@, r.1 as int) == shortest(b, TOP_EXPONENT as int),
        BOTTOM_EXPONENT <= r.1 <= TOP_EXPONENT,
{
    let top = ten_of(342);
    let whole = scaled(&top);
    let one = BigNat::from_u128(1);
    let mut rest = units_of(b);
    let mut lo = BigNat::zero();
    let mut e: i32 = TOP_EXPONENT;
    let mut digits: usize = 0;
    let ghost big = one_unit() * ten(TOP_EXPONENT as int);
    proof {
        lemma_start(b);
        lemma_ten(0);
    }
    loop
        invariant
            0 < b < INFINITY_BITS,
            BOTTOM_EXPONENT <= e <= TOP_EXPONENT,
            one@ == 1,
            big == one_unit() * ten(TOP_EXPONENT as int),
            big > 0,
            whole@ == big,
            lo@ == floor_at(b, e as int),
            rest@ == (units(b as int) * ten(TOP_EXPONENT - e)) % big,
            units(b as int) * ten(TOP_EXPONENT - e) == lo@ * big + rest@,
            lo@ < ten(digits as int),
            digits == TOP_EXPONENT - e,
            shortest(b, TOP_EXPONENT as int) == shortest(b, e as int),
        decreases e - BOTTOM_EXPONENT,
    {
        let twice = rest.plus(&rest);
        let (small, exact) = twice.compare(&whole);
        let nothing = lo.is_zero();
        let mut check = true;
        if nothing && small {
            proof {
                assert(0 * big == 0);
                lemma_too_coarse(b, e as int);
            }
            check = false;
        }
        if check {
            let hi = lo.plus(&one);
            proof {
                lemma_ten(digits as int);
            }
            let lo_fits = round_decimal(&lo, e as i128, digits) == b;
            let hi_fits = round_decimal(&hi, e as i128, digits + 1) == b;
            proof {
                assert(lower_half(b, e as int) == (small || exact)) by (nonlinear_arith)
                    requires
                        lower_half(b, e as int) == (2 * (units(b as int) * ten(TOP_EXPONENT - e)) <= (
                        2 * floor_at(b, e as int) + 1) * big),
                        units(b as int) * ten(TOP_EXPONENT - e) == lo@ * big + rest@,
                        lo@ == floor_at(b, e as int),
                        (small || exact) == (2 * rest@ <= big),
                ;
            }
            if lo_fits && (!hi_fits || small || exact) {
                return (lo, e);
            }
            if hi_fits {
                return (hi, e);
            }
        }
        if e == BOTTOM_EXPONENT {
            return (lo, e);
        }
        proof {
            lemma_next_digit(b, e as int);
            lemma_ten(digits as int);
        }
        let ten_rest = rest.times(10);
        let (q, r) = ten_rest.divided_small(&whole);
        proof {
            assert(10 * lo@ == lo@ * 10);
            assert(rest@ * 10 == 10 * rest@);
            vstd::arithmetic::div_mod::lemma_fundamental_div_mod(
                (units(b as int) * ten(TOP_EXPONENT - (e - 1))) as int,
                big as int,
            );
            let f = floor_at(b, e - 1);
            assert(big * f == f * big) by (nonlinear_arith);
        }
        lo = lo.times(10).plus(&BigNat::from_u128(q as u128));
        rest = r;
        e = e - 1;
        digits = digits + 1;
    }
}

proof fn lemma_start(b: u64)
    requires
        0 < b < INFINITY_BITS,
    ensures
        one_unit() * ten(TOP_EXPONENT as int) > 0,
        floor_at(b, TOP_EXPONENT as int) == 0,
        units(b as int) * ten(0) == units(b as int),
        units(b as int) % (one_unit() * ten(TOP_EXPONENT as int)) == units(b as int),
{
    lemma_ten(0);
    lemma_top();
    lemma_units_increase(b as int, INFINITY_BITS as int);
    crate::number::lemma_ten_large(114);
    vstd::arithmetic::power2::lemma_pow2_adds(1024, 2);
    vstd::arithmetic::power2::lemma2_to64();
    vstd::arithmetic::power2::lemma_pow2_adds(1024, 1074);
    lemma_pow2_pos(1074);
    lemma_pow2_pos(1024);
    let t = ten(342);
    let one = one_unit();
    let p = pow2(1024);
    assert(one * t >= p * one) by (nonlinear_arith)
        requires
            t >= p,
            one > 0,
    ;
    let u = units(b as int);
    vstd::arithmetic::div_mod::lemma_basic_div(u as int, (one * t) as int);
    vstd::arithmetic::div_mod::lemma_small_mod(u, one * t);
    assert(u * 1 == u);
}

fn scaled(top: &BigNat) -> (r: BigNat)
    ensures
        r@ == one_unit() * top@,
{
    assert(top@ * pow2(1074) == one_unit() * top@) by (nonlinear_arith)
        requires
            one_unit() == pow2(1074),
    ;
    top.shifted(1074)
}


fn push_zeros(s: &mut String, n: usize)
    ensures
        final(s)@ == old(s)@ + zeros(n as int),
{
    let ghost start = s@;
    let mut i: usize = 0;
    assert(s@ =~= start + zeros(0));
    while i < n
        invariant
            0 <= i <= n,
            s@ == start + zeros(i as int),
        decreases n - i,
    {
        s.push('0');
        i = i + 1;
        assert(s@ =~= start + zeros(i as int));
    }
}

fn push_part(s: &mut String, chars: &Vec<char>, from: usize, to: usize)
    requires
        from <= to <= chars.len(),
    ensures
        final(s)@ == old(s)@ + chars@.subrange(from as int, to as int),
{
    let ghost start = s@;
    let mut i: usize = from;
    assert(s@ =~= start + chars@.subrange(from as int, from as int));
    while i < to
        invariant
            from <= i <= to <= chars.len(),
            s@ == start + chars@.subrange(from as int, i as int),
        decreases to - i,
    {
        s.push(chars[i]);
        i = i + 1;
        assert(s@ =~= start + chars@.subrange(from as int, i as int));
    }
}

fn numeral(d: &BigNat) -> (r: Vec<char>)
    ensures
        r@ == decimal(d@),
{
    let mut text = String::new();
    d.push_decimal(&mut text);
    assert(text@ =~= decimal(d@));
    crate::text::chars_of(text.as_str())
}

fn push_positional(s: &mut String, d: &BigNat, e: i32)
    requires
        BOTTOM_EXPONENT <= e <= TOP_EXPONENT,
    ensures
        final(s)@ == old(s)@ + positional(d@, e as int),
{
    let ghost start = s@;
    let digits = numeral(d);
    let n: usize = digits.len();
    if e >= 0 {
        push_part(s, &digits, 0, n);
        push_zeros(s, e as usize);
        proof {
            assert(digits@.subrange(0, n as int) =~= digits@);
            assert(s@ =~= start + positional(d@, e as int));
        }
    } else {
        let places: usize = (-e) as usize;
        if n > places {
            let point: usize = n - places;
            push_part(s, &digits, 0, point);
            s.append(".");
            push_part(s, &digits, point, n);
            proof {
                assert(digits@.subrange(0, point as int) =~= digits@.take(point as int));
                assert(digits@.subrange(point as int, n as int) =~= digits@.skip(point as int));
                assert(s@ =~= start + positional(d@, e as int));
            }
        } else {
            s.append("0.");
            push_zeros(s, places - n);
            push_part(s, &digits, 0, n);
            proof {
                assert(digits@.subrange(0, n as int) =~= digits@);
                assert(s@ =~= start + positional(d@, e as int));
            }
        }
    }
}

fn push_scientific(s: &mut String, d: &BigNat, e: i32)
    requires
        BOTTOM_EXPONENT <= e <= TOP_EXPONENT,
    ensures
        final(s)@ == old(s)@ + scientific(d@, e as int),
{
    let ghost start = s@;
    let digits = numeral(d);
    let n: usize = digits.len();
    proof {
        lemma_decimal_len(d@);
    }
    push_part(s, &digits, 0, 1);
    assert(digits@.subrange(0, 1) =~= digits@.take(1));
    let ghost a = s@;
    if n > 1 {
        s.append(".");
        push_part(s, &digits, 1, n);
        assert(digits@.subrange(1, n as int) =~= digits@.skip(1));
    }
    let ghost b = if n > 1 { "."@ + digits@.skip(1) } else { Seq::empty() };
    assert(s@ =~= a + b);
    s.append("e");
    let ghost c = s@;
    let x: i128 = n as i128 + e as i128 - 1;
    if x < 0 {
        s.append("-");
        crate::text::push_decimal(s, (-x) as u128);
        assert(s@ =~= c + ("-"@ + decimal((-x) as nat)));
    } else {
        crate::text::push_decimal(s, x as u128);
    }
    assert(s@ =~= start + scientific(d@, e as int));
}

impl Binary64 {
    /// Appends the text of the double, as short as it can be.
    pub fn push_shown(self, s: &mut String)
        ensures
            final(s)@ == old(s)@ + shown(self),
    {
        let ghost start = s@;
        let b = self.magnitude_bits();
        if self.is_negative() && !self.is_nan() {
            s.append("-");
        }
        let ghost signed_start = s@;
        assert(signed_start =~= start + sign_text(self));
        if b > INFINITY_BITS {
            s.append("NaN");
        } else if b == INFINITY_BITS {
            s.append("inf");
        } else if b == 0 {
            s.append("0");
        } else {
            let (d, e) = find_shortest(b);
            push_positional(s, &d, e);
        }
        assert(s@ =~= start + shown(self));
    }

    /// Appends the text of the double in the form used for debugging.
    pub fn push_debug(self, s: &mut String)
        ensures
            final(s)@ == old(s)@ + debugged(self),
    {
        let ghost start = s@;
        let b = self.magnitude_bits();
        if self.is_negative() && !self.is_nan() {
            s.append("-");
        }
        let ghost signed_start = s@;
        assert(signed_start =~= start + sign_text(self));
        if b > INFINITY_BITS {
            s.append("NaN");
        } else if b == INFINITY_BITS {
            s.append("inf");
        } else if b == 0 {
            s.append("0.0");
        } else {
            let (d, e) = find_shortest(b);
            if b >= LARGE_BITS || b < SMALL_BITS {
                push_scientific(s, &d, e);
            } else {
                push_positional(s, &d, e);
                if e >= 0 {
                    s.append(".0");
                }
            }
        }
        assert(s@ =~= start + debugged(self));
    }

    /// Appends the text of the double with two decimal places.
    pub fn push_fixed(self, s: &mut String)
        ensures
            final(s)@ == old(s)@ + fixed(self),
    {
        let ghost start = s@;
        let b = self.magnitude_bits();
        if self.is_negative() && !self.is_nan() {
            s.append("-");
        }
        let ghost signed_start = s@;
        assert(signed_start =~= start + sign_text(self));
        if b > INFINITY_BITS {
            s.append("NaN");
        } else if b == INFINITY_BITS {
            s.append("inf");
        } else {
            let one = BigNat::from_u128(1).shifted(1074);
            proof {
                assert(1 * pow2(1074) == pow2(1074));
                lemma_pow2_pos(1074);
            }
            let (q, r) = units_of(b).times(100).divided(&one);
            let (less, equal) = one.compare(&r.plus(&r));
            let (_half, odd) = q.divided(&BigNat::from_u128(2));
            let up = less || (equal && !odd.is_zero());
            let n = if up {
                q.plus(&BigNat::from_u128(1))
            } else {
                q
            };
            let (whole, _part) = n.divided(&BigNat::from_u128(100));
            let (tens, _x) = n.divided(&BigNat::from_u128(10));
            let (_y, t) = tens.divided(&BigNat::from_u128(10));
            let (_z, u) = n.divided(&BigNat::from_u128(10));
            whole.push_decimal(s);
            s.append(".");
            push_small(s, &t);
            push_small(s, &u);
            assert(seq![digit_char(t@), digit_char(u@)] =~= seq![digit_char(t@)] + seq![digit_char(u@)]);
        }
        assert(s@ =~= start + fixed(self));
    }
}

/// Appends a number below ten.
fn push_small(s: &mut String, d: &BigNat)
    requires
        d@ < 10,
    ensures
        final(s)@ == old(s)@ + seq![digit_char(d@)],
{
    d.push_decimal(s);
}

} // verus!
