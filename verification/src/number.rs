//! Doubles as decimal text.
use crate::bignat::BigNat;
use crate::binary64::{
    lemma_rounded, lemma_units_increase, nearest, one_unit, round_ratio, rounded, scale, signed,
    significand, units, Binary64, INFINITY_BITS, NAN_BITS, SIGN_BIT,
};
use vstd::arithmetic::power::{lemma_pow_adds, lemma_pow_increases, lemma_pow_positive, pow};
use vstd::arithmetic::power2::{lemma_pow2_adds, lemma_pow2_pos, pow2};
use vstd::prelude::*;

verus! {

/// A power of ten.
pub open spec fn ten(e: int) -> nat {
    pow(10, e as nat) as nat
}

/// The bit pattern of the double nearest to `d * 10^e`.
pub open spec fn rounded_decimal(d: nat, e: int) -> u64 {
    if e >= 0 {
        rounded(d * ten(e) * one_unit(), 1)
    } else {
        rounded(d * one_unit(), ten(-e))
    }
}

pub proof fn lemma_ten(e: int)
    requires
        e >= 0,
    ensures
        ten(e) > 0,
        ten(e + 1) == 10 * ten(e),
        ten(0) == 1,
        ten(e) as int == pow(10, e as nat),
{
    lemma_pow_positive(10, e as nat);
    vstd::arithmetic::power::lemma_pow0(10);
    vstd::arithmetic::power::lemma_pow1(10);
    lemma_pow_adds(10, 1, e as nat);
}

pub fn ten_of(e: u128) -> (r: BigNat)
    ensures
        r@ == ten(e as int),
{
    let mut p = BigNat::from_u128(1);
    let mut i: u128 = 0;
    proof {
        lemma_ten(0);
    }
    while i < e
        invariant
            0 <= i <= e,
            p@ == ten(i as int),
        decreases e - i,
    {
        proof {
            lemma_ten(i as int);
            assert(ten(i as int) * 10 == 10 * ten(i as int));
        }
        p = p.times(10);
        i = i + 1;
    }
    p
}

/// Three decimal digits hold at least nine bits.
pub proof fn lemma_ten_large(k: nat)
    ensures
        ten(3 * k as int) >= pow2(9 * k),
    decreases k,
{
    if k == 0 {
        lemma_ten(0);
        vstd::arithmetic::power2::lemma2_to64();
    } else {
        lemma_ten_large((k - 1) as nat);
        let t = ten(3 * (k - 1));
        let p = pow2((9 * (k - 1)) as nat);
        lemma_ten(3 * (k - 1));
        lemma_ten(3 * (k - 1) + 1);
        lemma_ten(3 * (k - 1) + 2);
        lemma_pow2_adds(9, (9 * (k - 1)) as nat);
        vstd::arithmetic::power2::lemma2_to64();
        assert(ten(3 * k as int) == 1000 * t);
        assert(pow2(9 * k) == 512 * p);
    }
}

proof fn lemma_ten_monotone(a: int, b: int)
    requires
        0 <= a <= b,
    ensures
        ten(a) <= ten(b),
{
    lemma_pow_increases(10, a as nat, b as nat);
    lemma_pow_positive(10, a as nat);
    lemma_pow_positive(10, b as nat);
}

/// The value that infinity stands for.
pub proof fn lemma_top()
    ensures
        units(INFINITY_BITS as int) == pow2(2098),
        units(0) == 0,
        units(1) == 1,
{
    assert(INFINITY_BITS as int == 2047 * 0x10_0000_0000_0000);
    assert(significand(INFINITY_BITS as int) == 0x10_0000_0000_0000);
    assert(scale(INFINITY_BITS as int) == 2046);
    lemma_pow2_adds(52, 2046);
    vstd::arithmetic::power2::lemma2_to64();
    vstd::arithmetic::power2::lemma2_to64_rest();
    assert(0 * pow2(0) == 0);
    assert(1 * pow2(0) == 1);
}

/// What is far too large is rounded to infinity.
proof fn lemma_overflow(d: nat, e: int)
    requires
        d > 0,
        e >= 342,
    ensures
        rounded_decimal(d, e) == INFINITY_BITS,
{
    let num = d * ten(e) * one_unit();
    lemma_top();
    lemma_ten_large(114);
    lemma_ten_monotone(342, e);
    lemma_pow2_adds(1026, 1074);
    lemma_pow2_adds(2098, 2);
    vstd::arithmetic::power2::lemma2_to64();
    lemma_pow2_pos(1074);
    lemma_pow2_pos(2098);
    let t = ten(e);
    let p = pow2(1026);
    let u = one_unit();
    assert(d * t * u >= p * u) by (nonlinear_arith)
        requires
            d >= 1,
            t >= p,
            p >= 0,
            u >= 0,
    ;
    lemma_units_increase(INFINITY_BITS - 1, INFINITY_BITS as int);
    assert(nearest(num, 1, INFINITY_BITS as int));
    lemma_rounded(num, 1, INFINITY_BITS);
}

/// What is far too small is rounded to zero.
proof fn lemma_underflow(d: nat, e: int, digits: nat)
    requires
        d < ten(digits as int),
        e < 0,
        digits + e <= -360,
    ensures
        rounded_decimal(d, e) == 0,
{
    let num = d * one_unit();
    let den = ten(-e);
    lemma_top();
    lemma_ten_large(120);
    lemma_ten(-e);
    lemma_ten_monotone(360, -e - digits);
    lemma_pow_adds(10, digits, (-e - digits) as nat);
    lemma_pow2_adds(1074, 1);
    lemma_pow2_adds(1075, 5);
    vstd::arithmetic::power2::lemma2_to64();
    let t = ten(digits as int);
    let s = ten(-e - digits);
    let u = one_unit();
    lemma_pow2_pos(1074);
    lemma_ten(digits as int);
    lemma_ten(-e - digits);
    let n = (-e - digits) as nat;
    assert(digits + n == (-e) as nat);
    assert(pow(10, digits + n) == pow(10, digits) * pow(10, n));
    assert(t as int == pow(10, digits) && s as int == pow(10, n));
    assert(den == t * s);
    assert(s >= 2 * u);
    assert(2 * (d * u) < t * s) by (nonlinear_arith)
        requires
            d < t,
            s >= 2 * u,
            u > 0,
    ;
    assert(units(0) + units(1) == 1);
    assert(den * 1 == den);
    assert(nearest(num, den, 0));
    lemma_rounded(num, den, 0);
}

/// The double nearest to `d * 10^e`, where `d` has at most `digits` digits.
pub fn round_decimal(d: &BigNat, e: i128, digits: usize) -> (r: u64)
    requires
        d@ < ten(digits as int),
        -0x1_0000_0000_0000_0000_0000_0000 < e < 0x1_0000_0000_0000_0000_0000_0000,
    ensures
        r == rounded_decimal(d@, e as int),
        r <= INFINITY_BITS,
{
    proof {
        lemma_pow2_pos(1074);
    }
    if d.is_zero() {
        proof {
            lemma_top();
            if e >= 0 {
                assert(0 * ten(e as int) * one_unit() == 0) by (nonlinear_arith);
                assert(nearest(0, 1, 0));
                lemma_rounded(0, 1, 0);
            } else {
                lemma_ten(-e as int);
                assert(0 * one_unit() == 0);
                assert(ten(-e) * 1 == ten(-e));
                assert(nearest(0, ten(-e as int), 0));
                lemma_rounded(0, ten(-e as int), 0);
            }
        }
        return 0;
    }
    if e >= 342 {
        proof {
            lemma_overflow(d@, e as int);
        }
        return INFINITY_BITS;
    }
    if e < 0 && digits as i128 + e <= -360 {
        proof {
            lemma_underflow(d@, e as int, digits as nat);
        }
        return 0;
    }
    let one = BigNat::from_u128(1);
    if e >= 0 {
        let mut num = d.copy();
        let mut i: i128 = 0;
        proof {
            lemma_ten(0);
            assert(d@ * 1 == d@);
        }
        while i < e
            invariant
                0 <= i <= e,
                num@ == d@ * ten(i as int),
            decreases e - i,
        {
            proof {
                lemma_ten(i as int);
                assert(d@ * ten(i as int) * 10 == d@ * (10 * ten(i as int))) by (nonlinear_arith);
            }
            num = num.times(10);
            i = i + 1;
        }
        round_ratio(&num.shifted(1074), &one)
    } else {
        let den = ten_of((-e) as u128);
        proof {
            lemma_ten(-e as int);
        }
        round_ratio(&d.shifted(1074), &den)
    }
}

/// The number that a character stands for as a digit.
pub open spec fn digit_value(c: char) -> Option<nat> {
    if c == '0' {
        Some(0)
    } else if c == '1' {
        Some(1)
    } else if c == '2' {
        Some(2)
    } else if c == '3' {
        Some(3)
    } else if c == '4' {
        Some(4)
    } else if c == '5' {
        Some(5)
    } else if c == '6' {
        Some(6)
    } else if c == '7' {
        Some(7)
    } else if c == '8' {
        Some(8)
    } else if c == '9' {
        Some(9)
    } else {
        None
    }
}

pub fn digit_of(c: char) -> (r: Option<u8>)
    ensures
        match r {
            Some(d) => digit_value(c) == Some(d as nat) && d < 10,
            None => digit_value(c) is None,
        },
{
    if c == '0' {
        Some(0)
    } else if c == '1' {
        Some(1)
    } else if c == '2' {
        Some(2)
    } else if c == '3' {
        Some(3)
    } else if c == '4' {
        Some(4)
    } else if c == '5' {
        Some(5)
    } else if c == '6' {
        Some(6)
    } else if c == '7' {
        Some(7)
    } else if c == '8' {
        Some(8)
    } else if c == '9' {
        Some(9)
    } else {
        None
    }
}

/// The position after the digits that start at `i`.
pub open spec fn digits_end(s: Seq<char>, i: int) -> int
    decreases s.len() - i,
{
    if 0 <= i < s.len() && digit_value(s[i]) is Some {
        digits_end(s, i + 1)
    } else {
        i
    }
}

/// The number that a row of digits stands for, continuing `acc`.
pub open spec fn digits_value(s: Seq<char>, i: int, end: int, acc: nat) -> nat
    decreases end - i,
{
    if i < end {
        digits_value(s, i + 1, end, acc * 10 + digit_value(s[i]).unwrap_or(0))
    } else {
        acc
    }
}

/// Reads the digits from `i` on, continuing `acc`.
fn read_digits(s: &Vec<char>, start: usize, acc: &BigNat) -> (r: (usize, BigNat))
    requires
        start <= s.len(),
    ensures
        r.0 == digits_end(s@, start as int),
        start <= r.0 <= s.len(),
        r.1@ == digits_value(s@, start as int, r.0 as int, acc@),
        r.1@ + 1 <= (acc@ + 1) * ten(r.0 - start),
{
    let mut i: usize = start;
    let mut value = acc.copy();
    proof {
        lemma_ten(0);
        assert((acc@ + 1) * 1 == acc@ + 1);
    }
    while i < s.len()
        invariant_except_break
            start <= i <= s.len(),
            digits_end(s@, start as int) == digits_end(s@, i as int),
            forall|end: int|
                i <= end ==> #[trigger] digits_value(s@, start as int, end, acc@) == digits_value(
                    s@,
                    i as int,
                    end,
                    value@,
                ),
            value@ + 1 <= (acc@ + 1) * ten(i - start),
        ensures
            start <= i <= s.len(),
            i == digits_end(s@, start as int),
            value@ == digits_value(s@, start as int, i as int, acc@),
            value@ + 1 <= (acc@ + 1) * ten(i - start),
        decreases s.len() - i,
    {
        match digit_of(s[i]) {
            Some(d) => {
                proof {
                    lemma_ten(i - start);
                    let t = ten(i - start);
                    let a = acc@ + 1;
                    assert(a * (10 * t) == 10 * (a * t)) by (nonlinear_arith);
                }
                value = value.times(10).plus(&BigNat::from_u128(d as u128));
                i = i + 1;
            },
            None => {
                break;
            },
        }
    }
    (i, value)
}

pub open spec fn lower(c: char) -> char {
    if c == 'I' {
        'i'
    } else if c == 'N' {
        'n'
    } else if c == 'F' {
        'f'
    } else if c == 'T' {
        't'
    } else if c == 'Y' {
        'y'
    } else if c == 'A' {
        'a'
    } else if c == 'E' {
        'e'
    } else {
        c
    }
}

pub open spec fn lowercase(s: Seq<char>) -> Seq<char> {
    s.map_values(|c: char| lower(c))
}

/// Sign and rest of a signed text.
pub open spec fn unsigned_part(s: Seq<char>) -> Seq<char> {
    if s.len() > 0 && (s[0] == '+' || s[0] == '-') {
        s.skip(1)
    } else {
        s
    }
}

pub open spec fn has_minus(s: Seq<char>) -> bool {
    s.len() > 0 && s[0] == '-'
}

/// Where the digits after the decimal point end; `i` itself where there is
/// no point.
pub open spec fn fraction_end(s: Seq<char>, i: int) -> int {
    if 0 <= i < s.len() && s[i] == '.' {
        digits_end(s, i + 1)
    } else {
        i
    }
}

/// The power of ten that a text from position `i` on gives: nothing, or `e`
/// and a signed whole number.
pub open spec fn exponent(s: Seq<char>, i: int) -> Option<int> {
    if i == s.len() {
        Some(0int)
    } else if s[i] == 'e' || s[i] == 'E' {
        let rest = s.skip(i + 1);
        let u = unsigned_part(rest);
        let end = digits_end(u, 0);
        if u.len() > 0 && end == u.len() {
            let n = digits_value(u, 0, end, 0) as int;
            Some(
                if has_minus(rest) {
                    -n
                } else {
                    n
                },
            )
        } else {
            None
        }
    } else {
        None
    }
}

/// The bit pattern without sign that an unsigned decimal number gives:
/// digits with an optional point among, before or behind them, then an
/// optional exponent.
pub open spec fn unsigned_number(s: Seq<char>) -> Option<u64> {
    let whole = digits_end(s, 0);
    let end = fraction_end(s, whole);
    let places = if end > whole {
        end - whole - 1
    } else {
        0
    };
    if whole + places == 0 {
        None
    } else {
        match exponent(s, end) {
            None => None,
            Some(e) => {
                let d = digits_value(s, whole + 1, end, digits_value(s, 0, whole, 0));
                Some(rounded_decimal(d, e - places))
            },
        }
    }
}

/// The double that a text stands for, in the grammar of std's `from_str`:
/// an optional sign, then `inf`, `infinity` or `nan` in any case, or a
/// decimal number.
pub open spec fn number(s: Seq<char>) -> Option<Binary64> {
    let u = unsigned_part(s);
    if lowercase(u) == "inf"@ || lowercase(u) == "infinity"@ {
        Some(signed(has_minus(s), INFINITY_BITS))
    } else if lowercase(u) == "nan"@ {
        Some(signed(has_minus(s), NAN_BITS))
    } else {
        match unsigned_number(u) {
            Some(b) => Some(signed(has_minus(s), b)),
            None => None,
        }
    }
}


fn lower_of(c: char) -> (r: char)
    ensures
        r == lower(c),
{
    if c == 'I' {
        'i'
    } else if c == 'N' {
        'n'
    } else if c == 'F' {
        'f'
    } else if c == 'T' {
        't'
    } else if c == 'Y' {
        'y'
    } else if c == 'A' {
        'a'
    } else if c == 'E' {
        'e'
    } else {
        c
    }
}

/// Whether the characters from `start` on spell a word, in any case.
fn spells(s: &Vec<char>, start: usize, word: &str) -> (r: bool)
    requires
        start <= s.len(),
    ensures
        r == (lowercase(s@.skip(start as int)) == word@),
{
    let w = crate::text::chars_of(word);
    let ghost l = lowercase(s@.skip(start as int));
    if s.len() - start != w.len() {
        return false;
    }
    let mut i: usize = 0;
    while i < w.len()
        invariant
            start <= s.len(),
            w@ == word@,
            s.len() - start == w.len(),
            l == lowercase(s@.skip(start as int)),
            0 <= i <= w.len(),
            forall|k: int| 0 <= k < i ==> #[trigger] l[k] == w@[k],
        decreases w.len() - i,
    {
        let c = lower_of(s[start + i]);
        assert(l[i as int] == c);
        if c != w[i] {
            return false;
        }
        i = i + 1;
    }
    assert(l =~= word@);
    true
}

/// A signed whole number, cut off far beyond every meaningful exponent.
fn read_exponent(s: &Vec<char>, i: usize) -> (r: Option<i128>)
    requires
        i <= s.len(),
    ensures
        match r {
            Some(e) => exponent(s@, i as int) matches Some(x) && {
                &&& (-0x1_0000_0000_0000_0000_0000 < x < 0x1_0000_0000_0000_0000_0000 ==> e == x)
                &&& (x >= 0x1_0000_0000_0000_0000_0000 ==> e == 0x1_0000_0000_0000_0000_0000)
                &&& (x <= -0x1_0000_0000_0000_0000_0000 ==> e == -0x1_0000_0000_0000_0000_0000)
            },
            None => exponent(s@, i as int) is None,
        },
{
    if i == s.len() {
        return Some(0);
    }
    if s[i] != 'e' && s[i] != 'E' {
        return None;
    }
    let ghost rest = s@.skip(i + 1);
    let mut k: usize = i + 1;
    let mut negative = false;
    if k < s.len() && (s[k] == '+' || s[k] == '-') {
        negative = s[k] == '-';
        assert(rest[0] == s@[k as int]);
        k = k + 1;
    } else if k < s.len() {
        assert(rest[0] == s@[k as int]);
    }
    let ghost u = unsigned_part(rest);
    let ghost from = k as int;
    assert(u =~= s@.skip(from));
    if k == s.len() {
        return None;
    }
    let mut n: i128 = 0;
    let ghost mut exact: nat = 0;
    while k < s.len()
        invariant
            0 <= from <= k <= s.len(),
            i < s.len(),
            s@[i as int] == 'e' || s@[i as int] == 'E',
            rest == s@.skip(i + 1),
            u == unsigned_part(rest),
            u == s@.skip(from),
            digits_end(u, 0) == digits_end(u, k - from),
            forall|end: int|
                k - from <= end ==> #[trigger] digits_value(u, 0, end, 0) == digits_value(
                    u,
                    k - from,
                    end,
                    exact,
                ),
            0 <= n <= 0x1_0000_0000_0000_0000_0000,
            n < 0x1_0000_0000_0000_0000_0000 ==> n == exact,
            n == 0x1_0000_0000_0000_0000_0000 ==> exact >= 0x1_0000_0000_0000_0000_0000,
        decreases s.len() - k,
    {
        assert(u[k - from] == s@[k as int]);
        match digit_of(s[k]) {
            Some(d) => {
                let more: i128 = n * 10 + d as i128;
                proof {
                    exact = exact * 10 + d as nat;
                }
                n = if more < 0x1_0000_0000_0000_0000_0000 {
                    more
                } else {
                    0x1_0000_0000_0000_0000_0000
                };
                k = k + 1;
            },
            None => {
                proof {
                    lemma_digits_end_stays(u, k - from);
                    assert(exponent(s@, i as int) is None);
                }
                return None;
            },
        }
    }
    proof {
        assert(digits_end(u, 0) == u.len());
        assert(digits_value(u, 0, u.len() as int, 0) == exact);
    }
    Some(
        if negative {
            -n
        } else {
            n
        },
    )
}

proof fn lemma_digits_end_stays(s: Seq<char>, i: int)
    requires
        0 <= i < s.len(),
        digit_value(s[i]) is None,
    ensures
        digits_end(s, i) == i,
        i < s.len(),
{
}

/// Far beyond the range of doubles the exponent itself does not matter.
proof fn lemma_exponent_cut(d: nat, e: int, cut: int, places: int, digits: nat)
    requires
        d < ten(digits as int),
        0 <= places,
        places + digits < 0x1_0000_0000_0000_0000_0,
        (e == cut) || (e >= 0x1_0000_0000_0000_0000_0000 && cut == 0x1_0000_0000_0000_0000_0000)
            || (e <= -0x1_0000_0000_0000_0000_0000 && cut == -0x1_0000_0000_0000_0000_0000),
    ensures
        rounded_decimal(d, e - places) == rounded_decimal(d, cut - places),
{
    if e != cut {
        if e > 0 {
            if d > 0 {
                lemma_overflow(d, e - places);
                lemma_overflow(d, cut - places);
            } else {
                assert(0 * ten(e - places) * one_unit() == 0) by (nonlinear_arith);
                assert(0 * ten(cut - places) * one_unit() == 0) by (nonlinear_arith);
            }
        } else {
            lemma_underflow(d, e - places, digits);
            lemma_underflow(d, cut - places, digits);
        }
    }
}

fn read_unsigned(s: &Vec<char>, start: usize) -> (r: Option<u64>)
    requires
        start <= s.len(),
    ensures
        r == unsigned_number(s@.skip(start as int)),
        r matches Some(b) ==> b <= INFINITY_BITS,
{
    let u = crate::text::slice(s, start, s.len());
    assert(u@ =~= s@.skip(start as int));
    let (whole, head) = read_digits(&u, 0, &BigNat::zero());
    assert(1 * ten(whole as int) == ten(whole as int));
    let mut end: usize = whole;
    let mut places: usize = 0;
    let mut all = head.copy();
    if whole < u.len() && u[whole] == '.' {
        let (e, tail) = read_digits(&u, whole + 1, &head);
        end = e;
        places = e - whole - 1;
        all = tail;
        proof {
            let h = (head@ + 1) as int;
            let t = ten(whole as int) as int;
            let f = ten(places as int) as int;
            lemma_pow_adds(10, whole as nat, places as nat);
            lemma_ten(whole as int);
            lemma_ten(places as int);
            assert(h * f <= t * f) by (nonlinear_arith)
                requires
                    h <= t,
                    f > 0,
            ;
            assert(pow(10, (whole + places) as nat) == pow(10, whole as nat) * pow(10, places as nat));
            assert(ten(whole + places) == t * f);
        }
    } else {
        assert(digits_value(u@, whole + 1, whole as int, head@) == head@);
    }
    if whole + places == 0 {
        return None;
    }
    match read_exponent(&u, end) {
        None => None,
        Some(cut) => {
            proof {
                let e = exponent(u@, end as int).unwrap();
                lemma_exponent_cut(all@, e, cut as int, places as int, (whole + places) as nat);
            }
            Some(round_decimal(&all, cut - places as i128, whole + places))
        },
    }
}

/// The double that a text stands for.
pub fn parse_number(s: &Vec<char>) -> (r: Option<Binary64>)
    ensures
        r == number(s@),
{
    let mut start: usize = 0;
    let mut negative = false;
    if s.len() > 0 && (s[0] == '+' || s[0] == '-') {
        negative = s[0] == '-';
        start = 1;
    }
    assert(unsigned_part(s@) =~= s@.skip(start as int));
    if spells(s, start, "inf") || spells(s, start, "infinity") {
        return Some(with_sign(negative, INFINITY_BITS));
    }
    if spells(s, start, "nan") {
        return Some(with_sign(negative, NAN_BITS));
    }
    match read_unsigned(s, start) {
        Some(b) => Some(with_sign(negative, b)),
        None => None,
    }
}

pub fn with_sign(negative: bool, b: u64) -> (r: Binary64)
    requires
        b < SIGN_BIT,
    ensures
        r == signed(negative, b),
{
    Binary64 {
        bits: if negative {
            b + SIGN_BIT
        } else {
            b
        },
    }
}

} // verus!
