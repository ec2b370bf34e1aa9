//! Double-precision floating-point numbers, by their bit patterns.
//!
//! A finite double is a whole multiple of the smallest positive one, so its
//! exact value is an integer in those units. Every operation here returns
//! the double nearest to the exact result, ties to the even bit pattern.
use crate::bignat::BigNat;
use vstd::arithmetic::power2::{lemma_pow2_adds, lemma_pow2_pos, lemma_pow2_unfold, pow2};
use vstd::prelude::*;

verus! {

/// The bit pattern of positive infinity; one more than that of the largest
/// finite double.
pub const INFINITY_BITS: u64 = 0x7ff0_0000_0000_0000;

/// The bit pattern of the not-a-number that operations return.
pub const NAN_BITS: u64 = 0x7ff8_0000_0000_0000;

/// The weight of the sign bit.
pub const SIGN_BIT: u64 = 0x8000_0000_0000_0000;

/// Two to the power of the number of fraction bits.
pub const FRACTION: u64 = 0x10_0000_0000_0000;

/// A double-precision number. `==` compares bit patterns.
#[derive(Clone, Copy, Debug, PartialEq, Eq, Structural)]
pub struct Binary64 {
    pub bits: u64,
}

/// The significand of the nonnegative double with the bit pattern `b`.
pub open spec fn significand(b: int) -> int {
    if b < FRACTION {
        b
    } else {
        b % (FRACTION as int) + FRACTION
    }
}

/// The power of two that scales it.
pub open spec fn scale(b: int) -> nat {
    if b < FRACTION {
        0
    } else {
        (b / (FRACTION as int) - 1) as nat
    }
}

/// The exact value of the nonnegative double with the bit pattern `b`, in
/// units of the smallest positive double. For infinity it is the value that
/// the pattern would have were the exponent range longer.
pub open spec fn units(b: int) -> nat {
    (significand(b) * pow2(scale(b))) as nat
}

/// How many units make one.
pub open spec fn one_unit() -> nat {
    pow2(1074)
}

/// `b` is the bit pattern of the nonnegative double nearest to `num / den`
/// units, ties to even.
pub open spec fn nearest(num: nat, den: nat, b: int) -> bool {
    &&& 0 <= b <= INFINITY_BITS
    &&& b > 0 ==> {
        ||| 2 * num > den * (units(b - 1) + units(b))
        ||| 2 * num == den * (units(b - 1) + units(b)) && b % 2 == 0
    }
    &&& b < INFINITY_BITS ==> {
        ||| 2 * num < den * (units(b) + units(b + 1))
        ||| 2 * num == den * (units(b) + units(b + 1)) && b % 2 == 0
    }
}

/// The bit pattern of the double nearest to `num / den` units.
pub open spec fn rounded(num: nat, den: nat) -> u64 {
    choose|b: u64| nearest(num, den, b as int)
}

impl Binary64 {
    pub open spec fn negative(self) -> bool {
        self.bits >= SIGN_BIT
    }

    /// The bit pattern without the sign.
    pub open spec fn unsigned_bits(self) -> u64 {
        if self.bits >= SIGN_BIT {
            (self.bits - SIGN_BIT) as u64
        } else {
            self.bits
        }
    }

    pub open spec fn nan(self) -> bool {
        self.unsigned_bits() > INFINITY_BITS
    }

    pub open spec fn infinite(self) -> bool {
        self.unsigned_bits() == INFINITY_BITS
    }

    pub open spec fn finite(self) -> bool {
        self.unsigned_bits() < INFINITY_BITS
    }

    /// The exact value of a finite double, in units.
    pub open spec fn value(self) -> int {
        if self.negative() {
            -(units(self.unsigned_bits() as int) as int)
        } else {
            units(self.unsigned_bits() as int) as int
        }
    }

    pub open spec fn is_zero_value(self) -> bool {
        self.unsigned_bits() == 0
    }
}

/// A double from its sign and the rest of its bit pattern.
pub open spec fn signed(negative: bool, b: u64) -> Binary64 {
    Binary64 {
        bits: if negative {
            (b + SIGN_BIT) as u64
        } else {
            b
        },
    }
}

pub open spec fn spec_nan() -> Binary64 {
    Binary64 { bits: NAN_BITS }
}

pub open spec fn negated(a: Binary64) -> Binary64 {
    signed(!a.negative(), a.unsigned_bits())
}

pub open spec fn absolute(a: Binary64) -> Binary64 {
    signed(false, a.unsigned_bits())
}

/// `a < b`. Nothing is below or above a not-a-number, and the two zeros are
/// equal.
pub open spec fn below(a: Binary64, b: Binary64) -> bool {
    !a.nan() && !b.nan() && rank(a) < rank(b)
}

/// Numbers in the order of the doubles.
pub open spec fn rank(a: Binary64) -> int {
    if a.negative() {
        -(a.unsigned_bits() as int)
    } else {
        a.unsigned_bits() as int
    }
}

/// The double nearest to a sum of exact values; `negative_zero` is the sign
/// of the zero that a vanishing sum gives.
pub open spec fn rounded_value(v: int, negative_zero: bool) -> Binary64 {
    if v == 0 {
        signed(negative_zero, 0)
    } else if v > 0 {
        signed(false, rounded(v as nat, 1))
    } else {
        signed(true, rounded((-v) as nat, 1))
    }
}

pub open spec fn sum(a: Binary64, b: Binary64) -> Binary64 {
    if a.nan() || b.nan() {
        spec_nan()
    } else if a.infinite() {
        if b.infinite() && a.negative() != b.negative() {
            spec_nan()
        } else {
            a
        }
    } else if b.infinite() {
        b
    } else {
        rounded_value(a.value() + b.value(), a.negative() && b.negative())
    }
}

pub open spec fn difference(a: Binary64, b: Binary64) -> Binary64 {
    sum(a, negated(b))
}

pub open spec fn product(a: Binary64, b: Binary64) -> Binary64 {
    let negative = a.negative() != b.negative();
    if a.nan() || b.nan() || (a.infinite() && b.is_zero_value()) || (a.is_zero_value()
        && b.infinite()) {
        spec_nan()
    } else if a.infinite() || b.infinite() {
        signed(negative, INFINITY_BITS)
    } else {
        signed(
            negative,
            rounded(
                units(a.unsigned_bits() as int) * units(b.unsigned_bits() as int),
                one_unit(),
            ),
        )
    }
}

pub open spec fn quotient(a: Binary64, b: Binary64) -> Binary64 {
    let negative = a.negative() != b.negative();
    if a.nan() || b.nan() || (a.infinite() && b.infinite()) || (a.is_zero_value()
        && b.is_zero_value()) {
        spec_nan()
    } else if a.infinite() || b.is_zero_value() {
        signed(negative, INFINITY_BITS)
    } else if b.infinite() || a.is_zero_value() {
        signed(negative, 0)
    } else {
        signed(
            negative,
            rounded(
                units(a.unsigned_bits() as int) * one_unit(),
                units(b.unsigned_bits() as int),
            ),
        )
    }
}

/// The remainder of the division that truncates; it has the sign of `a`.
pub open spec fn remainder(a: Binary64, b: Binary64) -> Binary64 {
    if a.nan() || b.nan() || a.infinite() || b.is_zero_value() {
        spec_nan()
    } else if b.infinite() {
        a
    } else {
        signed(
            a.negative(),
            rounded(units(a.unsigned_bits() as int) % units(b.unsigned_bits() as int), 1),
        )
    }
}

/// The nearest whole number; one in the middle goes away from zero.
pub open spec fn whole(a: Binary64) -> Binary64 {
    if a.nan() {
        spec_nan()
    } else if a.infinite() {
        a
    } else {
        let n = (2 * units(a.unsigned_bits() as int) + one_unit()) / (2 * one_unit());
        signed(a.negative(), rounded(n * one_unit(), 1))
    }
}

/// The double nearest to a natural number.
pub open spec fn of_nat(n: nat) -> Binary64 {
    signed(false, rounded(n * one_unit(), 1))
}

/// The next bit pattern is the next multiple of the scale.
pub proof fn lemma_units_step(b: int)
    requires
        0 <= b,
    ensures
        units(b + 1) == units(b) + pow2(scale(b)),
        significand(b) >= 0,
        significand(b) < 2 * FRACTION,
        units(b) as int == significand(b) * pow2(scale(b)),
{
    let f = FRACTION as int;
    lemma_pow2_pos(scale(b));
    lemma_pow2_pos(scale(b + 1));
    let s = significand(b);
    let p = pow2(scale(b));
    assert(s * p >= 0) by (nonlinear_arith)
        requires
            s >= 0,
            p >= 0,
    ;
    assert((s + 1) * p == s * p + p) by (nonlinear_arith);
    if b < f - 1 {
    } else if b == f - 1 {
        assert(f % f == 0 && f / f == 1);
        assert(units(b + 1) == f * pow2(0));
    } else if b % f < f - 1 {
        let q = b / f;
        let r = b % f;
        assert((b + 1) / f == q && (b + 1) % f == r + 1) by {
            vstd::arithmetic::div_mod::lemma_fundamental_div_mod(b, f);
            assert(f * q == q * f) by (nonlinear_arith);
            vstd::arithmetic::div_mod::lemma_fundamental_div_mod_converse(b + 1, f, q, r + 1);
        }
    } else {
        let q = b / f;
        let r = b % f;
        assert((b + 1) / f == q + 1 && (b + 1) % f == 0) by {
            vstd::arithmetic::div_mod::lemma_fundamental_div_mod(b, f);
            assert(f * q + f == (q + 1) * f) by (nonlinear_arith);
            vstd::arithmetic::div_mod::lemma_fundamental_div_mod_converse(b + 1, f, q + 1, 0);
        }
        lemma_pow2_unfold(q as nat);
        assert(scale(b + 1) == q);
        assert(scale(b) == q - 1);
        let h = pow2((q - 1) as nat);
        assert(f * (2 * h) == (2 * f - 1) * h + h) by (nonlinear_arith);
    }
}

pub proof fn lemma_units_increase(a: int, b: int)
    requires
        0 <= a < b,
    ensures
        units(a) < units(b),
    decreases b - a,
{
    lemma_units_step(b - 1);
    lemma_pow2_pos(scale(b - 1));
    if a < b - 1 {
        lemma_units_increase(a, b - 1);
    }
}

/// At most one double is nearest.
pub proof fn lemma_nearest_unique(num: nat, den: nat, a: int, b: int)
    requires
        den > 0,
        nearest(num, den, a),
        nearest(num, den, b),
    ensures
        a == b,
{
    if a < b {
        lemma_nearest_order(num, den, a, b);
    } else if b < a {
        lemma_nearest_order(num, den, b, a);
    }
}

proof fn lemma_nearest_order(num: nat, den: nat, a: int, b: int)
    requires
        den > 0,
        0 <= a < b,
    ensures
        !(nearest(num, den, a) && nearest(num, den, b)),
{
    let x = units(a) + units(a + 1);
    let y = units(b - 1) + units(b);
    if a + 1 < b {
        lemma_units_increase(a, b - 1);
        lemma_units_increase(a + 1, b);
        assert(den * x < den * y) by (nonlinear_arith)
            requires
                den > 0,
                x < y,
        ;
    } else {
        assert(a % 2 == 0 && (a + 1) % 2 == 0 ==> false);
    }
}

pub proof fn lemma_rounded(num: nat, den: nat, b: u64)
    requires
        den > 0,
        nearest(num, den, b as int),
    ensures
        rounded(num, den) == b,
{
    lemma_nearest_unique(num, den, rounded(num, den) as int, b as int);
}

/// Some double is nearest.
pub proof fn lemma_nearest_exists(num: nat, den: nat)
    requires
        den > 0,
    ensures
        nearest(num, den, rounded(num, den) as int),
{
    lemma_nearest_from(num, den, INFINITY_BITS);
}

proof fn lemma_nearest_from(num: nat, den: nat, b: u64)
    requires
        den > 0,
        b <= INFINITY_BITS,
        large_enough(num, den, b as int),
    ensures
        exists|c: u64| nearest(num, den, c as int),
    decreases b,
{
    if b > 0 && large_enough(num, den, b - 1) {
        lemma_nearest_from(num, den, (b - 1) as u64);
    } else {
        assert(nearest(num, den, b as int));
    }
}

/// A value that a double has is rounded to it.
pub proof fn lemma_rounded_exact(b: u64)
    requires
        b <= INFINITY_BITS,
    ensures
        rounded(units(b as int), 1) == b,
{
    if b > 0 {
        lemma_units_increase(b - 1, b as int);
    }
    lemma_units_increase(b as int, b + 1);
    lemma_rounded(units(b as int), 1, b);
}

/// Rounding keeps the order.
pub proof fn lemma_rounded_monotone(n1: nat, n2: nat, den: nat, a: u64, b: u64)
    requires
        den > 0,
        n1 <= n2,
        nearest(n1, den, a as int),
        nearest(n2, den, b as int),
    ensures
        a <= b,
{
    if b < a {
        let x = units(b as int) + units(b + 1);
        let y = units(a - 1) + units(a as int);
        if b + 1 < a {
            lemma_units_increase(b as int, a - 1);
            lemma_units_increase(b + 1, a as int);
            assert(den * x < den * y) by (nonlinear_arith)
                requires
                    den > 0,
                    x < y,
            ;
        }
    }
}

fn significand_of(b: u64) -> (r: u64)
    ensures
        r == significand(b as int),
        r < 2 * FRACTION,
{
    if b < FRACTION {
        b
    } else {
        b % FRACTION + FRACTION
    }
}

fn scale_of(b: u64) -> (r: usize)
    ensures
        r == scale(b as int),
{
    if b < FRACTION {
        0
    } else {
        proof {
            vstd::arithmetic::div_mod::lemma_div_is_ordered(
                FRACTION as int,
                b as int,
                FRACTION as int,
            );
        }
        (b / FRACTION - 1) as usize
    }
}

pub fn units_of(b: u64) -> (r: BigNat)
    ensures
        r@ == units(b as int),
{
    proof {
        lemma_units_step(b as int);
    }
    BigNat::from_u128(significand_of(b) as u128).shifted(scale_of(b))
}

/// Whether the double with the pattern `b` is nearest or too large.
spec fn large_enough(num: nat, den: nat, b: int) -> bool {
    ||| b >= INFINITY_BITS
    ||| 2 * num < den * (units(b) + units(b + 1))
    ||| 2 * num == den * (units(b) + units(b + 1)) && b % 2 == 0
}

proof fn lemma_large_enough(num: nat, den: nat, a: int, b: int)
    requires
        den > 0,
        0 <= a < b,
        large_enough(num, den, a),
    ensures
        large_enough(num, den, b),
{
    if b < INFINITY_BITS {
        lemma_units_increase(a, b);
        lemma_units_increase(a + 1, b + 1);
        let x = units(a) + units(a + 1);
        let y = units(b) + units(b + 1);
        assert(den * x < den * y) by (nonlinear_arith)
            requires
                den > 0,
                x < y,
        ;
    }
}

/// The bit pattern of the double nearest to `num / den` units.
pub fn round_ratio(num: &BigNat, den: &BigNat) -> (r: u64)
    requires
        den@ > 0,
    ensures
        r == rounded(num@, den@),
        r <= INFINITY_BITS,
        nearest(num@, den@, r as int),
{
    let twice = num.plus(num);
    let mut lo: u64 = 0;
    let mut hi: u64 = INFINITY_BITS;
    while lo < hi
        invariant
            den@ > 0,
            twice@ == 2 * num@,
            lo <= hi <= INFINITY_BITS,
            large_enough(num@, den@, hi as int),
            forall|b: int| 0 <= b < lo ==> !#[trigger] large_enough(num@, den@, b),
        decreases hi - lo,
    {
        let mid: u64 = lo + (hi - lo) / 2;
        let m: u64 = significand_of(mid);
        let between = den.times(2 * m + 1).shifted(scale_of(mid));
        proof {
            let p = pow2(scale(mid as int));
            lemma_units_step(mid as int);
            let odd: nat = (2 * m + 1) as nat;
            assert((den@ * odd) * p == den@ * (m * p + (m * p + p))) by (nonlinear_arith)
                requires
                    odd == 2 * m + 1,
            ;
        }
        let (less, equal) = twice.compare(&between);
        if less || (equal && mid % 2 == 0) {
            hi = mid;
        } else {
            proof {
                assert forall|b: int| 0 <= b < mid + 1 implies !#[trigger] large_enough(
                    num@,
                    den@,
                    b,
                ) by {
                    if large_enough(num@, den@, b) && b < mid {
                        lemma_large_enough(num@, den@, b, mid as int);
                    }
                }
            }
            lo = mid + 1;
        }
    }
    proof {
        if lo > 0 {
            assert(!large_enough(num@, den@, lo - 1));
        }
        lemma_rounded(num@, den@, lo);
    }
    lo
}

impl Binary64 {
    pub fn from_bits(bits: u64) -> (r: Binary64)
        ensures
            r.bits == bits,
    {
        Binary64 { bits }
    }

    pub fn to_bits(self) -> (r: u64)
        ensures
            r == self.bits,
    {
        self.bits
    }

    pub fn is_negative(self) -> (r: bool)
        ensures
            r == self.negative(),
    {
        self.bits >= SIGN_BIT
    }

    pub fn magnitude_bits(self) -> (r: u64)
        ensures
            r == self.unsigned_bits(),
    {
        if self.bits >= SIGN_BIT {
            self.bits - SIGN_BIT
        } else {
            self.bits
        }
    }

    pub fn is_nan(self) -> (r: bool)
        ensures
            r == self.nan(),
    {
        self.magnitude_bits() > INFINITY_BITS
    }

    pub fn is_finite(self) -> (r: bool)
        ensures
            r == self.finite(),
    {
        self.magnitude_bits() < INFINITY_BITS
    }

    fn with_sign(negative: bool, b: u64) -> (r: Binary64)
        requires
            b < SIGN_BIT,
        ensures
            r == signed(negative, b),
    {
        Binary64 {
            bits: if negative {
                b + SIGN_BIT
            } else {
                b
            },
        }
    }

    pub fn neg(self) -> (r: Binary64)
        ensures
            r == negated(self),
    {
        Self::with_sign(!self.is_negative(), self.magnitude_bits())
    }

    pub fn abs(self) -> (r: Binary64)
        ensures
            r == absolute(self),
    {
        Self::with_sign(false, self.magnitude_bits())
    }

    pub fn lt(self, other: Binary64) -> (r: bool)
        ensures
            r == below(self, other),
    {
        if self.is_nan() || other.is_nan() {
            false
        } else if self.is_negative() {
            if other.is_negative() {
                self.magnitude_bits() > other.magnitude_bits()
            } else {
                self.magnitude_bits() > 0 || other.magnitude_bits() > 0
            }
        } else if other.is_negative() {
            false
        } else {
            self.magnitude_bits() < other.magnitude_bits()
        }
    }

    pub fn plus(self, other: Binary64) -> (r: Binary64)
        ensures
            r == sum(self, other),
    {
        if self.is_nan() || other.is_nan() {
            return Binary64 { bits: NAN_BITS };
        }
        let a = self.magnitude_bits();
        let b = other.magnitude_bits();
        if a == INFINITY_BITS {
            return if b == INFINITY_BITS && self.is_negative() != other.is_negative() {
                Binary64 { bits: NAN_BITS }
            } else {
                self
            };
        }
        if b == INFINITY_BITS {
            return other;
        }
        let one = BigNat::from_u128(1);
        let x = units_of(a);
        let y = units_of(b);
        if self.is_negative() == other.is_negative() {
            let total = x.plus(&y);
            if total.is_zero() {
                Self::with_sign(self.is_negative(), 0)
            } else {
                Self::with_sign(self.is_negative(), round_ratio(&total, &one))
            }
        } else {
            let (less, equal) = x.compare(&y);
            if equal {
                Self::with_sign(false, 0)
            } else if less {
                Self::with_sign(other.is_negative(), round_ratio(&y.minus(&x), &one))
            } else {
                Self::with_sign(self.is_negative(), round_ratio(&x.minus(&y), &one))
            }
        }
    }

    pub fn minus(self, other: Binary64) -> (r: Binary64)
        ensures
            r == difference(self, other),
    {
        self.plus(other.neg())
    }

    pub fn times(self, other: Binary64) -> (r: Binary64)
        ensures
            r == product(self, other),
    {
        let a = self.magnitude_bits();
        let b = other.magnitude_bits();
        let negative = self.is_negative() != other.is_negative();
        if self.is_nan() || other.is_nan() || (a == INFINITY_BITS && b == 0) || (a == 0 && b
            == INFINITY_BITS) {
            return Binary64 { bits: NAN_BITS };
        }
        if a == INFINITY_BITS || b == INFINITY_BITS {
            return Self::with_sign(negative, INFINITY_BITS);
        }
        let m: u64 = significand_of(a);
        let n: u64 = significand_of(b);
        assert(m * n <= 0xffff_ffff_ffff_ffff * 0xffff_ffff_ffff_ffff) by (nonlinear_arith)
            requires
                m <= 0xffff_ffff_ffff_ffff,
                n <= 0xffff_ffff_ffff_ffff,
        ;
        proof {
            lemma_scale_bound(a);
            lemma_scale_bound(b);
        }
        let num = BigNat::from_u128((m as u128) * (n as u128)).shifted(scale_of(a) + scale_of(b));
        let den = BigNat::from_u128(1).shifted(1074);
        proof {
            let p = pow2(scale(a as int));
            let q = pow2(scale(b as int));
            lemma_units_step(a as int);
            lemma_units_step(b as int);
            lemma_pow2_adds(scale(a as int), scale(b as int));
            lemma_pow2_pos(1074);
            assert((m * n) * (p * q) == (m * p) * (n * q)) by (nonlinear_arith);
            assert(1 * pow2(1074) == pow2(1074));
        }
        Self::with_sign(negative, round_ratio(&num, &den))
    }

    pub fn over(self, other: Binary64) -> (r: Binary64)
        ensures
            r == quotient(self, other),
    {
        let a = self.magnitude_bits();
        let b = other.magnitude_bits();
        let negative = self.is_negative() != other.is_negative();
        if self.is_nan() || other.is_nan() || (a == INFINITY_BITS && b == INFINITY_BITS) || (a == 0
            && b == 0) {
            return Binary64 { bits: NAN_BITS };
        }
        if a == INFINITY_BITS || b == 0 {
            return Self::with_sign(negative, INFINITY_BITS);
        }
        if b == INFINITY_BITS || a == 0 {
            return Self::with_sign(negative, 0);
        }
        let num = units_of(a).shifted(1074);
        let den = units_of(b);
        proof {
            lemma_units_increase(0, b as int);
        }
        Self::with_sign(negative, round_ratio(&num, &den))
    }

    pub fn rem(self, other: Binary64) -> (r: Binary64)
        ensures
            r == remainder(self, other),
    {
        let a = self.magnitude_bits();
        let b = other.magnitude_bits();
        if self.is_nan() || other.is_nan() || a == INFINITY_BITS || b == 0 {
            return Binary64 { bits: NAN_BITS };
        }
        if b == INFINITY_BITS {
            return self;
        }
        if a < b {
            proof {
                lemma_units_increase(a as int, b as int);
                vstd::arithmetic::div_mod::lemma_small_mod(units(a as int), units(b as int));
                lemma_rounded_exact(a);
            }
            return self;
        }
        proof {
            lemma_units_increase(0, b as int);
        }
        let rest = units_of(a).modulo(&units_of(b));
        let one = BigNat::from_u128(1);
        Self::with_sign(self.is_negative(), round_ratio(&rest, &one))
    }

    /// The nearest whole number.
    pub fn round(self) -> (r: Binary64)
        ensures
            r == whole(self),
    {
        if self.is_nan() {
            return Binary64 { bits: NAN_BITS };
        }
        let b = self.magnitude_bits();
        if b == INFINITY_BITS {
            return self;
        }
        let u = units_of(b);
        let one = BigNat::from_u128(1);
        let unit = one.shifted(1074);
        proof {
            lemma_pow2_pos(1074);
            assert(1 * pow2(1074) == pow2(1074)) by (nonlinear_arith);
        }
        let (n, _rest) = u.plus(&u).plus(&unit).divided(&unit.plus(&unit));
        let num = n.shifted(1074);
        Self::with_sign(self.is_negative(), round_ratio(&num, &one))
    }

    /// The double nearest to a natural number.
    pub fn from_u64(n: u64) -> (r: Binary64)
        ensures
            r == of_nat(n as nat),
    {
        let num = BigNat::from_u128(n as u128).shifted(1074);
        let one = BigNat::from_u128(1);
        Self::with_sign(false, round_ratio(&num, &one))
    }
}

proof fn lemma_scale_bound(b: u64)
    ensures
        scale(b as int) < 4096,
{
    if b >= FRACTION {
        vstd::arithmetic::div_mod::lemma_div_is_ordered(
            b as int,
            0xffff_ffff_ffff_ffff,
            FRACTION as int,
        );
    }
}


/// Whole numbers up to this are doubles.
pub const EXACT_LIMIT: u64 = 0x20_0000_0000_0000;

proof fn lemma_pow2_52(k: nat)
    requires
        k <= 52,
    ensures
        pow2(k) * pow2((52 - k) as nat) == FRACTION,
        pow2(k) >= 1,
        pow2((52 - k) as nat) >= 1,
{
    lemma_pow2_adds(k, (52 - k) as nat);
    lemma_pow2_pos(k);
    lemma_pow2_pos((52 - k) as nat);
    vstd::arithmetic::power2::lemma2_to64_rest();
}

/// The bit pattern of a whole number between two powers of two.
proof fn lemma_whole_pattern(a: nat, k: nat) -> (b: u64)
    requires
        k <= 52,
        pow2(k) <= a < 2 * pow2(k),
    ensures
        b < INFINITY_BITS,
        units(b as int) == a * one_unit(),
{
    let f = FRACTION as int;
    let p = pow2((52 - k) as nat) as int;
    let q = pow2(k) as int;
    lemma_pow2_52(k);
    let m = a * p;
    assert(f <= m < 2 * f) by (nonlinear_arith)
        requires
            q * p == f,
            q <= a < 2 * q,
            m == a * p,
            p >= 1,
    ;
    let b = (1023 + k) * f + (m - f);
    vstd::arithmetic::div_mod::lemma_fundamental_div_mod_converse(b, f, (1023 + k) as int, m - f);
    assert(b >= f && b < INFINITY_BITS) by (nonlinear_arith)
        requires
            b == (1023 + k) * f + (m - f),
            f <= m < 2 * f,
            f == 0x10_0000_0000_0000,
            0 <= k <= 52,
    ;
    assert(significand(b) == m);
    assert(scale(b) == 1022 + k);
    lemma_pow2_adds((52 - k) as nat, 1022 + k);
    assert(((52 - k) as nat) + (1022 + k) == 1074);
    let r = pow2(1022 + k) as int;
    assert(a * p * r == a * (p * r)) by (nonlinear_arith);
    b as u64
}

proof fn lemma_floor_log(a: nat, k: nat) -> (r: nat)
    requires
        1 <= a < pow2(k + 1),
        k <= 52,
    ensures
        r <= 52,
        pow2(r) <= a < 2 * pow2(r),
    decreases k,
{
    lemma_pow2_unfold(k + 1);
    if a >= pow2(k) {
        k
    } else {
        vstd::arithmetic::power2::lemma2_to64();
        lemma_floor_log(a, (k - 1) as nat)
    }
}

/// Whole numbers up to the limit are exact.
pub proof fn lemma_of_nat(a: nat)
    requires
        a < EXACT_LIMIT,
    ensures
        of_nat(a).finite(),
        !of_nat(a).negative(),
        !of_nat(a).nan(),
        of_nat(a).value() == a * one_unit(),
{
    lemma_pow2_pos(1074);
    if a == 0 {
        lemma_units_step(0);
        assert(0 * pow2(0) == 0);
        assert(0 * one_unit() == 0);
        lemma_rounded_exact(0);
    } else {
        vstd::arithmetic::power2::lemma2_to64_rest();
        let k = lemma_floor_log(a, 52);
        let b = lemma_whole_pattern(a, k);
        lemma_rounded_exact(b);
    }
}

/// Adding whole numbers is exact below the limit.
pub proof fn lemma_of_nat_sum(a: nat, b: nat)
    requires
        a + b < EXACT_LIMIT,
    ensures
        sum(of_nat(a), of_nat(b)) == of_nat(a + b),
{
    lemma_of_nat(a);
    lemma_of_nat(b);
    lemma_of_nat(a + b);
    let u = one_unit();
    assert(a * u + b * u == (a + b) * u) by (nonlinear_arith);
    lemma_pow2_pos(1074);
    if a + b == 0 {
        assert(0 * u == 0);
        lemma_units_step(0);
        assert(0 * pow2(0) == 0);
        lemma_rounded_exact(0);
    } else {
        assert((a + b) * u > 0) by (nonlinear_arith)
            requires
                a + b > 0,
                u > 0,
        ;
    }
}

/// The distance of whole numbers is exact below the limit.
pub proof fn lemma_of_nat_distance(a: nat, b: nat)
    requires
        a < EXACT_LIMIT,
        b < EXACT_LIMIT,
    ensures
        absolute(difference(of_nat(a), of_nat(b))) == of_nat((if a < b {
            b - a
        } else {
            a - b
        }) as nat),
{
    let gap = (if a < b {
        b - a
    } else {
        a - b
    }) as nat;
    lemma_of_nat(a);
    lemma_of_nat(b);
    lemma_of_nat(gap);
    let u = one_unit();
    lemma_pow2_pos(1074);
    assert(a * u - b * u == (a - b) * u && b * u - a * u == (b - a) * u) by (nonlinear_arith);
    assert(gap > 0 ==> gap * u > 0) by (nonlinear_arith)
        requires
            u > 0,
            gap >= 0,
    ;
    let n = negated(of_nat(b));
    assert(n.value() == -(of_nat(b).value()));
    if gap == 0 {
        assert(0 * u == 0);
        lemma_rounded_exact(0);
        assert(units(0) == 0) by {
            assert(0 * pow2(0) == 0) by (nonlinear_arith);
        }
    } else {
        lemma_nearest_exists(gap * u, 1);
    }
}

/// Doubles of whole numbers stand in the order of the numbers.
pub proof fn lemma_of_nat_order(a: nat, b: nat)
    requires
        a < EXACT_LIMIT,
        b < EXACT_LIMIT,
    ensures
        below(of_nat(a), of_nat(b)) <==> a < b,
{
    lemma_of_nat(a);
    lemma_of_nat(b);
    let x = of_nat(a).unsigned_bits() as int;
    let y = of_nat(b).unsigned_bits() as int;
    let u = one_unit();
    lemma_pow2_pos(1074);
    if x < y {
        lemma_units_increase(x, y);
        assert(a < b) by (nonlinear_arith)
            requires
                a * u < b * u,
                u > 0,
        ;
    } else if y < x {
        lemma_units_increase(y, x);
        assert(b < a) by (nonlinear_arith)
            requires
                b * u < a * u,
                u > 0,
        ;
    } else {
        assert(a == b) by (nonlinear_arith)
            requires
                a * u == b * u,
                u > 0,
        ;
    }
}

/// The order of finite doubles is that of their values.
pub proof fn lemma_order_of_values(a: Binary64, b: Binary64)
    requires
        a.finite(),
        b.finite(),
    ensures
        below(a, b) <==> a.value() < b.value(),
{
    let x = a.unsigned_bits() as int;
    let y = b.unsigned_bits() as int;
    assert(units(0) == 0) by {
        assert(0 * pow2(0) == 0) by (nonlinear_arith);
    }
    if x < y {
        lemma_units_increase(x, y);
    }
    if y < x {
        lemma_units_increase(y, x);
    }
    if x > 0 {
        lemma_units_increase(0, x);
    }
    if y > 0 {
        lemma_units_increase(0, y);
    }
}

/// A sum does not get less where its second part does not.
pub proof fn lemma_sum_monotone(a: Binary64, b: Binary64, c: Binary64)
    requires
        !b.nan(),
        !c.nan(),
        !sum(a, b).nan(),
        !sum(a, c).nan(),
        rank(b) <= rank(c),
    ensures
        rank(sum(a, b)) <= rank(sum(a, c)),
{
    if a.finite() && b.finite() && c.finite() {
        lemma_order_of_values(c, b);
        let v = a.value() + b.value();
        let u = a.value() + c.value();
        if v > 0 {
            lemma_nearest_exists(v as nat, 1);
            lemma_nearest_exists(u as nat, 1);
            lemma_rounded_monotone(v as nat, u as nat, 1, rounded(v as nat, 1), rounded(u as nat, 1));
        } else if u < 0 {
            lemma_nearest_exists((-v) as nat, 1);
            lemma_nearest_exists((-u) as nat, 1);
            lemma_rounded_monotone(
                (-u) as nat,
                (-v) as nat,
                1,
                rounded((-u) as nat, 1),
                rounded((-v) as nat, 1),
            );
        } else {
            lemma_nearest_exists((-v) as nat, 1);
            lemma_nearest_exists(u as nat, 1);
        }
    } else if a.finite() && b.finite() {
        lemma_rounded_bounded(a.value() + b.value(), a.negative() && b.negative());
    } else if a.finite() && c.finite() {
        lemma_rounded_bounded(a.value() + c.value(), a.negative() && c.negative());
    }
}

/// What rounding gives is a number, perhaps an infinite one.
pub proof fn lemma_rounded_bounded(v: int, negative_zero: bool)
    ensures
        !rounded_value(v, negative_zero).nan(),
        -INFINITY_BITS <= rank(rounded_value(v, negative_zero)) <= INFINITY_BITS,
        v >= 0 && !negative_zero ==> !rounded_value(v, negative_zero).negative(),
{
    if v > 0 {
        lemma_nearest_exists(v as nat, 1);
    } else if v < 0 {
        lemma_nearest_exists((-v) as nat, 1);
    }
}

/// Adding a nonnegative number does not give less.
pub proof fn lemma_sum_grows(a: Binary64, d: Binary64)
    requires
        !a.nan() && !a.negative(),
        !d.nan() && !d.negative(),
    ensures
        !sum(a, d).nan() && !sum(a, d).negative(),
        rank(a) <= rank(sum(a, d)),
{
    if a.finite() && d.finite() {
        let v = (a.value() + d.value()) as nat;
        lemma_rounded_exact(a.bits);
        lemma_nearest_exists(units(a.bits as int), 1);
        lemma_nearest_exists(v, 1);
        lemma_rounded_monotone(units(a.bits as int), v, 1, a.bits, rounded(v, 1));
        if v == 0 && a.bits > 0 {
            lemma_units_increase(0, a.bits as int);
        }
    }
}

/// Taking a nonnegative number away does not give more.
pub proof fn lemma_difference_shrinks(a: Binary64, d: Binary64)
    requires
        !a.nan() && !a.negative(),
        d.finite() && !d.negative(),
    ensures
        !difference(a, d).nan(),
        rank(difference(a, d)) <= rank(a),
{
    if a.finite() {
        let v = a.value() + negated(d).value();
        assert(negated(d).value() == -d.value());
        if v > 0 {
            lemma_rounded_exact(a.bits);
            lemma_nearest_exists(units(a.bits as int), 1);
            lemma_nearest_exists(v as nat, 1);
            lemma_rounded_monotone(v as nat, units(a.bits as int), 1, rounded(v as nat, 1), a.bits);
        } else if v < 0 {
            lemma_nearest_exists((-v) as nat, 1);
        }
    }
}

/// The nearest double depends on the ratio alone.
pub proof fn lemma_rounded_ratio(num: nat, den: nat, k: nat)
    requires
        den > 0,
        k > 0,
    ensures
        rounded(num * k, den * k) == rounded(num, den),
{
    let b = rounded(num, den);
    lemma_nearest_exists(num, den);
    let x = units(b - 1) + units(b as int);
    let y = units(b as int) + units(b + 1);
    assert(den * k > 0 && (den * k) * x == (den * x) * k && (den * k) * y == (den * y) * k)
        by (nonlinear_arith)
        requires
            den > 0,
            k > 0,
    ;
    assert(2 * (num * k) == (2 * num) * k) by (nonlinear_arith);
    let n = 2 * num;
    let p = den * x;
    let q = den * y;
    assert((n > p ==> n * k > p * k) && (n == p ==> n * k == p * k) && (n < q ==> n * k < q * k) && (n
        == q ==> n * k == q * k)) by (nonlinear_arith)
        requires
            k > 0,
    ;
    lemma_rounded(num * k, den * k, b);
}

/// Nothing is rounded to zero.
pub proof fn lemma_rounded_zero(den: nat)
    requires
        den > 0,
    ensures
        rounded(0, den) == 0,
{
    lemma_units_increase(0, 1);
    let y = units(0) + units(1);
    assert(den * y > 0) by (nonlinear_arith)
        requires
            den > 0,
            y > 0,
    ;
    lemma_rounded(0, den, 0);
}

} // verus!
