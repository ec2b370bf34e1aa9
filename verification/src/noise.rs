//! Depolarizing errors.
use crate::angle::TWO_BITS;
use crate::binary64::{
    below, lemma_nearest_exists, lemma_rounded_exact, lemma_rounded_monotone,
    lemma_rounded_ratio, lemma_rounded_zero, lemma_units_increase, one_unit, product, quotient, rank, rounded, scale, significand, units,
    Binary64, FRACTION, INFINITY_BITS,
};
use crate::fidelity::ONE_BITS;
use vstd::arithmetic::power2::{
    lemma2_to64, lemma2_to64_rest, lemma_pow2_adds, lemma_pow2_pos, lemma_pow2_unfold, pow2,
};
use vstd::prelude::*;

verus! {

/// The bit pattern of three.
pub const THREE_BITS: u64 = 0x4008_0000_0000_0000;

/// An error on one qubit.
#[derive(Debug, Clone, Copy, PartialEq, Eq, Structural)]
pub enum PauliError {
    X,
    Y,
    Z,
}

/// Up to where a sample gives the first of three errors of total
/// probability `p`.
pub open spec fn first_third(p: Binary64) -> Binary64 {
    quotient(p, Binary64 { bits: THREE_BITS })
}

/// Up to where a sample gives one of the first two.
pub open spec fn two_thirds(p: Binary64) -> Binary64 {
    quotient(product(Binary64 { bits: TWO_BITS }, p), Binary64 { bits: THREE_BITS })
}

/// The error that a sample between zero and one stands for, where errors
/// have probability `p` and are equally likely.
pub open spec fn depolarized(p: Binary64, sample: Binary64) -> Option<PauliError> {
    if below(sample, first_third(p)) {
        Some(PauliError::X)
    } else if below(sample, two_thirds(p)) {
        Some(PauliError::Y)
    } else if below(sample, p) {
        Some(PauliError::Z)
    } else {
        None
    }
}

/// Draws an error from a sample between zero and one.
pub fn sample_depolarizing_error(p: Binary64, uniform_sample: Binary64) -> (r: Option<PauliError>)
    ensures
        r == depolarized(p, uniform_sample),
{
    let three = Binary64 { bits: THREE_BITS };
    if uniform_sample.lt(p.over(three)) {
        Some(PauliError::X)
    } else if uniform_sample.lt(Binary64 { bits: TWO_BITS }.times(p).over(three)) {
        Some(PauliError::Y)
    } else if uniform_sample.lt(p) {
        Some(PauliError::Z)
    } else {
        None
    }
}

/// Doubling a number up to one is exact.
proof fn lemma_doubled(u: u64) -> (d: u64)
    requires
        u <= ONE_BITS,
    ensures
        d < INFINITY_BITS,
        units(d as int) == 2 * units(u as int),
{
    let f = FRACTION as int;
    lemma2_to64();
    if u < f {
        if 2 * u < f {
            assert((2 * u) * pow2(0) == 2 * (u * pow2(0))) by (nonlinear_arith);
            (2 * u) as u64
        } else {
            let d = (2 * u) as u64;
            assert(d as int / f == 1 && d as int % f == d - f) by (nonlinear_arith)
                requires
                    f <= d < 2 * f,
            ;
            assert(scale(d as int) == 0 && significand(d as int) == d);
            assert((2 * u) * pow2(0) == 2 * (u * pow2(0))) by (nonlinear_arith);
            d
        }
    } else {
        let d = (u + f) as u64;
        assert(d as int / f == u as int / f + 1 && d as int % f == u as int % f) by (nonlinear_arith)
            requires
                f > 0,
                d == u + f,
        ;
        let k = scale(u as int);
        assert(u as int / f >= 1) by (nonlinear_arith)
            requires
                u >= f,
                f > 0,
        ;
        assert(scale(d as int) == k + 1);
        lemma_pow2_unfold(k + 1);
        let m = significand(u as int);
        assert(m * (2 * pow2(k)) == 2 * (m * pow2(k))) by (nonlinear_arith);
        assert(u as int % f >= 0);
        assert(m * pow2(k) >= 0) by (nonlinear_arith)
            requires
                m >= 0,
                pow2(k) >= 0,
        ;
        d
    }
}

/// How many units the whole numbers up to three have.
proof fn lemma_small_numbers()
    ensures
        units(TWO_BITS as int) == 2 * one_unit(),
        units(THREE_BITS as int) == 3 * one_unit(),
        one_unit() > 0,
{
    lemma_pow2_pos(1074);
    lemma_pow2_adds(52, 1023);
    lemma_pow2_adds(51, 1023);
    lemma_pow2_unfold(1075);
    lemma2_to64();
    lemma2_to64_rest();
    let k = pow2(1023);
    assert(scale(TWO_BITS as int) == 1023 && significand(TWO_BITS as int) == FRACTION);
    assert(scale(THREE_BITS as int) == 1023);
    assert(significand(THREE_BITS as int) == FRACTION + pow2(51));
    assert((FRACTION + pow2(51)) * k == FRACTION * k + pow2(51) * k) by (nonlinear_arith);
}

/// The three errors take up equal parts below the probability, in order; no
/// sample beyond it gives an error.
pub proof fn lemma_depolarized(p: Binary64, sample: Binary64)
    requires
        !p.negative(),
        p.bits <= ONE_BITS,
    ensures
        depolarized(p, sample) is Some <==> below(sample, p),
        rank(first_third(p)) <= rank(two_thirds(p)) <= rank(p),
{
    lemma_small_numbers();
    let one = one_unit();
    let u = units(p.bits as int);
    if p.bits == 0 {
        assert(rounded(0, one) == 0) by {
            lemma_rounded_zero(one);
        }
        assert(units(0) == 0) by {
            assert(0 * pow2(0) == 0) by (nonlinear_arith);
        }
        assert(units(TWO_BITS as int) * 0 == 0) by (nonlinear_arith);
        assert(product(Binary64 { bits: TWO_BITS }, p).bits == 0);
    } else {
        let d = lemma_doubled(p.bits);
        // Twice the probability.
        assert((2 * one) * u == (2 * u) * one) by (nonlinear_arith);
        lemma_rounded_ratio(2 * u, 1, one);
        assert(1 * one == one) by (nonlinear_arith);
        lemma_rounded_exact(d);
        let twice = product(Binary64 { bits: TWO_BITS }, p);
        assert(twice.bits == d);
        if d == 0 {
            assert(units(0) == 0) by {
                assert(0 * pow2(0) == 0) by (nonlinear_arith);
            }
            lemma_units_increase(0, p.bits as int);
        }
        // The two thresholds.
        lemma_rounded_ratio(u, 3, one);
        lemma_rounded_ratio(2 * u, 3, one);
        lemma_rounded_ratio(u, 1, 3);
        assert(u * 3 == 3 * u && 1 * 3 == 3) by (nonlinear_arith);
        lemma_rounded_exact(p.bits);
        lemma_nearest_exists(u, 3);
        lemma_nearest_exists(2 * u, 3);
        lemma_nearest_exists(3 * u, 3);
        lemma_rounded_monotone(u, 2 * u, 3, rounded(u, 3), rounded(2 * u, 3));
        lemma_rounded_monotone(2 * u, 3 * u, 3, rounded(2 * u, 3), rounded(3 * u, 3));
        assert(first_third(p).bits == rounded(u, 3));
        assert(two_thirds(p).bits == rounded(2 * u, 3));
    }
}

} // verus!
