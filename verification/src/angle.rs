//! Rotation angles.
use crate::binary64::{absolute, below, quotient, remainder, Binary64};
use vstd::prelude::*;

verus! {

/// The bit pattern of `1e-9`.
pub const EPS_BITS: u64 = 0x3e11_2e0b_e826_d695;

/// The bit pattern of pi.
pub const PI_BITS: u64 = 0x4009_21fb_5444_2d18;

/// The bit pattern of twice pi.
pub const TAU_BITS: u64 = 0x4019_21fb_5444_2d18;

/// The bit pattern of half of pi.
pub const HALF_PI_BITS: u64 = 0x3ff9_21fb_5444_2d18;

/// The bit pattern of two.
pub const TWO_BITS: u64 = 0x4000_0000_0000_0000;

/// Whether a rotation by this angle does something.
pub open spec fn turns(a: Binary64) -> bool {
    below(Binary64 { bits: EPS_BITS }, absolute(a))
}

pub fn does_turn(a: Binary64) -> (r: bool)
    ensures
        r == turns(a),
{
    Binary64 { bits: EPS_BITS }.lt(a.abs())
}

/// Half an angle.
pub open spec fn half(a: Binary64) -> Binary64 {
    quotient(a, Binary64 { bits: TWO_BITS })
}

pub fn halved(a: Binary64) -> (r: Binary64)
    ensures
        r == half(a),
{
    a.over(Binary64 { bits: TWO_BITS })
}

/// An angle less its full turns; an angle next to nothing becomes zero.
pub open spec fn wrapped(a: Binary64) -> Binary64 {
    let t = remainder(a, Binary64 { bits: TAU_BITS });
    if below(absolute(t), Binary64 { bits: EPS_BITS }) {
        Binary64 { bits: 0 }
    } else {
        t
    }
}

pub fn wrap_angle(a: Binary64) -> (r: Binary64)
    ensures
        r == wrapped(a),
{
    let t = a.rem(Binary64 { bits: TAU_BITS });
    if t.abs().lt(Binary64 { bits: EPS_BITS }) {
        Binary64 { bits: 0 }
    } else {
        t
    }
}

/// A single-qubit operation.
#[derive(Debug, Clone, Copy, PartialEq, Eq, Structural)]
pub enum Turn {
    H,
    X,
    Y,
    Z,
    S,
    Sdg,
    T,
    Tdg,
    Rx(Binary64),
    Ry(Binary64),
    Rz(Binary64),
}

/// Angles of three rotations, about Z by `delta`, then about Y by `gamma`,
/// then about Z by `beta`.
#[derive(Debug, Clone, Copy, PartialEq, Eq, Structural)]
pub struct Euler {
    pub delta: Binary64,
    pub gamma: Binary64,
    pub beta: Binary64,
}

/// The Euler angles of a series of single-qubit operations, the first of
/// which acts first.
pub type EulerOf = spec_fn(Seq<Turn>) -> Euler;

/// A function gives these Euler angles.
pub open spec fn synthesizes<F: Fn(&Vec<Turn>) -> Euler>(f: F, e: EulerOf) -> bool {
    forall|v: &Vec<Turn>, x: Euler| #[trigger] call_ensures(f, (v,), x) ==> x == e(v@)
}

/// A function can be asked for any series.
pub open spec fn total<F: Fn(&Vec<Turn>) -> Euler>(f: F) -> bool {
    forall|v: &Vec<Turn>| #[trigger] call_requires(f, (v,))
}

/// The Euler angles of a single operation.
pub fn euler_of_one<F: Fn(&Vec<Turn>) -> Euler>(f: &F, t: Turn) -> (r: Euler)
    requires
        total(*f),
    ensures
        forall|e: EulerOf| #[trigger] synthesizes(*f, e) ==> r == e(seq![t]),
{
    let mut v: Vec<Turn> = Vec::new();
    v.push(t);
    assert(v@ =~= seq![t]);
    f(&v)
}

} // verus!
