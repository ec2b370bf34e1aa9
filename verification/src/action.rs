//! What gates do to the state of two qubits, and when two series of gates do
//! the same.
//!
//! No gate acts on more than two qubits, so what a gate does is told by what
//! it does to the state of a pair.
use crate::amplitude::{
    lemma_amplitude_turned, lemma_doubled, lemma_linear_scaled, lemma_rotated_linear,
    lemma_scaled_twice, lemma_state_same_turn, linear, rotated, Operator, State,
};
use crate::angle::{half, turns, HALF_PI_BITS, PI_BITS};
use crate::binary64::{negated, Binary64};
use crate::ir::{Conditions, Gate};
use vstd::prelude::*;

verus! {

/// A reading of angles as eighths of a full turn, and of conditions as
/// holding or not.
pub struct Reading {
    pub eighths: spec_fn(Binary64) -> nat,
    pub holds: spec_fn(Conditions) -> bool,
}

impl Reading {
    /// Whether angles are read as what they are: pi is half a turn, the
    /// negative of an angle turns back, and an angle next to nothing does not
    /// turn.
    pub open spec fn faithful(self) -> bool {
        &&& (self.eighths)(Binary64 { bits: PI_BITS }) % 8 == 4
        &&& (self.eighths)(Binary64 { bits: HALF_PI_BITS }) % 8 == 2
        &&& self.halves(Binary64 { bits: PI_BITS })
        &&& forall|a: Binary64|
            ((self.eighths)(a) + #[trigger] (self.eighths)(negated(a))) % 8 == 0
        &&& forall|a: Binary64| !turns(a) ==> #[trigger] (self.eighths)(a) % 8 == 0
    }

    /// Whether twice the half of an angle is the angle.
    pub open spec fn halves(self, a: Binary64) -> bool {
        (2 * (self.eighths)(half(a))) % 8 == (self.eighths)(a) as int % 8
    }
}

/// Both qubits signed, flipped, or both.
pub open spec fn signed_both(s: State) -> State {
    s.signed(true).signed(false)
}

pub open spec fn flipped_both(s: State) -> State {
    s.flipped(true).flipped(false)
}

/// Flipped and signed with a quarter turn: the axis Y.
pub open spec fn crossed(s: State, first: bool) -> State {
    s.signed(first).flipped(first).eighth().eighth()
}

pub open spec fn crossed_both(s: State) -> State {
    crossed(crossed(s, true), false)
}

/// The target flipped where the control is one.
pub open spec fn controlled_flip(s: State, control_first: bool) -> State {
    if control_first {
        State { v10: s.v11, v11: s.v10, ..s }
    } else {
        State { v01: s.v11, v11: s.v01, ..s }
    }
}

/// Turned where both qubits are one.
pub open spec fn phased_both(s: State, k: nat) -> State {
    State { v11: s.v11.turned(k), ..s }
}

pub open spec fn exchanged(s: State) -> State {
    State { v01: s.v10, v10: s.v01, ..s }
}

/// What a gate on one qubit of a pair does to it.
pub open spec fn single(r: Reading, g: Gate, first: bool, s: State) -> State {
    match g {
        Gate::H(_) => s.flipped(first).plus(s.signed(first)),
        Gate::X(_) => s.flipped(first),
        Gate::Y(_) => crossed(s, first),
        Gate::Z(_) => s.signed(first),
        Gate::S(_) => s.phased(first, 2),
        Gate::Sdg(_) => s.phased(first, 6),
        Gate::T(_) => s.phased(first, 1),
        Gate::Tdg(_) => s.phased(first, 7),
        Gate::Rx(_, t) => rotated(s, s.flipped(first), (r.eighths)(t)),
        Gate::Ry(_, t) => rotated(s, crossed(s, first), (r.eighths)(t)),
        Gate::Rz(_, t) => rotated(s, s.signed(first), (r.eighths)(t)),
        _ => s,
    }
}

/// What a gate on both qubits of a pair does; `straight` where its first
/// qubit is the first of the pair.
pub open spec fn double(r: Reading, g: Gate, straight: bool, s: State) -> State {
    match g {
        Gate::Cx(_, _) => controlled_flip(s, straight),
        Gate::Cz(_, _) => phased_both(s, 4),
        Gate::Cp(_, _, t) => phased_both(s, (r.eighths)(t)),
        Gate::Swap(_, _) => exchanged(s),
        Gate::Rxx(_, _, t) => rotated(s, flipped_both(s), (r.eighths)(t)),
        Gate::Ryy(_, _, t) => rotated(s, crossed_both(s), (r.eighths)(t)),
        Gate::Rzz(_, _, t) => rotated(s, signed_both(s), (r.eighths)(t)),
        _ => s,
    }
}

/// What a gate does to the state of the qubits `a` and `b`. A conditioned gate
/// acts where its conditions hold.
pub open spec fn acted(r: Reading, g: Gate, a: usize, b: usize, s: State) -> State
    decreases g,
{
    match g {
        Gate::If(c, inner) => if (r.holds)(c) {
            acted(r, *inner, a, b, s)
        } else {
            s
        },
        Gate::Cx(x, y)
        | Gate::Cz(x, y)
        | Gate::Swap(x, y)
        | Gate::Cp(x, y, _)
        | Gate::Rxx(x, y, _)
        | Gate::Ryy(x, y, _)
        | Gate::Rzz(x, y, _) => if x == a && y == b {
            double(r, g, true, s)
        } else if x == b && y == a {
            double(r, g, false, s)
        } else {
            s
        },
        Gate::H(q)
        | Gate::X(q)
        | Gate::Y(q)
        | Gate::Z(q)
        | Gate::S(q)
        | Gate::Sdg(q)
        | Gate::T(q)
        | Gate::Tdg(q)
        | Gate::Rx(q, _)
        | Gate::Ry(q, _)
        | Gate::Rz(q, _) => if q == a {
            single(r, g, true, s)
        } else if q == b {
            single(r, g, false, s)
        } else {
            s
        },
        Gate::Measure(_, _) => s,
    }
}

/// What gates do one after the other.
pub open spec fn performed(r: Reading, gates: Seq<Gate>, a: usize, b: usize, s: State) -> State
    decreases gates.len(),
{
    if gates.len() == 0 {
        s
    } else {
        acted(r, gates.last(), a, b, performed(r, gates.drop_last(), a, b, s))
    }
}

pub open spec fn alike_by(
    r: Reading,
    x: Seq<Gate>,
    y: Seq<Gate>,
    a: usize,
    b: usize,
    m: nat,
    j: nat,
    n: nat,
    k: nat,
) -> bool {
    forall|s: State|
        (#[trigger] performed(r, x, a, b, s)).scaled(m, j) == performed(r, y, a, b, s).scaled(n, k)
}

/// Whether two series of gates do the same to every state of two qubits, up
/// to one factor, a global phase and a power of the root of two.
pub open spec fn alike(r: Reading, x: Seq<Gate>, y: Seq<Gate>, a: usize, b: usize) -> bool {
    exists|m: nat, j: nat, n: nat, k: nat| alike_by(r, x, y, a, b, m, j, n, k)
}

proof fn lemma_axes_linear(first: bool)
    ensures
        linear(|s: State| s.flipped(first)),
        linear(|s: State| s.signed(first)),
        linear(|s: State| crossed(s, first)),
        linear(|s: State| s.flipped(first).plus(s.signed(first))),
        linear(|s: State| controlled_flip(s, first)),
{
}

proof fn lemma_double_axes_linear()
    ensures
        linear(|s: State| flipped_both(s)),
        linear(|s: State| signed_both(s)),
        linear(|s: State| exchanged(s)),
{
}

proof fn lemma_crossed_both_linear()
    ensures
        linear(|s: State| crossed_both(s)),
{
    lemma_axes_linear(true);
    lemma_axes_linear(false);
    let f = |s: State| crossed(s, true);
    let g = |s: State| crossed(s, false);
    let h = |s: State| crossed_both(s);
    assert forall|x: State, y: State| #[trigger] h(x.plus(y)) == h(x).plus(h(y)) by {
        assert(f(x.plus(y)) == f(x).plus(f(y)));
        assert(g(f(x).plus(f(y))) == g(f(x)).plus(g(f(y))));
    }
    assert forall|x: State, y: State| #[trigger] h(x.minus(y)) == h(x).minus(h(y)) by {
        assert(f(x.minus(y)) == f(x).minus(f(y)));
        assert(g(f(x).minus(f(y))) == g(f(x)).minus(g(f(y))));
    }
    assert forall|x: State| #[trigger] h(x.eighth()) == h(x).eighth() by {
        assert(f(x.eighth()) == f(x).eighth());
        assert(g(f(x).eighth()) == g(f(x)).eighth());
    }
}

proof fn lemma_phases_linear(first: bool, k: nat)
    ensures
        linear(|s: State| s.phased(first, k)),
        linear(|s: State| phased_both(s, k)),
{
    let f = |s: State| s.phased(first, k);
    let g = |s: State| phased_both(s, k);
    assert forall|x: State, y: State|
        #![trigger x.plus(y)]
        f(x.plus(y)) == f(x).plus(f(y)) && g(x.plus(y)) == g(x).plus(g(y)) by {
        lemma_amplitude_turned(x.v01, y.v01, k);
        lemma_amplitude_turned(x.v10, y.v10, k);
        lemma_amplitude_turned(x.v11, y.v11, k);
    }
    assert forall|x: State, y: State|
        #![trigger x.minus(y)]
        f(x.minus(y)) == f(x).minus(f(y)) && g(x.minus(y)) == g(x).minus(g(y)) by {
        lemma_amplitude_turned(x.v01, y.v01, k);
        lemma_amplitude_turned(x.v10, y.v10, k);
        lemma_amplitude_turned(x.v11, y.v11, k);
    }
    assert forall|x: State|
        #![trigger x.eighth()]
        f(x.eighth()) == f(x).eighth() && g(x.eighth()) == g(x).eighth() by {
        lemma_amplitude_turned(x.v01, x.v01, k);
        lemma_amplitude_turned(x.v10, x.v10, k);
        lemma_amplitude_turned(x.v11, x.v11, k);
    }
}

pub open spec fn single_operator(r: Reading, g: Gate, first: bool) -> Operator {
    |s: State| single(r, g, first, s)
}

pub open spec fn double_operator(r: Reading, g: Gate, straight: bool) -> Operator {
    |s: State| double(r, g, straight, s)
}

proof fn lemma_same_operator(f: Operator, g: Operator)
    requires
        linear(f),
        forall|s: State| #[trigger] f(s) == g(s),
    ensures
        linear(g),
{
    assert forall|x: State, y: State| #[trigger] g(x.plus(y)) == g(x).plus(g(y)) by {
        assert(f(x.plus(y)) == g(x.plus(y)) && f(x) == g(x) && f(y) == g(y));
    }
    assert forall|x: State, y: State| #[trigger] g(x.minus(y)) == g(x).minus(g(y)) by {
        assert(f(x.minus(y)) == g(x.minus(y)) && f(x) == g(x) && f(y) == g(y));
    }
    assert forall|x: State| #[trigger] g(x.eighth()) == g(x).eighth() by {
        assert(f(x.eighth()) == g(x.eighth()) && f(x) == g(x));
    }
}

proof fn lemma_single_linear(r: Reading, g: Gate, first: bool)
    ensures
        linear(single_operator(r, g, first)),
{
    let o = single_operator(r, g, first);
    lemma_axes_linear(first);
    match g {
        Gate::H(_) => lemma_same_operator(|s: State| s.flipped(first).plus(s.signed(first)), o),
        Gate::X(_) => lemma_same_operator(|s: State| s.flipped(first), o),
        Gate::Y(_) => lemma_same_operator(|s: State| crossed(s, first), o),
        Gate::Z(_) => lemma_same_operator(|s: State| s.signed(first), o),
        Gate::S(_) => {
            lemma_phases_linear(first, 2);
            lemma_same_operator(|s: State| s.phased(first, 2), o);
        },
        Gate::Sdg(_) => {
            lemma_phases_linear(first, 6);
            lemma_same_operator(|s: State| s.phased(first, 6), o);
        },
        Gate::T(_) => {
            lemma_phases_linear(first, 1);
            lemma_same_operator(|s: State| s.phased(first, 1), o);
        },
        Gate::Tdg(_) => {
            lemma_phases_linear(first, 7);
            lemma_same_operator(|s: State| s.phased(first, 7), o);
        },
        Gate::Rx(_, t) => {
            let p = |s: State| s.flipped(first);
            lemma_rotated_linear(p, (r.eighths)(t));
            lemma_same_operator(|s: State| rotated(s, p(s), (r.eighths)(t)), o);
        },
        Gate::Ry(_, t) => {
            let p = |s: State| crossed(s, first);
            lemma_rotated_linear(p, (r.eighths)(t));
            lemma_same_operator(|s: State| rotated(s, p(s), (r.eighths)(t)), o);
        },
        Gate::Rz(_, t) => {
            let p = |s: State| s.signed(first);
            lemma_rotated_linear(p, (r.eighths)(t));
            lemma_same_operator(|s: State| rotated(s, p(s), (r.eighths)(t)), o);
        },
        _ => {},
    }
}

proof fn lemma_double_linear(r: Reading, g: Gate, straight: bool)
    ensures
        linear(double_operator(r, g, straight)),
{
    let o = double_operator(r, g, straight);
    match g {
        Gate::Cx(_, _) => {
            lemma_axes_linear(straight);
            lemma_same_operator(|s: State| controlled_flip(s, straight), o);
        },
        Gate::Cz(_, _) => {
            lemma_phases_linear(true, 4);
            lemma_same_operator(|s: State| phased_both(s, 4), o);
        },
        Gate::Cp(_, _, t) => {
            lemma_phases_linear(true, (r.eighths)(t));
            lemma_same_operator(|s: State| phased_both(s, (r.eighths)(t)), o);
        },
        Gate::Swap(_, _) => {
            lemma_double_axes_linear();
            lemma_same_operator(|s: State| exchanged(s), o);
        },
        Gate::Rxx(_, _, t) => {
            let p = |s: State| flipped_both(s);
            lemma_double_axes_linear();
            lemma_rotated_linear(p, (r.eighths)(t));
            lemma_same_operator(|s: State| rotated(s, p(s), (r.eighths)(t)), o);
        },
        Gate::Ryy(_, _, t) => {
            let p = |s: State| crossed_both(s);
            lemma_crossed_both_linear();
            lemma_rotated_linear(p, (r.eighths)(t));
            lemma_same_operator(|s: State| rotated(s, p(s), (r.eighths)(t)), o);
        },
        Gate::Rzz(_, _, t) => {
            let p = |s: State| signed_both(s);
            lemma_double_axes_linear();
            lemma_rotated_linear(p, (r.eighths)(t));
            lemma_same_operator(|s: State| rotated(s, p(s), (r.eighths)(t)), o);
        },
        _ => {},
    }
}

/// A gate respects factors.
pub proof fn lemma_acted_scaled(r: Reading, g: Gate, a: usize, b: usize, s: State, m: nat, k: nat)
    ensures
        acted(r, g, a, b, s.scaled(m, k)) == acted(r, g, a, b, s).scaled(m, k),
    decreases g,
{
    if let Gate::If(_, inner) = g {
        lemma_acted_scaled(r, *inner, a, b, s, m, k);
    } else {
        lemma_single_linear(r, g, true);
        lemma_single_linear(r, g, false);
        lemma_double_linear(r, g, true);
        lemma_double_linear(r, g, false);
        lemma_linear_scaled(single_operator(r, g, true), s, m, k);
        lemma_linear_scaled(single_operator(r, g, false), s, m, k);
        lemma_linear_scaled(double_operator(r, g, true), s, m, k);
        lemma_linear_scaled(double_operator(r, g, false), s, m, k);
    }
}

pub proof fn lemma_performed_scaled(
    r: Reading,
    gates: Seq<Gate>,
    a: usize,
    b: usize,
    s: State,
    m: nat,
    k: nat,
)
    ensures
        performed(r, gates, a, b, s.scaled(m, k)) == performed(r, gates, a, b, s).scaled(m, k),
    decreases gates.len(),
{
    if gates.len() > 0 {
        let front = gates.drop_last();
        lemma_performed_scaled(r, front, a, b, s, m, k);
        lemma_acted_scaled(r, gates.last(), a, b, performed(r, front, a, b, s), m, k);
    }
}

pub proof fn lemma_performed_joined(
    r: Reading,
    x: Seq<Gate>,
    y: Seq<Gate>,
    a: usize,
    b: usize,
    s: State,
)
    ensures
        performed(r, x + y, a, b, s) == performed(r, y, a, b, performed(r, x, a, b, s)),
    decreases y.len(),
{
    if y.len() == 0 {
        assert(x + y =~= x);
    } else {
        lemma_performed_joined(r, x, y.drop_last(), a, b, s);
        assert((x + y).drop_last() =~= x + y.drop_last());
    }
}

pub proof fn lemma_alike_self(r: Reading, x: Seq<Gate>, a: usize, b: usize)
    ensures
        alike(r, x, x, a, b),
{
    assert(alike_by(r, x, x, a, b, 0, 0, 0, 0));
}

pub proof fn lemma_alike_symmetric(r: Reading, x: Seq<Gate>, y: Seq<Gate>, a: usize, b: usize)
    requires
        alike(r, x, y, a, b),
    ensures
        alike(r, y, x, a, b),
{
    let (m, j, n, k) = choose|m: nat, j: nat, n: nat, k: nat| alike_by(r, x, y, a, b, m, j, n, k);
    assert forall|s: State|
        (#[trigger] performed(r, y, a, b, s)).scaled(n, k) == performed(r, x, a, b, s).scaled(m, j) by {
        assert(performed(r, x, a, b, s).scaled(m, j) == performed(r, y, a, b, s).scaled(n, k));
    }
    assert(alike_by(r, y, x, a, b, n, k, m, j));
}

pub proof fn lemma_alike_transitive(
    r: Reading,
    x: Seq<Gate>,
    y: Seq<Gate>,
    z: Seq<Gate>,
    a: usize,
    b: usize,
)
    requires
        alike(r, x, y, a, b),
        alike(r, y, z, a, b),
    ensures
        alike(r, x, z, a, b),
{
    let (m, j, n, k) = choose|m: nat, j: nat, n: nat, k: nat| alike_by(r, x, y, a, b, m, j, n, k);
    let (m2, j2, n2, k2) = choose|m: nat, j: nat, n: nat, k: nat|
        alike_by(r, y, z, a, b, m, j, n, k);
    assert forall|s: State|
        (#[trigger] performed(r, x, a, b, s)).scaled(m + m2, j + j2) == performed(
            r,
            z,
            a,
            b,
            s,
        ).scaled(n + n2, k + k2) by {
        let p = performed(r, x, a, b, s);
        let q = performed(r, y, a, b, s);
        let t = performed(r, z, a, b, s);
        assert(p.scaled(m, j) == q.scaled(n, k));
        assert(q.scaled(m2, j2) == t.scaled(n2, k2));
        lemma_scaled_twice(p, m, j, m2, j2);
        lemma_scaled_twice(q, n, k, m2, j2);
        lemma_scaled_twice(q, m2, j2, n, k);
        lemma_scaled_twice(t, n2, k2, n, k);
    }
    assert(alike_by(r, x, z, a, b, m + m2, j + j2, n + n2, k + k2));
}

/// Series that do the same do so one after the other.
pub proof fn lemma_alike_joined(
    r: Reading,
    x: Seq<Gate>,
    y: Seq<Gate>,
    x2: Seq<Gate>,
    y2: Seq<Gate>,
    a: usize,
    b: usize,
)
    requires
        alike(r, x, y, a, b),
        alike(r, x2, y2, a, b),
    ensures
        alike(r, x + x2, y + y2, a, b),
{
    let (m, j, n, k) = choose|m: nat, j: nat, n: nat, k: nat| alike_by(r, x, y, a, b, m, j, n, k);
    let (m2, j2, n2, k2) = choose|m: nat, j: nat, n: nat, k: nat|
        alike_by(r, x2, y2, a, b, m, j, n, k);
    assert forall|s: State|
        (#[trigger] performed(r, x + x2, a, b, s)).scaled(m + m2, j + j2) == performed(
            r,
            y + y2,
            a,
            b,
            s,
        ).scaled(n + n2, k + k2) by {
        let p = performed(r, x, a, b, s);
        let q = performed(r, y, a, b, s);
        let px = performed(r, x2, a, b, p);
        let qx = performed(r, x2, a, b, q);
        let qy = performed(r, y2, a, b, q);
        lemma_performed_joined(r, x, x2, a, b, s);
        lemma_performed_joined(r, y, y2, a, b, s);
        assert(p.scaled(m, j) == q.scaled(n, k));
        lemma_performed_scaled(r, x2, a, b, p, m, j);
        lemma_performed_scaled(r, x2, a, b, q, n, k);
        assert(px.scaled(m, j) == qx.scaled(n, k));
        assert(qx.scaled(m2, j2) == qy.scaled(n2, k2));
        lemma_scaled_twice(px, m, j, m2, j2);
        lemma_scaled_twice(qx, n, k, m2, j2);
        lemma_scaled_twice(qx, m2, j2, n, k);
        lemma_scaled_twice(qy, n2, k2, n, k);
    }
    assert(alike_by(r, x + x2, y + y2, a, b, m + m2, j + j2, n + n2, k + k2));
}

/// A rotation that does not turn does nothing but double the state.
pub proof fn lemma_no_turn(s: State, p: State, k: nat)
    requires
        k % 8 == 0,
    ensures
        rotated(s, p, k) == s.scaled(2, 0),
{
    lemma_state_same_turn(s.minus(p), k, 0);
    lemma_doubled(s);
    assert(s.minus(p).turned(0) == s.minus(p));
}

} // verus!
