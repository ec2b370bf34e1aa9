//! Decomposition into native gates keeps what a circuit does.
use crate::action::{
    acted, alike, alike_by, controlled_flip, crossed, crossed_both, flipped_both,
    lemma_acted_scaled, lemma_alike_joined, lemma_alike_self, lemma_alike_symmetric,
    lemma_alike_transitive, lemma_no_turn, performed, phased_both, signed_both, Reading,
};
use crate::amplitude::{
    lemma_amplitude_turned, lemma_doubled, lemma_linear_turned, lemma_same_turn, lemma_scaled_twice,
    lemma_state_same_turn, lemma_turned_twice, linear, rotated, Amplitude, Operator, State,
};
use crate::angle::{half, turns, Euler, EulerOf, Turn, HALF_PI_BITS};
use crate::binary64::{negated, Binary64};
use crate::ir::{Conditions, Gate};
use crate::native::{
    all_native_gates, conditioned, cx_gates, if_turns, native_gates, phase_gates, pi, single_gates, turned_rzz,
    NativeGate,
};
use vstd::prelude::*;

verus! {

/// A native gate as the source gate that it is.
pub open spec fn source_of(g: NativeGate) -> Gate
    decreases g,
{
    match g {
        NativeGate::Rz(q, t) => Gate::Rz(q, t),
        NativeGate::Ry(q, t) => Gate::Ry(q, t),
        NativeGate::Rzz(a, b, t) => Gate::Rzz(a, b, t),
        NativeGate::Measure(q, c) => Gate::Measure(q, c),
        NativeGate::If(c, inner) => Gate::If(c, Box::new(source_of(*inner))),
    }
}

/// Native gates as source gates.
pub open spec fn sources(gates: Seq<NativeGate>) -> Seq<Gate> {
    gates.map_values(|g: NativeGate| source_of(g))
}

/// An operation on a qubit as a gate.
pub open spec fn turn_gate(q: usize, t: Turn) -> Gate {
    match t {
        Turn::H => Gate::H(q),
        Turn::X => Gate::X(q),
        Turn::Y => Gate::Y(q),
        Turn::Z => Gate::Z(q),
        Turn::S => Gate::S(q),
        Turn::Sdg => Gate::Sdg(q),
        Turn::T => Gate::T(q),
        Turn::Tdg => Gate::Tdg(q),
        Turn::Rx(a) => Gate::Rx(q, a),
        Turn::Ry(a) => Gate::Ry(q, a),
        Turn::Rz(a) => Gate::Rz(q, a),
    }
}

/// Three rotations by Euler angles.
pub open spec fn euler_rotations(q: usize, x: Euler) -> Seq<Gate> {
    seq![Gate::Rz(q, x.delta), Gate::Ry(q, x.gamma), Gate::Rz(q, x.beta)]
}

/// Whether Euler angles are true: the three rotations do what the operation
/// does, on either qubit of every pair.
pub open spec fn true_angles(r: Reading, e: EulerOf) -> bool {
    forall|t: Turn, q: usize, a: usize, b: usize|
        a != b && (q == a || q == b) ==> #[trigger] turned_truly(r, e, t, q, a, b)
}

pub open spec fn turned_truly(r: Reading, e: EulerOf, t: Turn, q: usize, a: usize, b: usize) -> bool {
    alike(r, euler_rotations(q, e(seq![t])), seq![turn_gate(q, t)], a, b)
}

/// Whether a gate is on qubits of a pair, and on two of them where it takes
/// two; measurements are left aside.
pub open spec fn placed(g: Gate, a: usize, b: usize) -> bool
    decreases g,
{
    match g {
        Gate::Cx(x, y)
        | Gate::Cz(x, y)
        | Gate::Swap(x, y)
        | Gate::Cp(x, y, _)
        | Gate::Rxx(x, y, _)
        | Gate::Ryy(x, y, _)
        | Gate::Rzz(x, y, _) => (x == a && y == b) || (x == b && y == a),
        Gate::Measure(_, _) => false,
        Gate::If(_, inner) => placed(*inner, a, b),
        Gate::H(q)
        | Gate::X(q)
        | Gate::Y(q)
        | Gate::Z(q)
        | Gate::S(q)
        | Gate::Sdg(q)
        | Gate::T(q)
        | Gate::Tdg(q)
        | Gate::Rx(q, _)
        | Gate::Ry(q, _)
        | Gate::Rz(q, _) => q == a || q == b,
    }
}

/// Whether the angle of a controlled phase can be halved.
pub open spec fn halved_well(r: Reading, g: Gate) -> bool
    decreases g,
{
    match g {
        Gate::Cp(_, _, t) => r.halves(t),
        Gate::If(_, inner) => halved_well(r, *inner),
        _ => true,
    }
}

pub proof fn lemma_one(r: Reading, g: Gate, a: usize, b: usize, s: State)
    ensures
        performed(r, seq![g], a, b, s) == acted(r, g, a, b, s),
{
    assert(seq![g].drop_last() =~= Seq::<Gate>::empty());
    assert(performed(r, Seq::<Gate>::empty(), a, b, s) == s);
}

pub proof fn lemma_pushed(r: Reading, x: Seq<Gate>, g: Gate, a: usize, b: usize, s: State)
    ensures
        performed(r, x.push(g), a, b, s) == acted(r, g, a, b, performed(r, x, a, b, s)),
{
    assert(x.push(g).drop_last() =~= x);
}

pub proof fn lemma_three(r: Reading, f: Gate, g: Gate, h: Gate, a: usize, b: usize, s: State)
    ensures
        performed(r, seq![f, g, h], a, b, s) == acted(
            r,
            h,
            a,
            b,
            acted(r, g, a, b, acted(r, f, a, b, s)),
        ),
{
    lemma_one(r, f, a, b, s);
    lemma_pushed(r, seq![f], g, a, b, s);
    lemma_pushed(r, seq![f].push(g), h, a, b, s);
    assert(seq![f, g, h] =~= seq![f].push(g).push(h));
}

proof fn lemma_unscaled(s: State)
    ensures
        s.scaled(0, 0) == s,
{
    assert(s.roots(0) == s);
    assert(s.turned(0) == s);
}

/// Series that agree up to a power of two do the same.
pub proof fn lemma_alike_from(r: Reading, x: Seq<Gate>, y: Seq<Gate>, a: usize, b: usize, m: nat)
    requires
        forall|s: State| #[trigger]
            performed(r, x, a, b, s) == performed(r, y, a, b, s).scaled(m, 0),
    ensures
        alike(r, x, y, a, b),
{
    assert forall|s: State|
        (#[trigger] performed(r, x, a, b, s)).scaled(0, 0) == performed(r, y, a, b, s).scaled(m, 0) by {
        lemma_unscaled(performed(r, x, a, b, s));
    }
    assert(alike_by(r, x, y, a, b, 0, 0, m, 0));
}

/// A rotation of the native set.
pub open spec fn is_rotation(g: Gate, t: Binary64) -> bool {
    match g {
        Gate::Rz(_, x) | Gate::Ry(_, x) | Gate::Rx(_, x) | Gate::Rzz(_, _, x) => x == t,
        _ => false,
    }
}

/// A rotation that does not turn does nothing.
pub proof fn lemma_nothing(r: Reading, g: Gate, t: Binary64, a: usize, b: usize)
    requires
        is_rotation(g, t),
        placed(g, a, b),
        (r.eighths)(t) % 8 == 0,
    ensures
        alike(r, Seq::empty(), seq![g], a, b),
{
    let none = Seq::<Gate>::empty();
    let one = seq![g];
    assert forall|s: State| #[trigger]
        performed(r, one, a, b, s) == performed(r, none, a, b, s).scaled(2, 0) by {
        lemma_one(r, g, a, b, s);
        let k = (r.eighths)(t);
        lemma_no_turn(s, s.signed(true), k);
        lemma_no_turn(s, s.signed(false), k);
        lemma_no_turn(s, s.flipped(true), k);
        lemma_no_turn(s, s.flipped(false), k);
        lemma_no_turn(s, crossed(s, true), k);
        lemma_no_turn(s, crossed(s, false), k);
        lemma_no_turn(s, signed_both(s), k);
    }
    lemma_alike_from(r, one, none, a, b, 2);
    lemma_alike_symmetric(r, one, none, a, b);
}

/// A rotation may be left out where it does not turn.
pub proof fn lemma_if_turns(r: Reading, t: Binary64, g: NativeGate, a: usize, b: usize)
    requires
        r.faithful(),
        is_rotation(source_of(g), t),
        placed(source_of(g), a, b),
    ensures
        alike(r, sources(if_turns(t, g)), seq![source_of(g)], a, b),
{
    if turns(t) {
        assert(sources(seq![g]) =~= seq![source_of(g)]);
        lemma_alike_self(r, seq![source_of(g)], a, b);
    } else {
        assert(sources(Seq::<NativeGate>::empty()) =~= Seq::<Gate>::empty());
        lemma_nothing(r, source_of(g), t, a, b);
    }
}

pub proof fn lemma_sources_joined(x: Seq<NativeGate>, y: Seq<NativeGate>)
    ensures
        sources(x + y) == sources(x) + sources(y),
{
    assert(sources(x + y) =~= sources(x) + sources(y));
}

/// The native gates of an operation on one qubit do what it does.
pub proof fn lemma_single(r: Reading, e: EulerOf, q: usize, t: Turn, a: usize, b: usize)
    requires
        r.faithful(),
        true_angles(r, e),
        a != b,
        q == a || q == b,
    ensures
        alike(r, sources(single_gates(q, t, e)), seq![turn_gate(q, t)], a, b),
{
    let x = e(seq![t]);
    let g1 = NativeGate::Rz(q, x.delta);
    let g2 = NativeGate::Ry(q, x.gamma);
    let g3 = NativeGate::Rz(q, x.beta);
    let s1 = if_turns(x.delta, g1);
    let s2 = if_turns(x.gamma, g2);
    let s3 = if_turns(x.beta, g3);
    lemma_if_turns(r, x.delta, g1, a, b);
    lemma_if_turns(r, x.gamma, g2, a, b);
    lemma_if_turns(r, x.beta, g3, a, b);
    lemma_sources_joined(s1, s2);
    lemma_sources_joined(s1 + s2, s3);
    lemma_alike_joined(r, sources(s1), seq![source_of(g1)], sources(s2), seq![source_of(g2)], a, b);
    lemma_alike_joined(
        r,
        sources(s1) + sources(s2),
        seq![source_of(g1)] + seq![source_of(g2)],
        sources(s3),
        seq![source_of(g3)],
        a,
        b,
    );
    let full = euler_rotations(q, x);
    assert(seq![source_of(g1)] + seq![source_of(g2)] + seq![source_of(g3)] =~= full);
    assert(turned_truly(r, e, t, q, a, b));
    lemma_alike_transitive(
        r,
        sources(single_gates(q, t, e)),
        full,
        seq![turn_gate(q, t)],
        a,
        b,
    );
}

proof fn lemma_zero_turned(x: Amplitude, k: nat)
    ensures
        x.minus(x).turned(k) == x.minus(x),
        x.plus(x).turned(k) == x.turned(k).plus(x.turned(k)),
{
    lemma_amplitude_turned(x, x, k);
}

/// A rotation about Z turns the state where its qubit is one.
pub proof fn lemma_rotated_signed(s: State, first: bool, k: nat)
    ensures
        rotated(s, s.signed(first), k) == s.phased(first, k).scaled(2, 0),
{
    lemma_zero_turned(s.v00, k);
    lemma_zero_turned(s.v01, k);
    lemma_zero_turned(s.v10, k);
    lemma_zero_turned(s.v11, k);
    lemma_doubled(s.phased(first, k));
    let p = s.signed(first);
    let m = s.minus(p);
    assert(m.v00 == if first { s.v00.minus(s.v00) } else { s.v00.minus(s.v00) });
    assert(m.v11 == s.v11.plus(s.v11));
    if first {
        assert(m.v01 == s.v01.minus(s.v01));
        assert(m.v10 == s.v10.plus(s.v10));
    } else {
        assert(m.v10 == s.v10.minus(s.v10));
        assert(m.v01 == s.v01.plus(s.v01));
    }
}

/// One about ZZ turns it where the qubits differ.
pub open spec fn phased_apart(s: State, k: nat) -> State {
    State { v01: s.v01.turned(k), v10: s.v10.turned(k), ..s }
}

pub proof fn lemma_rotated_signed_both(s: State, k: nat)
    ensures
        rotated(s, signed_both(s), k) == phased_apart(s, k).scaled(2, 0),
{
    lemma_zero_turned(s.v00, k);
    lemma_zero_turned(s.v01, k);
    lemma_zero_turned(s.v10, k);
    lemma_zero_turned(s.v11, k);
    lemma_doubled(phased_apart(s, k));
    let m = s.minus(signed_both(s));
    assert(m.v00 == s.v00.minus(s.v00));
    assert(m.v11 == s.v11.minus(s.v11));
    assert(m.v01 == s.v01.plus(s.v01));
    assert(m.v10 == s.v10.plus(s.v10));
}

/// The phases of the three rotations of a controlled phase add up to it.
proof fn lemma_phases(s: State, x: bool, k: nat, j: nat, l: nat)
    requires
        (k + j) % 8 == 0,
        (2 * k) % 8 == l as int % 8,
    ensures
        phased_apart(s.phased(x, k).phased(!x, k), j) == phased_both(s, l),
{
    lemma_turned_twice(s.v01, k, j);
    lemma_turned_twice(s.v10, k, j);
    lemma_turned_twice(s.v11, k, k);
    lemma_same_turn(s.v01, k + j, 0);
    lemma_same_turn(s.v10, k + j, 0);
    lemma_same_turn(s.v11, k + k, l);
    assert(s.v01.turned(0) == s.v01 && s.v10.turned(0) == s.v10);
}

/// The native gates of a controlled phase do what it does.
pub proof fn lemma_phase(r: Reading, x: usize, y: usize, t: Binary64, a: usize, b: usize)
    requires
        r.faithful(),
        r.halves(t),
        a != b,
        (x == a && y == b) || (x == b && y == a),
    ensures
        alike(r, sources(phase_gates(x, y, t)), seq![Gate::Cp(x, y, t)], a, b),
{
    let phi = half(t);
    let none = Seq::<Gate>::empty();
    let goal = Gate::Cp(x, y, t);
    let l = (r.eighths)(t);
    let k = (r.eighths)(phi);
    let j = (r.eighths)(negated(phi));
    let straight = x == a;
    assert((k + j) % 8 == 0);
    if turns(phi) {
        let f = Gate::Rz(x, phi);
        let g = Gate::Rz(y, phi);
        let h = Gate::Rzz(x, y, negated(phi));
        let all = seq![f, g, h];
        assert(sources(phase_gates(x, y, t)) =~= all);
        assert forall|s: State| #[trigger]
            performed(r, all, a, b, s) == performed(r, seq![goal], a, b, s).scaled(6, 0) by {
            lemma_three(r, f, g, h, a, b, s);
            lemma_one(r, goal, a, b, s);
            let s1 = s.phased(straight, k);
            let s2 = s1.phased(!straight, k);
            let s3 = phased_apart(s2, j);
            lemma_rotated_signed(s, straight, k);
            assert(acted(r, f, a, b, s) == s1.scaled(2, 0));
            lemma_acted_scaled(r, g, a, b, s1, 2, 0);
            lemma_rotated_signed(s1, !straight, k);
            assert(acted(r, g, a, b, s1) == s2.scaled(2, 0));
            lemma_scaled_twice(s2, 2, 0, 2, 0);
            lemma_acted_scaled(r, h, a, b, s2, 4, 0);
            lemma_rotated_signed_both(s2, j);
            assert(acted(r, h, a, b, s2) == s3.scaled(2, 0));
            lemma_scaled_twice(s3, 2, 0, 4, 0);
            lemma_phases(s, straight, k, j, l);
        }
        lemma_alike_from(r, all, seq![goal], a, b, 6);
    } else {
        assert(sources(phase_gates(x, y, t)) =~= none);
        assert forall|s: State| #[trigger]
            performed(r, none, a, b, s) == performed(r, seq![goal], a, b, s).scaled(0, 0) by {
            lemma_one(r, goal, a, b, s);
            lemma_same_turn(s.v11, l, 0);
            assert(s.v11.turned(0) == s.v11);
            lemma_unscaled(s);
        }
        lemma_alike_from(r, none, seq![goal], a, b, 0);
    }
}

/// A controlled phase of half a turn is `Cz`.
pub proof fn lemma_half_turn_phase(r: Reading, x: usize, y: usize, a: usize, b: usize)
    requires
        r.faithful(),
        a != b,
        (x == a && y == b) || (x == b && y == a),
    ensures
        alike(r, seq![Gate::Cp(x, y, pi())], seq![Gate::Cz(x, y)], a, b),
{
    let cp = seq![Gate::Cp(x, y, pi())];
    assert forall|s: State| #[trigger]
        performed(r, cp, a, b, s) == performed(r, seq![Gate::Cz(x, y)], a, b, s).scaled(0, 0) by {
        lemma_one(r, Gate::Cp(x, y, pi()), a, b, s);
        lemma_one(r, Gate::Cz(x, y), a, b, s);
        lemma_same_turn(s.v11, (r.eighths)(pi()), 4);
        lemma_unscaled(phased_both(s, 4));
    }
    lemma_alike_from(r, cp, seq![Gate::Cz(x, y)], a, b, 0);
}

/// `Cz` between two `H` on its second qubit is `Cx`.
pub proof fn lemma_cx_by_cz(r: Reading, x: usize, y: usize, a: usize, b: usize)
    requires
        a != b,
        (x == a && y == b) || (x == b && y == a),
    ensures
        alike(r, seq![Gate::H(y), Gate::Cz(x, y), Gate::H(y)], seq![Gate::Cx(x, y)], a, b),
{
    let long = seq![Gate::H(y), Gate::Cz(x, y), Gate::H(y)];
    assert forall|s: State| #[trigger]
        performed(r, long, a, b, s) == performed(r, seq![Gate::Cx(x, y)], a, b, s).scaled(2, 0) by {
        lemma_three(r, Gate::H(y), Gate::Cz(x, y), Gate::H(y), a, b, s);
        lemma_one(r, Gate::Cx(x, y), a, b, s);
        reveal_with_fuel(Amplitude::turned, 5);
        let c = controlled_flip(s, x == a);
        lemma_doubled(c);
        assert(acted(
            r,
            Gate::H(y),
            a,
            b,
            acted(r, Gate::Cz(x, y), a, b, acted(r, Gate::H(y), a, b, s)),
        ) == c.plus(c));
    }
    lemma_alike_from(r, long, seq![Gate::Cx(x, y)], a, b, 2);
}

/// Three `Cx` that alternate are `Swap`.
pub proof fn lemma_swap_by_cx(r: Reading, x: usize, y: usize, a: usize, b: usize)
    requires
        a != b,
        (x == a && y == b) || (x == b && y == a),
    ensures
        alike(r, seq![Gate::Cx(x, y), Gate::Cx(y, x), Gate::Cx(x, y)], seq![Gate::Swap(x, y)], a, b),
{
    let long = seq![Gate::Cx(x, y), Gate::Cx(y, x), Gate::Cx(x, y)];
    assert forall|s: State| #[trigger]
        performed(r, long, a, b, s) == performed(r, seq![Gate::Swap(x, y)], a, b, s).scaled(0, 0) by {
        lemma_three(r, Gate::Cx(x, y), Gate::Cx(y, x), Gate::Cx(x, y), a, b, s);
        lemma_one(r, Gate::Swap(x, y), a, b, s);
        lemma_unscaled(performed(r, seq![Gate::Swap(x, y)], a, b, s));
    }
    lemma_alike_from(r, long, seq![Gate::Swap(x, y)], a, b, 0);
}

/// A linear operator turns the axis of a rotation.
pub proof fn lemma_conjugated(f: Operator, s: State, p: State, k: nat)
    requires
        linear(f),
    ensures
        f(rotated(s, p, k)) == rotated(f(s), f(p), k),
{
    let m = s.minus(p);
    assert(f(s.plus(p).plus(m.turned(k))) == f(s.plus(p)).plus(f(m.turned(k))));
    assert(f(s.plus(p)) == f(s).plus(f(p)));
    lemma_linear_turned(f, m, k);
    assert(f(m) == f(s).minus(f(p)));
}

proof fn lemma_linear_joined(f: Operator, g: Operator)
    requires
        linear(f),
        linear(g),
    ensures
        linear(|s: State| g(f(s))),
{
    let h = |s: State| g(f(s));
    assert forall|x: State, y: State| #[trigger] h(x.plus(y)) == h(x).plus(h(y)) by {
        assert(f(x.plus(y)) == f(x).plus(f(y)));
        assert(g(f(x).plus(f(y))) == g(f(x)).plus(g(f(y))));
    }
    assert forall|x: State, y: State| #[trigger] h(x.minus(y)) == h(x).minus(h(y)) by {
        assert(f(x.minus(y)) == f(x).minus(f(y)));
        assert(g(f(x).minus(f(y))) == g(f(x)).minus(g(f(y))));
    }
    assert forall|x: State| #[trigger] h(x.eighth()) == h(x).eighth() by {
        assert(f(x.eighth()) == f(x).eighth());
        assert(g(f(x).eighth()) == g(f(x)).eighth());
    }
}

/// `H` on one qubit.
#[verifier::opaque]
pub open spec fn mixed(s: State, first: bool) -> State {
    s.flipped(first).plus(s.signed(first))
}

/// A rotation about X by a quarter turn, forth or back.
#[verifier::opaque]
pub open spec fn tilted(s: State, first: bool, back: bool) -> State {
    rotated(
        s,
        s.flipped(first),
        if back {
            6
        } else {
            2
        },
    )
}

proof fn lemma_mixed_linear(first: bool)
    ensures
        linear(|s: State| mixed(s, first)),
{
    reveal(mixed);
}

proof fn lemma_tilted_linear(first: bool, back: bool)
    ensures
        linear(|s: State| tilted(s, first, back)),
{
    reveal(tilted);
    reveal_with_fuel(Amplitude::turned, 7);
}

proof fn lemma_mixed_axes(s: State, first: bool)
    ensures
        mixed(s.signed(first), first) == mixed(s, first).flipped(first),
        mixed(s.flipped(first), first) == mixed(s, first).signed(first),
        mixed(s.signed(!first), first) == mixed(s, first).signed(!first),
        mixed(s.flipped(!first), first) == mixed(s, first).flipped(!first),
        mixed(mixed(s, first), first) == s.plus(s),
{
    reveal(mixed);
}

proof fn lemma_tilted_axes(s: State, first: bool)
    ensures
        tilted(s.signed(first), first, true) == crossed(tilted(s, first, true), first),
        tilted(s.signed(!first), first, true) == tilted(s, first, true).signed(!first),
        crossed(tilted(s, first, true), !first) == tilted(crossed(s, !first), first, true),
{
    reveal(tilted);
    reveal_with_fuel(Amplitude::turned, 7);
}

proof fn lemma_tilted_back(s: State, first: bool)
    ensures
        tilted(tilted(s, first, false), first, true) == s.scaled(4, 0),
{
    reveal(tilted);
    reveal_with_fuel(Amplitude::turned, 7);
    let t = s.plus(s);
    lemma_doubled(s);
    lemma_doubled(t);
    lemma_scaled_twice(s, 2, 0, 2, 0);
    assert(tilted(tilted(s, first, false), first, true) == t.plus(t));
}

proof fn lemma_four(s: State)
    ensures
        s.plus(s).plus(s.plus(s)) == s.scaled(4, 0),
{
    lemma_doubled(s);
    lemma_doubled(s.plus(s));
    lemma_scaled_twice(s, 2, 0, 2, 0);
}

proof fn lemma_mixed_twice(s: State, x: bool)
    ensures
        mixed(mixed(mixed(mixed(s, x), !x), x), !x) == s.scaled(4, 0),
{
    let a = mixed(s, x);
    lemma_mixed_exchange(a, x);
    lemma_mixed_axes(s, x);
    lemma_mixed_axes(s.plus(s), !x);
    assert(mixed(mixed(a, !x), x) == mixed(mixed(a, x), !x));
    lemma_four(s);
}

proof fn lemma_mixed_exchange(s: State, x: bool)
    ensures
        mixed(mixed(s, !x), x) == mixed(mixed(s, x), !x),
{
    reveal(mixed);
}

proof fn lemma_signs_exchange(s: State, x: bool)
    ensures
        signed_both(s) == s.signed(!x).signed(x),
        flipped_both(s) == s.flipped(x).flipped(!x),
        crossed_both(s) == crossed(crossed(s, !x), x),
{
}

proof fn lemma_mixed_axis(u: State, x: bool)
    ensures
        mixed(mixed(signed_both(u), x), !x) == flipped_both(mixed(mixed(u, x), !x)),
{
    lemma_signs_exchange(u, x);
    lemma_mixed_axes(u.signed(!x), x);
    lemma_mixed_axes(u, x);
    let v = mixed(u, x);
    assert(mixed(signed_both(u), x) == v.signed(!x).flipped(x));
    lemma_mixed_axes(v.signed(!x), !x);
    lemma_mixed_axes(v, !x);
    let w = mixed(v, !x);
    assert(mixed(v.signed(!x).flipped(x), !x) == w.flipped(!x).flipped(x));
    lemma_signs_exchange(w, !x);
}

pub proof fn lemma_rotated_scaled(s: State, k: nat, m: nat)
    ensures
        rotated(s.scaled(m, 0), flipped_both(s.scaled(m, 0)), k) == rotated(
            s,
            flipped_both(s),
            k,
        ).scaled(m, 0),
        rotated(s.scaled(m, 0), crossed_both(s.scaled(m, 0)), k) == rotated(
            s,
            crossed_both(s),
            k,
        ).scaled(m, 0),
{
    let r = Reading { eighths: |a: Binary64| k, holds: |c: Conditions| true };
    lemma_acted_scaled(r, Gate::Rxx(0, 1, pi()), 0, 1, s, m, 0);
    lemma_acted_scaled(r, Gate::Ryy(0, 1, pi()), 0, 1, s, m, 0);
}

/// A rotation about XX between `H` on both qubits.
proof fn lemma_rxx_state(s: State, x: bool, k: nat)
    ensures
        ({
            let u = mixed(mixed(s, x), !x);
            mixed(mixed(rotated(u, signed_both(u), k), x), !x) == rotated(s, flipped_both(s), k).scaled(
                4,
                0,
            )
        }),
{
    let u = mixed(mixed(s, x), !x);
    let f = |t: State| mixed(t, x);
    let g = |t: State| mixed(t, !x);
    let h = |t: State| g(f(t));
    lemma_mixed_linear(x);
    lemma_mixed_linear(!x);
    lemma_linear_joined(f, g);
    lemma_conjugated(h, u, signed_both(u), k);
    lemma_mixed_axis(u, x);
    lemma_mixed_twice(s, x);
    assert(h(u) == s.scaled(4, 0));
    assert(h(signed_both(u)) == flipped_both(h(u)));
    lemma_rotated_scaled(s, k, 4);
}

/// A rotation about Y between rotations about X.
pub proof fn lemma_ry_state(s: State, x: bool, k: nat)
    ensures
        ({
            let u = tilted(s, x, false);
            tilted(rotated(u, u.signed(x), k), x, true) == rotated(s, crossed(s, x), k).scaled(4, 0)
        }),
{
    let u = tilted(s, x, false);
    let f = |t: State| tilted(t, x, true);
    lemma_tilted_linear(x, true);
    lemma_conjugated(f, u, u.signed(x), k);
    lemma_tilted_axes(u, x);
    lemma_tilted_back(s, x);
    let r = Reading { eighths: |a: Binary64| k, holds: |c: Conditions| true };
    let q: usize = if x { 0 } else { 1 };
    lemma_acted_scaled(r, Gate::Ry(q, pi()), 0, 1, s, 4, 0);
}

proof fn lemma_tilted_axis(u: State, x: bool)
    ensures
        tilted(tilted(signed_both(u), x, true), !x, true) == crossed_both(
            tilted(tilted(u, x, true), !x, true),
        ),
{
    lemma_signs_exchange(u, x);
    lemma_tilted_axes(u.signed(!x), x);
    lemma_tilted_axes(u, x);
    let v = tilted(u, x, true);
    assert(tilted(signed_both(u), x, true) == crossed(v.signed(!x), x));
    lemma_tilted_axes(v.signed(!x), !x);
    lemma_tilted_axes(v, !x);
    let w = tilted(v, !x, true);
    assert(tilted(crossed(v.signed(!x), x), !x, true) == crossed(tilted(v.signed(!x), !x, true), x));
    assert(tilted(v.signed(!x), !x, true) == crossed(w, !x));
    lemma_signs_exchange(w, x);
}

proof fn lemma_tilted_both_back(s: State, x: bool)
    ensures
        tilted(tilted(tilted(tilted(s, x, false), !x, false), x, true), !x, true) == s.scaled(8, 0),
{
    let s1 = tilted(s, x, false);
    lemma_exchange(s1, x);
    lemma_tilted_back(s, x);
    let s4 = s.scaled(4, 0);
    assert(tilted(tilted(s1, !x, false), x, true) == tilted(s4, !x, false));
    lemma_tilted_back(s4, !x);
    lemma_scaled_twice(s, 4, 0, 4, 0);
}

/// A rotation about YY between rotations about X of both qubits.
proof fn lemma_ryy_state(s: State, x: bool, k: nat)
    ensures
        ({
            let u = tilted(tilted(s, x, false), !x, false);
            tilted(tilted(rotated(u, signed_both(u), k), x, true), !x, true) == rotated(
                s,
                crossed_both(s),
                k,
            ).scaled(8, 0)
        }),
{
    let u = tilted(tilted(s, x, false), !x, false);
    let f = |t: State| tilted(t, x, true);
    let g = |t: State| tilted(t, !x, true);
    let h = |t: State| g(f(t));
    lemma_tilted_linear(x, true);
    lemma_tilted_linear(!x, true);
    lemma_linear_joined(f, g);
    lemma_conjugated(h, u, signed_both(u), k);
    lemma_tilted_axis(u, x);
    lemma_tilted_both_back(s, x);
    assert(h(u) == s.scaled(8, 0));
    assert(h(signed_both(u)) == crossed_both(h(u)));
    lemma_rotated_scaled(s, k, 8);
}

proof fn lemma_exchange(s: State, x: bool)
    ensures
        tilted(tilted(s, !x, false), x, true) == tilted(tilted(s, x, true), !x, false),
{
    reveal(tilted);
    reveal_with_fuel(Amplitude::turned, 7);
}

pub proof fn lemma_five(r: Reading, f: Gate, g: Gate, h: Gate, i: Gate, j: Gate, a: usize, b: usize, s: State)
    ensures
        performed(r, seq![f, g, h, i, j], a, b, s) == acted(
            r,
            j,
            a,
            b,
            acted(r, i, a, b, acted(r, h, a, b, acted(r, g, a, b, acted(r, f, a, b, s)))),
        ),
{
    lemma_three(r, f, g, h, a, b, s);
    lemma_pushed(r, seq![f, g, h], i, a, b, s);
    lemma_pushed(r, seq![f, g, h].push(i), j, a, b, s);
    assert(seq![f, g, h, i, j] =~= seq![f, g, h].push(i).push(j));
}

pub proof fn lemma_h_acts(r: Reading, q: usize, a: usize, b: usize, s: State)
    requires
        a != b,
        q == a || q == b,
    ensures
        acted(r, Gate::H(q), a, b, s) == mixed(s, q == a),
{
    reveal(mixed);
}

/// Rotations about X by a quarter turn.
pub proof fn lemma_tilt_acts(r: Reading, q: usize, a: usize, b: usize, s: State)
    requires
        r.faithful(),
        a != b,
        q == a || q == b,
    ensures
        acted(r, Gate::Rx(q, Binary64 { bits: HALF_PI_BITS }), a, b, s) == tilted(s, q == a, false),
        acted(r, Gate::Rx(q, negated(Binary64 { bits: HALF_PI_BITS })), a, b, s) == tilted(
            s,
            q == a,
            true,
        ),
{
    reveal(tilted);
    let quarter = Binary64 { bits: HALF_PI_BITS };
    let k = (r.eighths)(quarter);
    let j = (r.eighths)(negated(quarter));
    let m = s.minus(s.flipped(q == a));
    assert((k + j) % 8 == 0);
    assert(j % 8 == 6);
    lemma_state_same_turn(m, k, 2);
    lemma_state_same_turn(m, j, 6);
}

/// A rotation about ZZ between `H` is one about XX.
pub proof fn lemma_rxx_by_rzz(r: Reading, x: usize, y: usize, t: Binary64, a: usize, b: usize)
    requires
        a != b,
        (x == a && y == b) || (x == b && y == a),
    ensures
        alike(
            r,
            seq![Gate::H(x), Gate::H(y), Gate::Rzz(x, y, t), Gate::H(x), Gate::H(y)],
            seq![Gate::Rxx(x, y, t)],
            a,
            b,
        ),
{
    let long = seq![Gate::H(x), Gate::H(y), Gate::Rzz(x, y, t), Gate::H(x), Gate::H(y)];
    let goal = Gate::Rxx(x, y, t);
    let k = (r.eighths)(t);
    assert forall|s: State| #[trigger]
        performed(r, long, a, b, s) == performed(r, seq![goal], a, b, s).scaled(4, 0) by {
        lemma_five(r, Gate::H(x), Gate::H(y), Gate::Rzz(x, y, t), Gate::H(x), Gate::H(y), a, b, s);
        lemma_one(r, goal, a, b, s);
        let s1 = mixed(s, x == a);
        let s2 = mixed(s1, y == a);
        let s3 = rotated(s2, signed_both(s2), k);
        let s4 = mixed(s3, x == a);
        lemma_h_acts(r, x, a, b, s);
        lemma_h_acts(r, y, a, b, s1);
        lemma_h_acts(r, x, a, b, s3);
        lemma_h_acts(r, y, a, b, s4);
        assert(acted(r, Gate::Rzz(x, y, t), a, b, s2) == s3);
        lemma_rxx_state(s, x == a, k);
    }
    lemma_alike_from(r, long, seq![goal], a, b, 4);
}

/// A rotation about ZZ between quarter turns about X is one about YY.
pub proof fn lemma_ryy_by_rzz(r: Reading, x: usize, y: usize, t: Binary64, a: usize, b: usize)
    requires
        r.faithful(),
        a != b,
        (x == a && y == b) || (x == b && y == a),
    ensures
        ({
            let quarter = Binary64 { bits: HALF_PI_BITS };
            let back = negated(quarter);
            alike(
                r,
                seq![
                    Gate::Rx(x, quarter),
                    Gate::Rx(y, quarter),
                    Gate::Rzz(x, y, t),
                    Gate::Rx(x, back),
                    Gate::Rx(y, back),
                ],
                seq![Gate::Ryy(x, y, t)],
                a,
                b,
            )
        }),
{
    let quarter = Binary64 { bits: HALF_PI_BITS };
    let back = negated(quarter);
    let long = seq![
        Gate::Rx(x, quarter),
        Gate::Rx(y, quarter),
        Gate::Rzz(x, y, t),
        Gate::Rx(x, back),
        Gate::Rx(y, back),
    ];
    let goal = Gate::Ryy(x, y, t);
    let k = (r.eighths)(t);
    assert forall|s: State| #[trigger]
        performed(r, long, a, b, s) == performed(r, seq![goal], a, b, s).scaled(8, 0) by {
        lemma_five(
            r,
            Gate::Rx(x, quarter),
            Gate::Rx(y, quarter),
            Gate::Rzz(x, y, t),
            Gate::Rx(x, back),
            Gate::Rx(y, back),
            a,
            b,
            s,
        );
        lemma_one(r, goal, a, b, s);
        let s1 = tilted(s, x == a, false);
        let s2 = tilted(s1, y == a, false);
        let s3 = rotated(s2, signed_both(s2), k);
        let s4 = tilted(s3, x == a, true);
        lemma_tilt_acts(r, x, a, b, s);
        lemma_tilt_acts(r, y, a, b, s1);
        lemma_tilt_acts(r, x, a, b, s3);
        lemma_tilt_acts(r, y, a, b, s4);
        assert(acted(r, Gate::Rzz(x, y, t), a, b, s2) == s3);
        lemma_ryy_state(s, x == a, k);
    }
    lemma_alike_from(r, long, seq![goal], a, b, 8);
}

/// The same of three series in turn.
pub proof fn lemma_alike_three(
    r: Reading,
    x: Seq<Gate>,
    x2: Seq<Gate>,
    y: Seq<Gate>,
    y2: Seq<Gate>,
    z: Seq<Gate>,
    z2: Seq<Gate>,
    a: usize,
    b: usize,
)
    requires
        alike(r, x, x2, a, b),
        alike(r, y, y2, a, b),
        alike(r, z, z2, a, b),
    ensures
        alike(r, x + y + z, x2 + y2 + z2, a, b),
{
    lemma_alike_joined(r, x, x2, y, y2, a, b);
    lemma_alike_joined(r, x + y, x2 + y2, z, z2, a, b);
}

proof fn lemma_cz_natives(r: Reading, x: usize, y: usize, a: usize, b: usize)
    requires
        r.faithful(),
        a != b,
        (x == a && y == b) || (x == b && y == a),
    ensures
        alike(r, sources(phase_gates(x, y, pi())), seq![Gate::Cz(x, y)], a, b),
{
    lemma_phase(r, x, y, pi(), a, b);
    lemma_half_turn_phase(r, x, y, a, b);
    lemma_alike_transitive(
        r,
        sources(phase_gates(x, y, pi())),
        seq![Gate::Cp(x, y, pi())],
        seq![Gate::Cz(x, y)],
        a,
        b,
    );
}

proof fn lemma_cx_natives(r: Reading, e: EulerOf, x: usize, y: usize, a: usize, b: usize)
    requires
        r.faithful(),
        true_angles(r, e),
        a != b,
        (x == a && y == b) || (x == b && y == a),
    ensures
        alike(r, sources(cx_gates(x, y, e)), seq![Gate::Cx(x, y)], a, b),
{
    let h = single_gates(y, Turn::H, e);
    let p = phase_gates(x, y, pi());
    let hs = seq![Gate::H(y)];
    let cz = seq![Gate::Cz(x, y)];
    lemma_single(r, e, y, Turn::H, a, b);
    lemma_cz_natives(r, x, y, a, b);
    lemma_alike_three(r, sources(h), hs, sources(p), cz, sources(h), hs, a, b);
    lemma_sources_joined(h, p);
    lemma_sources_joined(h + p, h);
    assert(hs + cz + hs =~= seq![Gate::H(y), Gate::Cz(x, y), Gate::H(y)]);
    lemma_cx_by_cz(r, x, y, a, b);
    lemma_alike_transitive(
        r,
        sources(cx_gates(x, y, e)),
        hs + cz + hs,
        seq![Gate::Cx(x, y)],
        a,
        b,
    );
}

proof fn lemma_swap_natives(r: Reading, e: EulerOf, x: usize, y: usize, a: usize, b: usize)
    requires
        r.faithful(),
        true_angles(r, e),
        a != b,
        (x == a && y == b) || (x == b && y == a),
    ensures
        alike(r, sources(native_gates(Gate::Swap(x, y), e)), seq![Gate::Swap(x, y)], a, b),
{
    let f = cx_gates(x, y, e);
    let g = cx_gates(y, x, e);
    let fs = seq![Gate::Cx(x, y)];
    let gs = seq![Gate::Cx(y, x)];
    lemma_cx_natives(r, e, x, y, a, b);
    lemma_cx_natives(r, e, y, x, a, b);
    lemma_alike_three(r, sources(f), fs, sources(g), gs, sources(f), fs, a, b);
    lemma_sources_joined(f, g);
    lemma_sources_joined(f + g, f);
    assert(fs + gs + fs =~= seq![Gate::Cx(x, y), Gate::Cx(y, x), Gate::Cx(x, y)]);
    lemma_swap_by_cx(r, x, y, a, b);
    lemma_alike_transitive(
        r,
        sources(native_gates(Gate::Swap(x, y), e)),
        fs + gs + fs,
        seq![Gate::Swap(x, y)],
        a,
        b,
    );
}

proof fn lemma_turned_natives(
    r: Reading,
    e: EulerOf,
    x: usize,
    y: usize,
    t: Binary64,
    before: Turn,
    after: Turn,
    a: usize,
    b: usize,
)
    requires
        r.faithful(),
        true_angles(r, e),
        a != b,
        (x == a && y == b) || (x == b && y == a),
    ensures
        alike(
            r,
            sources(turned_rzz(x, y, t, before, after, e)),
            seq![
                turn_gate(x, before),
                turn_gate(y, before),
                Gate::Rzz(x, y, t),
                turn_gate(x, after),
                turn_gate(y, after),
            ],
            a,
            b,
        ),
{
    let n1 = single_gates(x, before, e);
    let n2 = single_gates(y, before, e);
    let n3 = if_turns(t, NativeGate::Rzz(x, y, t));
    let n4 = single_gates(x, after, e);
    let n5 = single_gates(y, after, e);
    let g1 = seq![turn_gate(x, before)];
    let g2 = seq![turn_gate(y, before)];
    let g3 = seq![Gate::Rzz(x, y, t)];
    let g4 = seq![turn_gate(x, after)];
    let g5 = seq![turn_gate(y, after)];
    lemma_single(r, e, x, before, a, b);
    lemma_single(r, e, y, before, a, b);
    lemma_single(r, e, x, after, a, b);
    lemma_single(r, e, y, after, a, b);
    lemma_if_turns(r, t, NativeGate::Rzz(x, y, t), a, b);
    lemma_alike_three(r, sources(n1), g1, sources(n2), g2, sources(n3), g3, a, b);
    lemma_alike_three(
        r,
        sources(n1) + sources(n2) + sources(n3),
        g1 + g2 + g3,
        sources(n4),
        g4,
        sources(n5),
        g5,
        a,
        b,
    );
    lemma_sources_joined(n1, n2);
    lemma_sources_joined(n1 + n2, n3);
    lemma_sources_joined(n1 + n2 + n3, n4);
    lemma_sources_joined(n1 + n2 + n3 + n4, n5);
    assert(g1 + g2 + g3 + g4 + g5 =~= seq![
        turn_gate(x, before),
        turn_gate(y, before),
        Gate::Rzz(x, y, t),
        turn_gate(x, after),
        turn_gate(y, after),
    ]);
}

/// Each gate of a series under the same conditions.
pub open spec fn under(c: Conditions, gates: Seq<Gate>) -> Seq<Gate> {
    gates.map_values(|g: Gate| Gate::If(c, Box::new(g)))
}

/// Conditioned gates act together or not at all.
pub proof fn lemma_under(r: Reading, c: Conditions, gates: Seq<Gate>, a: usize, b: usize, s: State)
    ensures
        performed(r, under(c, gates), a, b, s) == (if (r.holds)(c) {
            performed(r, gates, a, b, s)
        } else {
            s
        }),
    decreases gates.len(),
{
    if gates.len() > 0 {
        lemma_under(r, c, gates.drop_last(), a, b, s);
        assert(under(c, gates).drop_last() =~= under(c, gates.drop_last()));
        assert(under(c, gates).last() == Gate::If(c, Box::new(gates.last())));
    }
}

/// Conditioned series do the same where the series do.
pub proof fn lemma_alike_under(
    r: Reading,
    c: Conditions,
    x: Seq<Gate>,
    g: Gate,
    a: usize,
    b: usize,
)
    requires
        alike(r, x, seq![g], a, b),
    ensures
        alike(r, under(c, x), seq![Gate::If(c, Box::new(g))], a, b),
{
    let one = seq![g];
    let guarded = Gate::If(c, Box::new(g));
    let (m, j, n, k) = choose|m: nat, j: nat, n: nat, k: nat|
        alike_by(r, x, one, a, b, m, j, n, k);
    let all = under(c, x);
    if (r.holds)(c) {
        assert forall|s: State|
            (#[trigger] performed(r, all, a, b, s)).scaled(m, j) == performed(
                r,
                seq![guarded],
                a,
                b,
                s,
            ).scaled(n, k) by {
            lemma_under(r, c, x, a, b, s);
            lemma_one(r, guarded, a, b, s);
            lemma_one(r, g, a, b, s);
            assert(performed(r, x, a, b, s).scaled(m, j) == performed(r, one, a, b, s).scaled(n, k));
        }
        assert(alike_by(r, all, seq![guarded], a, b, m, j, n, k));
    } else {
        assert forall|s: State|
            (#[trigger] performed(r, all, a, b, s)).scaled(0, 0) == performed(
                r,
                seq![guarded],
                a,
                b,
                s,
            ).scaled(0, 0) by {
            lemma_under(r, c, x, a, b, s);
            lemma_one(r, guarded, a, b, s);
        }
        assert(alike_by(r, all, seq![guarded], a, b, 0, 0, 0, 0));
    }
}

/// The native gates of a gate do what this gate does, up to a global phase, if
/// the Euler angles are true.
pub proof fn lemma_native_action(r: Reading, e: EulerOf, g: Gate, a: usize, b: usize)
    requires
        r.faithful(),
        true_angles(r, e),
        a != b,
        placed(g, a, b),
        halved_well(r, g),
    ensures
        alike(r, sources(native_gates(g, e)), seq![g], a, b),
    decreases g,
{
    match g {
        Gate::H(q) => lemma_single(r, e, q, Turn::H, a, b),
        Gate::X(q) => lemma_single(r, e, q, Turn::X, a, b),
        Gate::Y(q) => lemma_single(r, e, q, Turn::Y, a, b),
        Gate::Z(q) => lemma_single(r, e, q, Turn::Z, a, b),
        Gate::S(q) => lemma_single(r, e, q, Turn::S, a, b),
        Gate::Sdg(q) => lemma_single(r, e, q, Turn::Sdg, a, b),
        Gate::T(q) => lemma_single(r, e, q, Turn::T, a, b),
        Gate::Tdg(q) => lemma_single(r, e, q, Turn::Tdg, a, b),
        Gate::Rx(q, t) => lemma_single(r, e, q, Turn::Rx(t), a, b),
        Gate::Ry(q, t) => lemma_if_turns(r, t, NativeGate::Ry(q, t), a, b),
        Gate::Rz(q, t) => lemma_if_turns(r, t, NativeGate::Rz(q, t), a, b),
        Gate::Rzz(x, y, t) => lemma_if_turns(r, t, NativeGate::Rzz(x, y, t), a, b),
        Gate::Cp(x, y, t) => lemma_phase(r, x, y, t, a, b),
        Gate::Cz(x, y) => lemma_cz_natives(r, x, y, a, b),
        Gate::Cx(x, y) => lemma_cx_natives(r, e, x, y, a, b),
        Gate::Swap(x, y) => lemma_swap_natives(r, e, x, y, a, b),
        Gate::Rxx(x, y, t) => {
            lemma_turned_natives(r, e, x, y, t, Turn::H, Turn::H, a, b);
            lemma_rxx_by_rzz(r, x, y, t, a, b);
            lemma_alike_transitive(
                r,
                sources(native_gates(g, e)),
                seq![Gate::H(x), Gate::H(y), Gate::Rzz(x, y, t), Gate::H(x), Gate::H(y)],
                seq![g],
                a,
                b,
            );
        },
        Gate::Ryy(x, y, t) => {
            let quarter = Binary64 { bits: HALF_PI_BITS };
            let back = negated(quarter);
            lemma_turned_natives(r, e, x, y, t, Turn::Rx(quarter), Turn::Rx(back), a, b);
            lemma_ryy_by_rzz(r, x, y, t, a, b);
            lemma_alike_transitive(
                r,
                sources(native_gates(g, e)),
                seq![
                    Gate::Rx(x, quarter),
                    Gate::Rx(y, quarter),
                    Gate::Rzz(x, y, t),
                    Gate::Rx(x, back),
                    Gate::Rx(y, back),
                ],
                seq![g],
                a,
                b,
            );
        },
        Gate::If(c, inner) => {
            lemma_native_action(r, e, *inner, a, b);
            let body = native_gates(*inner, e);
            lemma_alike_under(r, c, sources(body), *inner, a, b);
            assert(sources(conditioned(c, body)) =~= under(c, sources(body)));
            assert(Gate::If(c, Box::new(*inner)) == g);
        },
        Gate::Measure(_, _) => {},
    }
}

/// A measurement stays what it is.
pub proof fn lemma_native_measurement(e: EulerOf, q: usize, c: usize)
    ensures
        sources(native_gates(Gate::Measure(q, c), e)) == seq![Gate::Measure(q, c)],
{
    assert(sources(native_gates(Gate::Measure(q, c), e)) =~= seq![Gate::Measure(q, c)]);
}

/// The native gates of a circuit on two qubits do what the circuit does.
pub proof fn lemma_native_circuit_action(
    r: Reading,
    e: EulerOf,
    gates: Seq<Gate>,
    n: nat,
    a: usize,
    b: usize,
)
    requires
        r.faithful(),
        true_angles(r, e),
        a != b,
        n <= gates.len(),
        forall|i: int|
            0 <= i < gates.len() ==> placed(#[trigger] gates[i], a, b) && halved_well(r, gates[i]),
    ensures
        alike(r, sources(all_native_gates(gates, n, e)), gates.take(n as int), a, b),
    decreases n,
{
    if n == 0 {
        assert(sources(all_native_gates(gates, 0, e)) =~= Seq::<Gate>::empty());
        assert(gates.take(0) =~= Seq::<Gate>::empty());
        lemma_alike_self(r, Seq::<Gate>::empty(), a, b);
    } else {
        let front = all_native_gates(gates, (n - 1) as nat, e);
        let g = gates[n - 1];
        lemma_native_circuit_action(r, e, gates, (n - 1) as nat, a, b);
        lemma_native_action(r, e, g, a, b);
        lemma_sources_joined(front, native_gates(g, e));
        lemma_alike_joined(
            r,
            sources(front),
            gates.take(n - 1),
            sources(native_gates(g, e)),
            seq![g],
            a,
            b,
        );
        assert(gates.take(n - 1) + seq![g] =~= gates.take(n as int));
    }
}

} // verus!
