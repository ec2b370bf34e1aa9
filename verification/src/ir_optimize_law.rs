//! What the source optimizer does to neighbors keeps what they do.
use crate::action::{
    acted, alike, controlled_flip, crossed, crossed_both, flipped_both, lemma_alike_symmetric,
    performed, phased_both, signed_both, Reading,
};
use crate::amplitude::{
    lemma_doubled, lemma_same_turn, lemma_scaled_twice, lemma_state_same_turn, lemma_state_turned,
    lemma_state_turned_twice, lemma_turned_twice, linear, rotated, Amplitude, Operator, State,
};
use crate::binary64::{sum, Binary64};
use crate::ir::Gate;
use crate::ir_optimize::{commute, diagonal_qubit, inverse, ir_rule, merged, opposite, slides_through};
use crate::native_law::{lemma_alike_from, lemma_conjugated, lemma_one, lemma_pushed, placed};
use vstd::prelude::*;

verus! {

/// Whether the angles of two gates, if they cancel, are read as turns that
/// cancel.
pub open spec fn reads_opposites(r: Reading, x: Gate, y: Gate) -> bool {
    opposite(angle_of(x), angle_of(y)) ==> ((r.eighths)(angle_of(x)) + (r.eighths)(angle_of(y))) % 8
        == 0
}

/// Whether the sum of two angles is read as one turn after the other.
pub open spec fn reads_sum(r: Reading, s: Binary64, t: Binary64) -> bool {
    (r.eighths)(sum(s, t)) % 8 == ((r.eighths)(s) + (r.eighths)(t)) as int % 8
}

/// The angle of a rotation.
pub open spec fn angle_of(g: Gate) -> Binary64 {
    match g {
        Gate::Rx(_, t)
        | Gate::Ry(_, t)
        | Gate::Rz(_, t)
        | Gate::Cp(_, _, t)
        | Gate::Rxx(_, _, t)
        | Gate::Ryy(_, _, t)
        | Gate::Rzz(_, _, t) => t,
        _ => Binary64 { bits: 0 },
    }
}

pub proof fn lemma_two(r: Reading, f: Gate, g: Gate, a: usize, b: usize, s: State)
    ensures
        performed(r, seq![f, g], a, b, s) == acted(r, g, a, b, acted(r, f, a, b, s)),
{
    lemma_one(r, f, a, b, s);
    lemma_pushed(r, seq![f], g, a, b, s);
    assert(seq![f, g] =~= seq![f].push(g));
}

/// Two rotations about one axis are one by both angles.
pub proof fn lemma_rotated_twice(p: Operator, s: State, k: nat, j: nat)
    requires
        linear(p),
        p(p(s)) == s,
    ensures
        ({
            let u = rotated(s, p(s), k);
            rotated(u, p(u), j) == rotated(s, p(s), k + j).scaled(2, 0)
        }),
{
    let u = rotated(s, p(s), k);
    let plus = s.plus(p(s));
    let minus = s.minus(p(s));
    let back = p(s).minus(s);
    lemma_conjugated(p, s, p(s), k);
    assert(p(u) == p(s).plus(s).plus(back.turned(k)));
    lemma_state_turned(s.minus(s), minus, k);
    lemma_state_turned(s, s, k);
    assert(back == s.minus(s).minus(minus));
    assert(back.turned(k) == s.turned(k).minus(s.turned(k)).minus(minus.turned(k)));
    assert(u.plus(p(u)) == plus.plus(plus));
    let m = minus.turned(k);
    assert(u.minus(p(u)) == m.plus(m));
    lemma_state_turned(m, m, j);
    lemma_state_turned_twice(minus, k, j);
    let goal = rotated(s, p(s), k + j);
    assert(rotated(u, p(u), j) == goal.plus(goal));
    lemma_doubled(goal);
}

proof fn lemma_axis(first: bool)
    ensures
        linear(|s: State| s.flipped(first)),
        linear(|s: State| s.signed(first)),
        linear(|s: State| crossed(s, first)),
        forall|s: State| (#[trigger] s.flipped(first)).flipped(first) == s,
        forall|s: State| (#[trigger] s.signed(first)).signed(first) == s,
        forall|s: State| crossed(#[trigger] crossed(s, first), first) == s,
{
}

proof fn lemma_double_axis()
    ensures
        linear(|s: State| flipped_both(s)),
        linear(|s: State| signed_both(s)),
        forall|s: State| flipped_both(#[trigger] flipped_both(s)) == s,
        forall|s: State| signed_both(#[trigger] signed_both(s)) == s,
{
}

proof fn lemma_crossed_axis()
    ensures
        linear(|s: State| crossed_both(s)),
        forall|s: State| crossed_both(#[trigger] crossed_both(s)) == s,
{
    let h = |s: State| crossed_both(s);
    assert forall|x: State, y: State| #[trigger] h(x.plus(y)) == h(x).plus(h(y)) by {}
    assert forall|x: State, y: State| #[trigger] h(x.minus(y)) == h(x).minus(h(y)) by {}
    assert forall|x: State| #[trigger] h(x.eighth()) == h(x).eighth() by {}
}

/// The axis of a rotation on a pair of qubits.
pub open spec fn axis_of(g: Gate, a: usize) -> Operator {
    match g {
        Gate::Rx(q, _) => |s: State| s.flipped(q == a),
        Gate::Ry(q, _) => |s: State| crossed(s, q == a),
        Gate::Rz(q, _) => |s: State| s.signed(q == a),
        Gate::Rxx(_, _, _) => |s: State| flipped_both(s),
        Gate::Ryy(_, _, _) => |s: State| crossed_both(s),
        _ => |s: State| signed_both(s),
    }
}

/// Whether two gates are rotations of the same qubits about the same axis.
pub open spec fn same_axis(x: Gate, y: Gate) -> bool {
    match (x, y) {
        (Gate::Rx(p, _), Gate::Rx(q, _)) => p == q,
        (Gate::Ry(p, _), Gate::Ry(q, _)) => p == q,
        (Gate::Rz(p, _), Gate::Rz(q, _)) => p == q,
        (Gate::Rxx(_, _, _), Gate::Rxx(_, _, _)) => true,
        (Gate::Ryy(_, _, _), Gate::Ryy(_, _, _)) => true,
        (Gate::Rzz(_, _, _), Gate::Rzz(_, _, _)) => true,
        _ => false,
    }
}

pub proof fn lemma_axis_of(g: Gate, a: usize)
    requires
        same_axis(g, g),
    ensures
        linear(axis_of(g, a)),
        forall|s: State| axis_of(g, a)(#[trigger] axis_of(g, a)(s)) == s,
{
    match g {
        Gate::Rx(q, _) | Gate::Ry(q, _) | Gate::Rz(q, _) => lemma_axis(q == a),
        Gate::Rxx(_, _, _) | Gate::Rzz(_, _, _) => lemma_double_axis(),
        _ => lemma_crossed_axis(),
    }
}

pub proof fn lemma_rotation_acts(r: Reading, g: Gate, a: usize, b: usize, s: State)
    requires
        same_axis(g, g),
        a != b,
        placed(g, a, b),
    ensures
        acted(r, g, a, b, s) == rotated(s, axis_of(g, a)(s), (r.eighths)(angle_of(g))),
{
}

/// Two rotations about one axis do what one by both angles does.
pub proof fn lemma_rotations_merge(r: Reading, x: Gate, y: Gate, z: Gate, a: usize, b: usize)
    requires
        a != b,
        placed(x, a, b),
        placed(y, a, b),
        placed(z, a, b),
        same_axis(x, y),
        same_axis(x, z),
        (r.eighths)(angle_of(z)) % 8 == ((r.eighths)(angle_of(x)) + (r.eighths)(angle_of(y))) as int
            % 8,
    ensures
        alike(r, seq![x, y], seq![z], a, b),
{
    let p = axis_of(x, a);
    let k = (r.eighths)(angle_of(x));
    let j = (r.eighths)(angle_of(y));
    let l = (r.eighths)(angle_of(z));
    let both = seq![x, y];
    lemma_axis_of(x, a);
    assert forall|s: State| #[trigger]
        performed(r, both, a, b, s) == performed(r, seq![z], a, b, s).scaled(2, 0) by {
        lemma_two(r, x, y, a, b, s);
        lemma_one(r, z, a, b, s);
        lemma_rotation_acts(r, x, a, b, s);
        let u = rotated(s, p(s), k);
        lemma_rotation_acts(r, y, a, b, u);
        lemma_rotation_acts(r, z, a, b, s);
        assert(axis_of(y, a)(u) == p(u));
        assert(axis_of(z, a)(s) == p(s));
        assert(p(p(s)) == s);
        lemma_rotated_twice(p, s, k, j);
        lemma_state_same_turn(s.minus(p(s)), k + j, l);
    }
    lemma_alike_from(r, both, seq![z], a, b, 2);
}

/// Two rotations about one axis that turn back do nothing.
pub proof fn lemma_rotations_cancel(r: Reading, x: Gate, y: Gate, a: usize, b: usize)
    requires
        a != b,
        placed(x, a, b),
        placed(y, a, b),
        same_axis(x, y),
        ((r.eighths)(angle_of(x)) + (r.eighths)(angle_of(y))) % 8 == 0,
    ensures
        alike(r, seq![x, y], Seq::empty(), a, b),
{
    let p = axis_of(x, a);
    let k = (r.eighths)(angle_of(x));
    let j = (r.eighths)(angle_of(y));
    let both = seq![x, y];
    let none = Seq::<Gate>::empty();
    lemma_axis_of(x, a);
    assert forall|s: State| #[trigger]
        performed(r, both, a, b, s) == performed(r, none, a, b, s).scaled(4, 0) by {
        lemma_two(r, x, y, a, b, s);
        lemma_rotation_acts(r, x, a, b, s);
        let u = rotated(s, p(s), k);
        lemma_rotation_acts(r, y, a, b, u);
        assert(axis_of(y, a)(u) == p(u));
        assert(p(p(s)) == s);
        lemma_rotated_twice(p, s, k, j);
        crate::action::lemma_no_turn(s, p(s), k + j);
        lemma_scaled_twice(s, 2, 0, 2, 0);
    }
    lemma_alike_from(r, both, none, a, b, 4);
}

/// How many eighths a diagonal gate turns its qubit where it is one.
pub open spec fn phase_of(g: Gate) -> nat {
    match g {
        Gate::Z(_) => 4,
        Gate::S(_) => 2,
        Gate::Sdg(_) => 6,
        Gate::T(_) => 1,
        _ => 7,
    }
}

proof fn lemma_phase_acts(r: Reading, g: Gate, a: usize, b: usize, s: State)
    requires
        a != b,
        placed(g, a, b),
        g is Z || g is S || g is Sdg || g is T || g is Tdg,
    ensures
        acted(r, g, a, b, s) == s.phased(diagonal_qubit(g) == Some(a), phase_of(g)),
{
    reveal_with_fuel(Amplitude::turned, 5);
}

/// Two diagonal gates whose phases add up to a full turn do nothing.
proof fn lemma_phases_cancel(r: Reading, x: Gate, y: Gate, a: usize, b: usize, s: State)
    requires
        a != b,
        placed(x, a, b),
        placed(y, a, b),
        x is Z || x is S || x is Sdg || x is T || x is Tdg,
        y is Z || y is S || y is Sdg || y is T || y is Tdg,
        diagonal_qubit(x) == diagonal_qubit(y),
        (phase_of(x) + phase_of(y)) % 8 == 0,
    ensures
        acted(r, y, a, b, acted(r, x, a, b, s)) == s,
{
    let first = diagonal_qubit(x) == Some(a);
    let k = phase_of(x);
    let j = phase_of(y);
    lemma_phase_acts(r, x, a, b, s);
    lemma_phase_acts(r, y, a, b, s.phased(first, k));
    lemma_turned_twice(s.v01, k, j);
    lemma_turned_twice(s.v10, k, j);
    lemma_turned_twice(s.v11, k, j);
    lemma_same_turn(s.v01, k + j, 0);
    lemma_same_turn(s.v10, k + j, 0);
    lemma_same_turn(s.v11, k + j, 0);
    assert(s.v01.turned(0) == s.v01 && s.v10.turned(0) == s.v10 && s.v11.turned(0) == s.v11);
}

proof fn lemma_h_twice(s: State, first: bool)
    ensures
        ({
            let h = s.flipped(first).plus(s.signed(first));
            h.flipped(first).plus(h.signed(first)) == s.scaled(2, 0)
        }),
{
    lemma_doubled(s);
}

/// Neighbors that are removed do nothing together, up to a global phase.
pub proof fn lemma_inverse_action(r: Reading, x: Gate, y: Gate, a: usize, b: usize)
    requires
        inverse(x, y),
        reads_opposites(r, x, y),
        a != b,
        placed(x, a, b),
        placed(y, a, b),
    ensures
        alike(r, seq![x, y], Seq::empty(), a, b),
{
    let both = seq![x, y];
    let none = Seq::<Gate>::empty();
    if same_axis(x, y) {
        assert(opposite(angle_of(x), angle_of(y)));
        lemma_rotations_cancel(r, x, y, a, b);
    } else {
        let m: nat = if x is H {
            2
        } else {
            0
        };
        assert forall|s: State| #[trigger]
            performed(r, both, a, b, s) == performed(r, none, a, b, s).scaled(m, 0) by {
            lemma_two(r, x, y, a, b, s);
            assert(s.roots(0) == s && s.turned(0) == s);
            match x {
                Gate::H(q) => lemma_h_twice(s, q == a),
                Gate::X(q) => {},
                Gate::Y(q) => lemma_axis(q == a),
                Gate::Cp(_, _, t) => {
                    assert(opposite(angle_of(x), angle_of(y)));
                    let k = (r.eighths)(t);
                    let j = (r.eighths)(angle_of(y));
                    lemma_turned_twice(s.v11, k, j);
                    lemma_same_turn(s.v11, k + j, 0);
                    assert(s.v11.turned(0) == s.v11);
                },
                Gate::Cz(_, _) => {
                    lemma_turned_twice(s.v11, 4, 4);
                    lemma_same_turn(s.v11, 8, 0);
                    assert(s.v11.turned(0) == s.v11);
                },
                Gate::Cx(_, _) | Gate::Swap(_, _) => {},
                _ => lemma_phases_cancel(r, x, y, a, b, s),
            }
        }
        lemma_alike_from(r, both, none, a, b, m);
    }
}

/// The rotation that two neighbors are merged into does what they do.
pub proof fn lemma_merged_action(r: Reading, x: Gate, y: Gate, a: usize, b: usize)
    requires
        merged(x, y) is Some,
        reads_sum(r, angle_of(x), angle_of(y)),
        a != b,
        placed(x, a, b),
        placed(y, a, b),
    ensures
        alike(r, seq![x, y], seq![merged(x, y)->0], a, b),
{
    lemma_rotations_merge(r, x, y, merged(x, y)->0, a, b);
}

proof fn lemma_slide_phase(r: Reading, x: Gate, y: Gate, a: usize, b: usize, s: State)
    requires
        a != b,
        placed(x, a, b),
        placed(y, a, b),
        x is Z || x is S || x is Sdg || x is T || x is Tdg,
        y matches Gate::Cx(c, _) && diagonal_qubit(x) == Some(c) || y is Cz,
    ensures
        acted(r, y, a, b, acted(r, x, a, b, s)) == acted(r, x, a, b, acted(r, y, a, b, s)),
{
    let first = diagonal_qubit(x) == Some(a);
    let k = phase_of(x);
    lemma_phase_acts(r, x, a, b, s);
    lemma_phase_acts(r, x, a, b, acted(r, y, a, b, s));
    lemma_turned_twice(s.v11, k, 4);
    lemma_turned_twice(s.v11, 4, k);
}

proof fn lemma_flip_linear(s: State, straight: bool)
    ensures
        linear(|s: State| controlled_flip(s, straight)),
        controlled_flip(s.signed(straight), straight) == controlled_flip(s, straight).signed(
            straight,
        ),
        controlled_flip(s.flipped(!straight), straight) == controlled_flip(s, straight).flipped(
            !straight,
        ),
{
}

proof fn lemma_cz_linear(first: bool)
    ensures
        linear(|s: State| phased_both(s, 4)),
        forall|s: State|
            #![trigger s.signed(first)]
            phased_both(s.signed(first), 4) == phased_both(s, 4).signed(first),
{
    reveal_with_fuel(Amplitude::turned, 5);
}

/// A gate that slides past another may stand on either side of it.
pub proof fn lemma_slide_action(r: Reading, x: Gate, y: Gate, a: usize, b: usize)
    requires
        slides_through(x, y),
        a != b,
        placed(x, a, b),
        placed(y, a, b),
    ensures
        alike(r, seq![x, y], seq![y, x], a, b),
{
    let one = seq![x, y];
    let other = seq![y, x];
    let k = (r.eighths)(angle_of(x));
    assert forall|s: State| #[trigger]
        performed(r, one, a, b, s) == performed(r, other, a, b, s).scaled(0, 0) by {
        lemma_two(r, x, y, a, b, s);
        lemma_two(r, y, x, a, b, s);
        let end = performed(r, other, a, b, s);
        assert(end.roots(0) == end && end.turned(0) == end);
        match y {
            Gate::Cx(c, t) => {
                let straight = c == a;
                let f = |s: State| controlled_flip(s, straight);
                lemma_flip_linear(s, straight);
                match x {
                    Gate::X(q) => {
                        assert(q == t);
                        assert(s.flipped(!straight) == s.flipped(q == a));
                    },
                    Gate::Rx(q, _) => {
                        assert(q == t);
                        lemma_conjugated(f, s, s.flipped(!straight), k);
                        assert(f(s.flipped(!straight)) == f(s).flipped(!straight));
                    },
                    Gate::Rz(q, _) => {
                        lemma_conjugated(f, s, s.signed(straight), k);
                        assert(f(s.signed(straight)) == f(s).signed(straight));
                    },
                    _ => lemma_slide_phase(r, x, y, a, b, s),
                }
            },
            _ => {
                let f = |s: State| phased_both(s, 4);
                if let Gate::Rz(q, _) = x {
                    lemma_cz_linear(q == a);
                    lemma_conjugated(f, s, s.signed(q == a), k);
                    assert(f(s.signed(q == a)) == f(s).signed(q == a));
                } else {
                    lemma_slide_phase(r, x, y, a, b, s);
                }
            },
        }
    }
    lemma_alike_from(r, one, other, a, b, 0);
}

/// Neighbors that change places are no measurements and under no conditions,
/// and have no qubit in common or do the same in either order.
pub proof fn lemma_commute_action(r: Reading, x: Gate, y: Gate, a: usize, b: usize)
    requires
        commute(x, y),
        a != b,
        placed(x, a, b),
        placed(y, a, b),
    ensures
        !(x is Measure) && !(x is If) && !(y is Measure) && !(y is If),
        (forall|q: usize| !(#[trigger] x.wires().contains(q) && y.wires().contains(q))) || alike(
            r,
            seq![x, y],
            seq![y, x],
            a,
            b,
        ),
{
    if slides_through(x, y) {
        lemma_slide_action(r, x, y, a, b);
    } else if slides_through(y, x) {
        lemma_slide_action(r, y, x, a, b);
        lemma_alike_symmetric(r, seq![y, x], seq![x, y], a, b);
    } else {
        assert forall|q: usize| !(#[trigger] x.wires().contains(q) && y.wires().contains(q)) by {
            assert(!(crate::ir_optimize::touches(x, q) && crate::ir_optimize::touches(y, q)));
        }
    }
}

/// Whatever the optimizer does to two neighbors keeps what they do: they change
/// places without a qubit in common, or what comes out does the same, up to a
/// global phase.
pub proof fn lemma_rule_action(r: Reading, l: Seq<Gate>, t: Seq<Gate>, a: usize, b: usize)
    requires
        ir_rule()(l, t),
        l.len() == 2 ==> reads_opposites(r, l[0], l[1]) && reads_sum(
            r,
            angle_of(l[0]),
            angle_of(l[1]),
        ),
        a != b,
        forall|i: int| 0 <= i < l.len() ==> placed(#[trigger] l[i], a, b),
    ensures
        l.len() == 2,
        ({
            ||| t == seq![l[1], l[0]] && !(l[0] is Measure) && !(l[0] is If) && !(l[1] is Measure)
                && !(l[1] is If) && forall|q: usize|
                !(#[trigger] l[0].wires().contains(q) && l[1].wires().contains(q))
            ||| alike(r, l, t, a, b)
        }),
{
    let x = l[0];
    let y = l[1];
    assert(placed(l[0], a, b) && placed(l[1], a, b));
    assert(l =~= seq![x, y]);
    if t == seq![y, x] && commute(x, y) {
        lemma_commute_action(r, x, y, a, b);
    } else if t == Seq::<Gate>::empty() && inverse(x, y) {
        lemma_inverse_action(r, x, y, a, b);
    } else {
        lemma_merged_action(r, x, y, a, b);
        assert(t =~= seq![merged(x, y)->0]);
    }
}

} // verus!
