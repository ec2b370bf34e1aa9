//! What the peephole optimizer does to neighbors keeps what they do.
use crate::action::{acted, alike, lemma_alike_symmetric, performed, phased_both, Reading};
use crate::amplitude::{lemma_rotated_linear, linear, rotated, Operator, State};
use crate::backend::lowering_law::{meaning, meanings};
use crate::backend::peephole::{centered, no_turn};
use crate::backend::peephole_law::{apart, commute, diagonal, on_control, peephole_rule, rewrites};
use crate::backend::spec::RotAxis;
use crate::backend::BackendGate;
use crate::binary64::{sum, Binary64};
use crate::ir::Gate;
use crate::ir_optimize_law::{
    angle_of, axis_of, lemma_axis_of, lemma_inverse_action, lemma_rotation_acts,
    lemma_rotations_merge, lemma_slide_action, lemma_two, same_axis,
};
use crate::native_law::{
    lemma_alike_from, lemma_conjugated, lemma_nothing, lemma_one, placed,
};
use vstd::prelude::*;

verus! {

/// Whether bringing an angle near to zero is read as no change, and an angle
/// that comes next to zero as no turn.
pub open spec fn reads_centered(r: Reading) -> bool {
    &&& (r.eighths)(Binary64 { bits: 0 }) % 8 == 0
    &&& forall|a: Binary64| #[trigger] (r.eighths)(centered(a)) % 8 == (r.eighths)(a) % 8
    &&& forall|a: Binary64| #[trigger] no_turn(a) ==> (r.eighths)(a) % 8 == 0
}

/// The angle of a backend's rotation.
pub open spec fn turn_of(g: BackendGate) -> Binary64 {
    match g {
        BackendGate::Rz(_, t) | BackendGate::Rot(_, t) | BackendGate::Rzz(_, _, t) => t,
        _ => Binary64 { bits: 0 },
    }
}

/// Whether the sum of the angles of two rotations is read as both turns.
pub open spec fn reads_joined(r: Reading, s: Binary64, t: Binary64) -> bool {
    (r.eighths)(sum(s, t)) % 8 == ((r.eighths)(s) + (r.eighths)(t)) as int % 8
}

/// A diagonal gate on a pair.
pub open spec fn is_diagonal(g: Gate) -> bool {
    g is Rz || g is Rzz || g is Cz
}

proof fn lemma_signs_commute(x: Gate, y: Gate, a: usize, s: State)
    requires
        x is Rz || x is Rzz,
        y is Rz || y is Rzz,
    ensures
        axis_of(x, a)(axis_of(y, a)(s)) == axis_of(y, a)(axis_of(x, a)(s)),
{
}

proof fn lemma_cz_and_sign(x: Gate, a: usize, s: State)
    requires
        x is Rz || x is Rzz,
    ensures
        linear(|t: State| phased_both(t, 4)),
        phased_both(axis_of(x, a)(s), 4) == axis_of(x, a)(phased_both(s, 4)),
{
    reveal_with_fuel(crate::amplitude::Amplitude::turned, 5);
}

/// Two rotations about axes that commute.
proof fn lemma_rotations_commute(p: Operator, q: Operator, s: State, k: nat, j: nat)
    requires
        linear(p),
        linear(q),
        p(q(s)) == q(p(s)),
    ensures
        ({
            let u = rotated(s, p(s), k);
            let v = rotated(s, q(s), j);
            rotated(u, q(u), j) == rotated(v, p(v), k)
        }),
{
    let u = rotated(s, p(s), k);
    let v = rotated(s, q(s), j);
    let f = |t: State| rotated(t, q(t), j);
    lemma_rotated_linear(q, j);
    lemma_conjugated(f, s, p(s), k);
    assert(f(u) == rotated(f(s), f(p(s)), k));
    lemma_conjugated(p, s, q(s), j);
    assert(p(v) == rotated(p(s), p(q(s)), j));
    assert(f(p(s)) == p(v));
}

/// Diagonal gates do the same in either order.
pub proof fn lemma_diagonal_action(r: Reading, x: Gate, y: Gate, a: usize, b: usize)
    requires
        is_diagonal(x),
        is_diagonal(y),
        a != b,
        placed(x, a, b),
        placed(y, a, b),
    ensures
        alike(r, seq![x, y], seq![y, x], a, b),
{
    let one = seq![x, y];
    let other = seq![y, x];
    assert forall|s: State| #[trigger]
        performed(r, one, a, b, s) == performed(r, other, a, b, s).scaled(0, 0) by {
        lemma_two(r, x, y, a, b, s);
        lemma_two(r, y, x, a, b, s);
        let end = performed(r, other, a, b, s);
        assert(end.roots(0) == end && end.turned(0) == end);
        let k = (r.eighths)(angle_of(x));
        let j = (r.eighths)(angle_of(y));
        let p = axis_of(x, a);
        let q = axis_of(y, a);
        let f = |t: State| phased_both(t, 4);
        if x is Cz && y is Cz {
        } else if x is Cz {
            lemma_axis_of(y, a);
            lemma_cz_and_sign(y, a, s);
            lemma_rotation_acts(r, y, a, b, s);
            lemma_rotation_acts(r, y, a, b, phased_both(s, 4));
            lemma_conjugated(f, s, q(s), j);
        } else if y is Cz {
            lemma_axis_of(x, a);
            lemma_cz_and_sign(x, a, s);
            lemma_rotation_acts(r, x, a, b, s);
            lemma_rotation_acts(r, x, a, b, phased_both(s, 4));
            lemma_conjugated(f, s, p(s), k);
        } else {
            lemma_axis_of(x, a);
            lemma_axis_of(y, a);
            lemma_signs_commute(x, y, a, s);
            lemma_rotation_acts(r, x, a, b, s);
            lemma_rotation_acts(r, y, a, b, s);
            lemma_rotation_acts(r, y, a, b, rotated(s, p(s), k));
            lemma_rotation_acts(r, x, a, b, rotated(s, q(s), j));
            lemma_rotations_commute(p, q, s, k, j);
        }
    }
    lemma_alike_from(r, one, other, a, b, 0);
}

/// Neighbors that change places have no qubit in common, or do the same in
/// either order.
pub proof fn lemma_exchange_action(
    r: Reading,
    axis: RotAxis,
    x: BackendGate,
    y: BackendGate,
    a: usize,
    b: usize,
)
    requires
        commute(x, y),
        a != b,
        placed(meaning(axis, x), a, b),
        placed(meaning(axis, y), a, b),
    ensures
        (forall|q: usize| #[trigger] x.wires().contains(q) ==> !y.wires().contains(q)) || alike(
            r,
            seq![meaning(axis, x), meaning(axis, y)],
            seq![meaning(axis, y), meaning(axis, x)],
            a,
            b,
        ),
{
    let g = meaning(axis, x);
    let h = meaning(axis, y);
    if apart(x, y) {
    } else if diagonal(x) && diagonal(y) {
        lemma_diagonal_action(r, g, h, a, b);
    } else if on_control(x, y) {
        lemma_slide_action(r, g, h, a, b);
    } else {
        lemma_slide_action(r, h, g, a, b);
        lemma_alike_symmetric(r, seq![h, g], seq![g, h], a, b);
    }
}

/// What one or two neighbors become does what they do, if it is not a mere
/// change of places.
pub proof fn lemma_rewrite_action(
    r: Reading,
    axis: RotAxis,
    l: Seq<BackendGate>,
    t: Seq<BackendGate>,
    a: usize,
    b: usize,
)
    requires
        rewrites(l, t),
        t.len() < l.len() || l.len() == 1,
        r.faithful(),
        reads_centered(r),
        l.len() == 2 ==> reads_joined(r, turn_of(l[0]), turn_of(l[1])),
        l.len() == 1 ==> reads_joined(r, Binary64 { bits: 0 }, turn_of(l[0])),
        a != b,
        forall|i: int| 0 <= i < l.len() ==> placed(meaning(axis, #[trigger] l[i]), a, b),
    ensures
        alike(r, meanings(axis, l), meanings(axis, t), a, b),
{
    assert(placed(meaning(axis, l[0]), a, b));
    let g = meaning(axis, l[0]);
    if l.len() == 2 {
        assert(placed(meaning(axis, l[1]), a, b));
        let h = meaning(axis, l[1]);
        assert(meanings(axis, l) =~= seq![g, h]);
        if t.len() == 1 {
            let m = meaning(axis, t[0]);
            assert(meanings(axis, t) =~= seq![m]);
            let both = sum(turn_of(l[0]), turn_of(l[1]));
            assert((r.eighths)(centered(both)) % 8 == (r.eighths)(both) % 8);
            assert(no_turn(both) ==> (r.eighths)(both) % 8 == 0);
            lemma_rotations_merge(r, g, h, m, a, b);
        } else {
            assert(meanings(axis, t) =~= Seq::<Gate>::empty());
            assert(angle_of(g) == (Binary64 { bits: 0 }) && angle_of(h) == angle_of(g));
            lemma_inverse_action(r, g, h, a, b);
        }
    } else {
        assert(meanings(axis, l) =~= seq![g]);
        if t.len() == 1 {
            let m = meaning(axis, t[0]);
            let s = turn_of(l[0]);
            assert(meanings(axis, t) =~= seq![m]);
            assert((r.eighths)(centered(s)) % 8 == (r.eighths)(s) % 8);
            lemma_same_turn_action(r, g, m, a, b);
        } else {
            assert(meanings(axis, t) =~= Seq::<Gate>::empty());
            lemma_nothing(r, g, turn_of(l[0]), a, b);
            lemma_alike_symmetric(r, Seq::empty(), seq![g], a, b);
        }
    }
}

/// Rotations about Z by angles that are read as the same turn.
pub proof fn lemma_same_turn_action(r: Reading, g: Gate, h: Gate, a: usize, b: usize)
    requires
        g is Rz,
        h is Rz,
        same_axis(g, h),
        (r.eighths)(angle_of(g)) % 8 == (r.eighths)(angle_of(h)) % 8,
        a != b,
        placed(g, a, b),
        placed(h, a, b),
    ensures
        alike(r, seq![g], seq![h], a, b),
{
    let one = seq![g];
    assert forall|s: State| #[trigger]
        performed(r, one, a, b, s) == performed(r, seq![h], a, b, s).scaled(0, 0) by {
        lemma_one(r, g, a, b, s);
        lemma_one(r, h, a, b, s);
        lemma_rotation_acts(r, g, a, b, s);
        lemma_rotation_acts(r, h, a, b, s);
        let p = axis_of(g, a)(s);
        assert(axis_of(h, a)(s) == p);
        crate::amplitude::lemma_state_same_turn(
            s.minus(p),
            (r.eighths)(angle_of(g)),
            (r.eighths)(angle_of(h)),
        );
        let end = acted(r, h, a, b, s);
        assert(end.roots(0) == end && end.turned(0) == end);
    }
    lemma_alike_from(r, one, seq![h], a, b, 0);
}

/// Whatever the peephole optimizer does to neighbors keeps what they do.
pub proof fn lemma_peephole_rule_action(
    r: Reading,
    axis: RotAxis,
    l: Seq<BackendGate>,
    t: Seq<BackendGate>,
    a: usize,
    b: usize,
)
    requires
        peephole_rule()(l, t),
        r.faithful(),
        reads_centered(r),
        l.len() == 2 ==> reads_joined(r, turn_of(l[0]), turn_of(l[1])),
        l.len() == 1 ==> reads_joined(r, Binary64 { bits: 0 }, turn_of(l[0])),
        a != b,
        forall|i: int| 0 <= i < l.len() ==> placed(meaning(axis, #[trigger] l[i]), a, b),
    ensures
        ({
            ||| l.len() == 2 && t == seq![l[1], l[0]] && forall|q: usize| #[trigger]
                l[0].wires().contains(q) ==> !l[1].wires().contains(q)
            ||| alike(r, meanings(axis, l), meanings(axis, t), a, b)
        }),
{
    if l.len() == 2 && t.len() == 2 {
        assert(placed(meaning(axis, l[0]), a, b) && placed(meaning(axis, l[1]), a, b));
        lemma_exchange_action(r, axis, l[0], l[1], a, b);
        assert(meanings(axis, l) =~= seq![meaning(axis, l[0]), meaning(axis, l[1])]);
        assert(meanings(axis, t) =~= seq![meaning(axis, l[1]), meaning(axis, l[0])]);
    } else {
        lemma_rewrite_action(r, axis, l, t, a, b);
    }
}

} // verus!
