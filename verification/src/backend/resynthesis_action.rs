//! A run of rotations and what it is written as again do the same.
use crate::action::{
    alike, crossed, lemma_alike_self, lemma_alike_symmetric, lemma_alike_transitive, performed,
    Reading,
};
use crate::amplitude::{
    lemma_same_turn, linear, rotated, Amplitude, State,
};
use crate::angle::{turns, Euler, EulerOf, Turn, HALF_PI_BITS};
use crate::backend::lowering_law::{lemma_meanings_joined, meaning, meanings};
use crate::backend::peephole::{centered, no_turn};
use crate::backend::peephole_action::{lemma_same_turn_action, reads_centered};
use crate::backend::resynthesis::{as_turn, euler_gates, if_rot, if_z};
use crate::backend::resynthesis_law::{exchanged, is_run, resynthesis_rule};
use crate::backend::spec::RotAxis;
use crate::backend::BackendGate;
use crate::binary64::{difference, negated, sum, Binary64};
use crate::ir::Gate;
use crate::ir_optimize_law::lemma_rotations_merge;
use crate::native_law::{
    euler_rotations, lemma_alike_from, lemma_alike_three, lemma_conjugated, lemma_nothing,
    lemma_rotated_signed, lemma_three, lemma_one, turn_gate,
};
use vstd::prelude::*;

verus! {

/// The gates of a series of operations on a qubit.
pub open spec fn turn_gates(q: usize, ts: Seq<Turn>) -> Seq<Gate> {
    ts.map_values(|t: Turn| turn_gate(q, t))
}

/// Whether a quarter turn less or more is read as such.
pub open spec fn reads_quarters(r: Reading, x: Euler) -> bool {
    let quarter = Binary64 { bits: HALF_PI_BITS };
    &&& ((r.eighths)(difference(x.delta, quarter)) + 2) % 8 == (r.eighths)(x.delta) % 8
    &&& (r.eighths)(sum(x.beta, quarter)) % 8 == ((r.eighths)(x.beta) + 2) % 8
}

/// A rotation about Z may be left out where it comes next to nothing.
pub proof fn lemma_if_z(r: Reading, axis: RotAxis, q: usize, t: Binary64, a: usize, b: usize)
    requires
        reads_centered(r),
        a != b,
        q == a || q == b,
    ensures
        alike(r, meanings(axis, if_z(q, t)), seq![Gate::Rz(q, t)], a, b),
{
    if no_turn(t) {
        assert(meanings(axis, if_z(q, t)) =~= Seq::<Gate>::empty());
        lemma_nothing(r, Gate::Rz(q, t), t, a, b);
    } else {
        assert(meanings(axis, if_z(q, t)) =~= seq![Gate::Rz(q, centered(t))]);
        assert((r.eighths)(centered(t)) % 8 == (r.eighths)(t) % 8);
        lemma_same_turn_action(r, Gate::Rz(q, centered(t)), Gate::Rz(q, t), a, b);
    }
}

proof fn lemma_if_rot(r: Reading, axis: RotAxis, q: usize, t: Binary64, a: usize, b: usize)
    requires
        r.faithful(),
        a != b,
        q == a || q == b,
    ensures
        alike(
            r,
            meanings(axis, if_rot(q, t)),
            seq![meaning(axis, BackendGate::Rot(q, t))],
            a,
            b,
        ),
{
    let g = meaning(axis, BackendGate::Rot(q, t));
    if turns(t) {
        assert(meanings(axis, if_rot(q, t)) =~= seq![g]);
        lemma_alike_self(r, seq![g], a, b);
    } else {
        assert(meanings(axis, if_rot(q, t)) =~= Seq::<Gate>::empty());
        lemma_nothing(r, g, t, a, b);
    }
}

proof fn lemma_quarters(s: State, first: bool)
    ensures
        linear(|t: State| t.phased(first, 2)),
        s.phased(first, 6).phased(first, 2) == s,
        s.phased(first, 6).flipped(first).phased(first, 2) == crossed(s, first),
{
    reveal_with_fuel(Amplitude::turned, 7);
}

/// A rotation about X between quarter turns about Z is one about Y.
pub proof fn lemma_ry_by_rx(r: Reading, q: usize, t: Binary64, a: usize, b: usize)
    requires
        r.faithful(),
        a != b,
        q == a || q == b,
    ensures
        ({
            let quarter = Binary64 { bits: HALF_PI_BITS };
            alike(
                r,
                seq![Gate::Rz(q, negated(quarter)), Gate::Rx(q, t), Gate::Rz(q, quarter)],
                seq![Gate::Ry(q, t)],
                a,
                b,
            )
        }),
{
    let quarter = Binary64 { bits: HALF_PI_BITS };
    let back = negated(quarter);
    let long = seq![Gate::Rz(q, back), Gate::Rx(q, t), Gate::Rz(q, quarter)];
    let goal = seq![Gate::Ry(q, t)];
    let first = q == a;
    let k = (r.eighths)(t);
    let i = (r.eighths)(quarter);
    let j = (r.eighths)(back);
    assert((i + j) % 8 == 0);
    assert forall|s: State| #[trigger]
        performed(r, long, a, b, s) == performed(r, goal, a, b, s).scaled(4, 0) by {
        lemma_three(r, Gate::Rz(q, back), Gate::Rx(q, t), Gate::Rz(q, quarter), a, b, s);
        lemma_one(r, Gate::Ry(q, t), a, b, s);
        let u = s.phased(first, 6);
        lemma_phased_same(s, first, j, 6);
        lemma_rotated_signed(s, first, j);
        crate::action::lemma_acted_scaled(r, Gate::Rx(q, t), a, b, u, 2, 0);
        let v = rotated(u, u.flipped(first), k);
        crate::action::lemma_acted_scaled(r, Gate::Rz(q, quarter), a, b, v, 2, 0);
        lemma_phased_same(v, first, i, 2);
        lemma_rotated_signed(v, first, i);
        let f = |t: State| t.phased(first, 2);
        lemma_quarters(s, first);
        lemma_conjugated(f, u, u.flipped(first), k);
        assert(f(v) == rotated(s, crossed(s, first), k));
        crate::amplitude::lemma_scaled_twice(f(v), 2, 0, 2, 0);
    }
    lemma_alike_from(r, long, goal, a, b, 4);
}

pub proof fn lemma_phased_same(s: State, first: bool, j: nat, k: nat)
    requires
        j % 8 == k % 8,
    ensures
        s.phased(first, j) == s.phased(first, k),
{
    lemma_same_turn(s.v01, j, k);
    lemma_same_turn(s.v10, j, k);
    lemma_same_turn(s.v11, j, k);
}

/// Euler angles about Z and X do what those about Z and Y do.
proof fn lemma_shifted(r: Reading, q: usize, x: Euler, a: usize, b: usize)
    requires
        r.faithful(),
        reads_quarters(r, x),
        a != b,
        q == a || q == b,
    ensures
        ({
            let quarter = Binary64 { bits: HALF_PI_BITS };
            alike(
                r,
                seq![
                    Gate::Rz(q, difference(x.delta, quarter)),
                    Gate::Rx(q, x.gamma),
                    Gate::Rz(q, sum(x.beta, quarter)),
                ],
                euler_rotations(q, x),
                a,
                b,
            )
        }),
{
    let quarter = Binary64 { bits: HALF_PI_BITS };
    let back = negated(quarter);
    let d = Gate::Rz(q, x.delta);
    let m = Gate::Rz(q, back);
    let p = Gate::Rz(q, quarter);
    let e = Gate::Rz(q, x.beta);
    let d2 = Gate::Rz(q, difference(x.delta, quarter));
    let e2 = Gate::Rz(q, sum(x.beta, quarter));
    let g = Gate::Rx(q, x.gamma);
    assert(((r.eighths)(quarter) + (r.eighths)(back)) % 8 == 0);
    lemma_rotations_merge(r, d, m, d2, a, b);
    lemma_rotations_merge(r, p, e, e2, a, b);
    lemma_alike_symmetric(r, seq![d, m], seq![d2], a, b);
    lemma_alike_symmetric(r, seq![p, e], seq![e2], a, b);
    lemma_alike_self(r, seq![g], a, b);
    lemma_alike_three(r, seq![d2], seq![d, m], seq![g], seq![g], seq![e2], seq![p, e], a, b);
    lemma_ry_by_rx(r, q, x.gamma, a, b);
    lemma_alike_self(r, seq![d], a, b);
    lemma_alike_self(r, seq![e], a, b);
    let ry = seq![Gate::Ry(q, x.gamma)];
    lemma_alike_three(r, seq![d], seq![d], seq![m, g, p], ry, seq![e], seq![e], a, b);
    let short = seq![d2, g, e2];
    assert(seq![d2] + seq![g] + seq![e2] =~= short);
    assert(seq![d, m] + seq![g] + seq![p, e] =~= seq![d] + seq![m, g, p] + seq![e]);
    assert(seq![d] + ry + seq![e] =~= euler_rotations(q, x));
    lemma_alike_transitive(
        r,
        short,
        seq![d] + seq![m, g, p] + seq![e],
        euler_rotations(q, x),
        a,
        b,
    );
}

/// What Euler angles are written as does what the three rotations do.
pub proof fn lemma_euler_action(r: Reading, axis: RotAxis, q: usize, x: Euler, a: usize, b: usize)
    requires
        r.faithful(),
        reads_centered(r),
        reads_quarters(r, x),
        a != b,
        q == a || q == b,
    ensures
        alike(r, meanings(axis, euler_gates(axis, q, x)), euler_rotations(q, x), a, b),
{
    let quarter = Binary64 { bits: HALF_PI_BITS };
    let (d, e) = if axis == RotAxis::Ry {
        (x.delta, x.beta)
    } else {
        (difference(x.delta, quarter), sum(x.beta, quarter))
    };
    let s1 = if_z(q, d);
    let s2 = if_rot(q, x.gamma);
    let s3 = if_z(q, e);
    let g1 = seq![Gate::Rz(q, d)];
    let g2 = seq![meaning(axis, BackendGate::Rot(q, x.gamma))];
    let g3 = seq![Gate::Rz(q, e)];
    lemma_if_z(r, axis, q, d, a, b);
    lemma_if_rot(r, axis, q, x.gamma, a, b);
    lemma_if_z(r, axis, q, e, a, b);
    lemma_alike_three(
        r,
        meanings(axis, s1),
        g1,
        meanings(axis, s2),
        g2,
        meanings(axis, s3),
        g3,
        a,
        b,
    );
    lemma_meanings_joined(axis, s1, s2);
    lemma_meanings_joined(axis, s1 + s2, s3);
    if axis == RotAxis::Ry {
        assert(g1 + g2 + g3 =~= euler_rotations(q, x));
    } else {
        lemma_shifted(r, q, x, a, b);
        assert(g1 + g2 + g3 =~= seq![Gate::Rz(q, d), Gate::Rx(q, x.gamma), Gate::Rz(q, e)]);
        lemma_alike_transitive(
            r,
            meanings(axis, euler_gates(axis, q, x)),
            g1 + g2 + g3,
            euler_rotations(q, x),
            a,
            b,
        );
    }
}

/// What a run is written as again does what the run does, if the Euler angles
/// of the run are true.
pub proof fn lemma_run_action(
    r: Reading,
    e: EulerOf,
    axis: RotAxis,
    run: Seq<BackendGate>,
    q: usize,
    ts: Seq<Turn>,
    a: usize,
    b: usize,
)
    requires
        is_run(run, axis, q, ts),
        r.faithful(),
        reads_centered(r),
        reads_quarters(r, e(ts)),
        alike(r, euler_rotations(q, e(ts)), turn_gates(q, ts), a, b),
        a != b,
        q == a || q == b,
    ensures
        alike(r, meanings(axis, euler_gates(axis, q, e(ts))), meanings(axis, run), a, b),
{
    lemma_euler_action(r, axis, q, e(ts), a, b);
    assert forall|i: int| 0 <= i < run.len() implies meaning(axis, #[trigger] run[i]) == turn_gate(
        q,
        ts[i],
    ) by {
        assert(as_turn(axis, run[i]) == Some((q, ts[i])));
    }
    assert(meanings(axis, run) =~= turn_gates(q, ts));
    lemma_alike_transitive(
        r,
        meanings(axis, euler_gates(axis, q, e(ts))),
        euler_rotations(q, e(ts)),
        turn_gates(q, ts),
        a,
        b,
    );
}

/// Whatever resynthesis does keeps what gates do: gates without a qubit in
/// common change places, or a run is written as rotations that do the same, if
/// its Euler angles are true.
pub proof fn lemma_resynthesis_rule_action(
    r: Reading,
    e: EulerOf,
    axis: RotAxis,
    l: Seq<BackendGate>,
    t: Seq<BackendGate>,
    a: usize,
    b: usize,
)
    requires
        resynthesis_rule(axis, e)(l, t),
        r.faithful(),
        reads_centered(r),
        forall|q: usize, ts: Seq<Turn>| #[trigger]
            is_run(l, axis, q, ts) ==> (q == a || q == b) && reads_quarters(r, e(ts)) && alike(
                r,
                euler_rotations(q, e(ts)),
                turn_gates(q, ts),
                a,
                b,
            ),
        a != b,
    ensures
        ({
            ||| l.len() == 2 && t == seq![l[1], l[0]] && forall|q: usize| #[trigger]
                l[0].wires().contains(q) ==> !l[1].wires().contains(q)
            ||| alike(r, meanings(axis, t), meanings(axis, l), a, b)
        }),
{
    if !exchanged(l, t) {
        let (q, ts) = choose|q: usize, ts: Seq<Turn>| #[trigger]
            is_run(l, axis, q, ts) && t == euler_gates(axis, q, e(ts));
        lemma_run_action(r, e, axis, l, q, ts, a, b);
    }
}

} // verus!
