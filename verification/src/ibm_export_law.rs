//! The instructions of IBM's basis do what the gates do that they stand for.
use crate::action::{
    acted, alike, alike_by, lemma_acted_scaled, lemma_alike_joined, lemma_alike_self,
    lemma_alike_symmetric, lemma_alike_transitive, performed, Reading,
};
use crate::amplitude::{
    lemma_doubled, lemma_scaled_twice, lemma_state_same_turn, lemma_state_turned,
    lemma_state_turned_twice, linear, rotated, Amplitude, State,
};
use crate::angle::{HALF_PI_BITS, PI_BITS};
use crate::backend::lowering_law::meaning;
use crate::backend::peephole::{centered, no_turn};
use crate::backend::peephole_action::{lemma_same_turn_action, reads_centered, reads_joined};
use crate::backend::resynthesis_action::lemma_phased_same;
use crate::backend::spec::RotAxis;
use crate::backend::BackendGate;
use crate::binary64::{sum, Binary64};
use crate::ibm_export::{foreign, gate_instrs, half_turn, merge_next, rot_instrs, snapped, IbmInstr};
use crate::ir::Gate;
use crate::ir_optimize_law::lemma_rotations_merge;
use crate::native_law::{
    lemma_alike_from, lemma_conjugated, lemma_five, lemma_nothing, lemma_one, lemma_rotated_signed,
    placed,
};
use vstd::prelude::*;

verus! {

/// An instruction as the source gate that it is: `Sx` is a quarter turn about
/// X.
pub open spec fn instr_meaning(i: IbmInstr) -> Gate {
    match i {
        IbmInstr::Rz(q, t) => Gate::Rz(q, t),
        IbmInstr::Sx(q) => Gate::Rx(q, Binary64 { bits: HALF_PI_BITS }),
        IbmInstr::X(q) => Gate::X(q),
        IbmInstr::Cx(a, b) => Gate::Cx(a, b),
        IbmInstr::Measure(q, c) => Gate::Measure(q, c),
    }
}

pub open spec fn instr_meanings(v: Seq<IbmInstr>) -> Seq<Gate> {
    v.map_values(|i: IbmInstr| instr_meaning(i))
}

/// Whether an angle next to half a turn is read as half a turn, and half a
/// turn more as such.
pub open spec fn reads_halves(r: Reading, t: Binary64) -> bool {
    &&& half_turn(t) ==> (r.eighths)(t) % 8 == 4
    &&& reads_joined(r, t, Binary64 { bits: PI_BITS })
}

/// An angle that is brought near to zero turns as it did.
pub proof fn lemma_snapped(r: Reading, t: Binary64)
    requires
        r.faithful(),
        reads_centered(r),
    ensures
        (r.eighths)(snapped(t)) % 8 == (r.eighths)(t) % 8,
        snapped(t).is_zero_value() ==> (r.eighths)(t) % 8 == 0,
{
    assert((r.eighths)(centered(t)) % 8 == (r.eighths)(t) % 8);
    assert(no_turn(t) ==> (r.eighths)(t) % 8 == 0);
    if snapped(t).is_zero_value() {
        assert(!crate::angle::turns(snapped(t)));
    }
}

/// A quarter turn about X and one about Z behind it.
#[verifier::opaque]
spec fn bent(s: State, first: bool) -> State {
    rotated(s, s.flipped(first), 2).phased(first, 2)
}

proof fn lemma_bent_linear(first: bool)
    ensures
        linear(|s: State| bent(s, first)),
{
    reveal(bent);
    reveal_with_fuel(Amplitude::turned, 3);
}

proof fn lemma_bent_state(s: State, first: bool)
    ensures
        ({
            let p = s.phased(first, 2);
            let u = rotated(p, p.flipped(first), 2);
            let x = s.flipped(first);
            &&& bent(u, first) == x.plus(x).plus(x.plus(x)).eighth().eighth()
            &&& bent(u.signed(first), first) == s.plus(s).plus(s.plus(s)).eighth().eighth()
        }),
{
    reveal(bent);
    reveal_with_fuel(Amplitude::turned, 3);
}

proof fn lemma_four_quarter(s: State)
    ensures
        s.plus(s).plus(s.plus(s)).eighth().eighth() == s.scaled(4, 2),
{
    lemma_doubled(s);
    lemma_doubled(s.plus(s));
    lemma_scaled_twice(s, 2, 0, 2, 0);
    let f = s.roots(4);
    assert(f.turned(0) == f);
    reveal_with_fuel(Amplitude::turned, 3);
    assert(f.turned(2) == f.eighth().eighth());
}

/// With half a turn more, the two parts of a rotation change places.
proof fn lemma_parts_exchanged(s: State, x: State, k: nat, j: nat)
    requires
        j % 8 == (k + 4) % 8,
    ensures
        rotated(x, s, j) == rotated(s, x, k),
{
    let m = x.minus(s);
    let n = s.minus(x);
    lemma_state_same_turn(m, j, k + 4);
    lemma_state_turned_twice(m, k, 4);
    lemma_half_back(m.turned(k));
    lemma_state_turned(s.minus(s), m, k);
    lemma_state_turned(s, s, k);
    assert(n == s.minus(s).minus(m));
    assert(n.turned(k) == s.turned(k).minus(s.turned(k)).minus(m.turned(k)));
}

proof fn lemma_scaled_rotation(x: State, s: State, j: nat)
    ensures
        rotated(x.scaled(4, 2), s.scaled(4, 2), j) == rotated(x, s, j).scaled(4, 2),
{
    let big = |t: State| t.scaled(4, 2);
    lemma_scaling_linear();
    lemma_conjugated(big, x, s, j);
}

proof fn lemma_bent_factors(s: State, first: bool)
    ensures
        ({
            let p = s.phased(first, 2);
            let u = rotated(p, p.flipped(first), 2);
            &&& bent(u, first) == s.flipped(first).scaled(4, 2)
            &&& bent(u.signed(first), first) == s.scaled(4, 2)
        }),
{
    lemma_bent_state(s, first);
    lemma_four_quarter(s);
    lemma_four_quarter(s.flipped(first));
}

proof fn lemma_bent_rotation(u: State, first: bool, j: nat)
    ensures
        bent(rotated(u, u.signed(first), j), first) == rotated(
            bent(u, first),
            bent(u.signed(first), first),
            j,
        ),
{
    let f = |t: State| bent(t, first);
    lemma_bent_linear(first);
    lemma_conjugated(f, u, u.signed(first), j);
}

/// The rotation about X that comes out of the five instructions.
proof fn lemma_five_state(s: State, first: bool, k: nat, j: nat)
    requires
        j % 8 == (k + 4) % 8,
    ensures
        ({
            let p = s.phased(first, 2);
            let u = rotated(p, p.flipped(first), 2);
            bent(rotated(u, u.signed(first), j), first) == rotated(s, s.flipped(first), k).scaled(
                4,
                2,
            )
        }),
{
    let p = s.phased(first, 2);
    let u = rotated(p, p.flipped(first), 2);
    let x = s.flipped(first);
    lemma_bent_rotation(u, first, j);
    lemma_bent_factors(s, first);
    lemma_scaled_rotation(x, s, j);
    lemma_parts_exchanged(s, x, k, j);
}

proof fn lemma_half_back(s: State)
    ensures
        s.turned(4) == s.minus(s).minus(s),
{
    reveal_with_fuel(Amplitude::turned, 5);
}

proof fn lemma_scaling_linear()
    ensures
        linear(|t: State| t.scaled(4, 2)),
{
    let big = |t: State| t.scaled(4, 2);
    assert forall|x: State, y: State| #[trigger] big(x.plus(y)) == big(x).plus(big(y)) by {
        lemma_four_quarter(x);
        lemma_four_quarter(y);
        lemma_four_quarter(x.plus(y));
    }
    assert forall|x: State, y: State| #[trigger] big(x.minus(y)) == big(x).minus(big(y)) by {
        lemma_four_quarter(x);
        lemma_four_quarter(y);
        lemma_four_quarter(x.minus(y));
    }
    assert forall|x: State| #[trigger] big(x.eighth()) == big(x).eighth() by {
        lemma_four_quarter(x);
        lemma_four_quarter(x.eighth());
    }
}

proof fn lemma_sx_acts(r: Reading, q: usize, a: usize, b: usize, s: State)
    requires
        r.faithful(),
        a != b,
        q == a || q == b,
    ensures
        acted(r, Gate::Rx(q, Binary64 { bits: HALF_PI_BITS }), a, b, s) == rotated(
            s,
            s.flipped(q == a),
            2,
        ),
        acted(r, Gate::Rz(q, Binary64 { bits: HALF_PI_BITS }), a, b, s) == s.phased(
            q == a,
            2,
        ).scaled(2, 0),
{
    let k = (r.eighths)(Binary64 { bits: HALF_PI_BITS });
    lemma_state_same_turn(s.minus(s.flipped(q == a)), k, 2);
    lemma_phased_same(s, q == a, k, 2);
    lemma_rotated_signed(s, q == a, k);
}

/// The instructions of a rotation about X do what it does.
pub proof fn lemma_rot_action(r: Reading, q: usize, theta: Binary64, a: usize, b: usize)
    requires
        r.faithful(),
        reads_centered(r),
        reads_halves(r, snapped(theta)),
        a != b,
        q == a || q == b,
    ensures
        alike(r, instr_meanings(rot_instrs(q, theta)), seq![Gate::Rx(q, theta)], a, b),
{
    let t = snapped(theta);
    let quarter = Binary64 { bits: HALF_PI_BITS };
    let goal = seq![Gate::Rx(q, theta)];
    let all = instr_meanings(rot_instrs(q, theta));
    let k = (r.eighths)(theta);
    let first = q == a;
    lemma_snapped(r, theta);
    if t.is_zero_value() {
        assert(all =~= Seq::<Gate>::empty());
        lemma_nothing(r, Gate::Rx(q, theta), theta, a, b);
    } else if half_turn(t) {
        let one = seq![Gate::X(q)];
        assert(all =~= one);
        assert forall|s: State| #[trigger]
            performed(r, goal, a, b, s) == performed(r, one, a, b, s).scaled(2, 0) by {
            lemma_one(r, Gate::Rx(q, theta), a, b, s);
            lemma_one(r, Gate::X(q), a, b, s);
            let x = s.flipped(first);
            lemma_state_same_turn(s.minus(x), k, 4);
            lemma_half_back(s.minus(x));
            lemma_doubled(x);
            assert(rotated(s, x, k) == x.plus(x));
        }
        lemma_alike_from(r, goal, one, a, b, 2);
        lemma_alike_symmetric(r, goal, one, a, b);
    } else {
        let mid = snapped(sum(t, Binary64 { bits: PI_BITS }));
        lemma_snapped(r, sum(t, Binary64 { bits: PI_BITS }));
        let z = Gate::Rz(q, quarter);
        let sx = Gate::Rx(q, quarter);
        let zm = Gate::Rz(q, mid);
        let long = seq![z, sx, zm, sx, z];
        assert(all =~= long);
        let j = (r.eighths)(mid);
        assert(j % 8 == (k + 4) % 8);
        assert forall|s: State|
            (#[trigger] performed(r, long, a, b, s)).scaled(0, 0) == performed(
                r,
                goal,
                a,
                b,
                s,
            ).scaled(8, 2) by {
            lemma_five(r, z, sx, zm, sx, z, a, b, s);
            lemma_one(r, Gate::Rx(q, theta), a, b, s);
            let p = s.phased(first, 2);
            let u = rotated(p, p.flipped(first), 2);
            let v = rotated(u, u.signed(first), j);
            let w = rotated(v, v.flipped(first), 2);
            lemma_sx_acts(r, q, a, b, s);
            lemma_acted_scaled(r, sx, a, b, p, 2, 0);
            lemma_sx_acts(r, q, a, b, p);
            lemma_acted_scaled(r, zm, a, b, u, 2, 0);
            lemma_acted_scaled(r, sx, a, b, v, 2, 0);
            lemma_sx_acts(r, q, a, b, v);
            lemma_acted_scaled(r, z, a, b, w, 2, 0);
            lemma_sx_acts(r, q, a, b, w);
            let end = w.phased(first, 2);
            lemma_scaled_twice(end, 2, 0, 2, 0);
            assert(bent(v, first) == end) by {
                reveal(bent);
            }
            lemma_five_state(s, first, k, j);
            let g = rotated(s, s.flipped(first), k);
            lemma_scaled_twice(g, 4, 2, 4, 0);
            let done = g.scaled(8, 2);
            assert(performed(r, long, a, b, s) == done);
            assert(done.roots(0) == done && done.turned(0) == done);
        }
        assert(alike_by(r, long, goal, a, b, 0, 0, 8, 2));
    }
}

/// The instructions of a gate of an IBM circuit do what it does.
pub proof fn lemma_instrs_action(r: Reading, g: BackendGate, a: usize, b: usize)
    requires
        r.faithful(),
        reads_centered(r),
        g matches BackendGate::Rot(_, t) ==> reads_halves(r, snapped(t)),
        a != b,
        placed(meaning(RotAxis::Rx, g), a, b),
        !foreign(g),
    ensures
        alike(r, instr_meanings(gate_instrs(g)), seq![meaning(RotAxis::Rx, g)], a, b),
{
    match g {
        BackendGate::Rot(q, t) => lemma_rot_action(r, q, t, a, b),
        BackendGate::Rz(q, t) => {
            lemma_snapped(r, t);
            if snapped(t).is_zero_value() {
                assert(instr_meanings(gate_instrs(g)) =~= Seq::<Gate>::empty());
                lemma_nothing(r, Gate::Rz(q, t), t, a, b);
            } else {
                assert(instr_meanings(gate_instrs(g)) =~= seq![Gate::Rz(q, snapped(t))]);
                lemma_same_turn_action(r, Gate::Rz(q, snapped(t)), Gate::Rz(q, t), a, b);
            }
        },
        _ => {
            assert(instr_meanings(gate_instrs(g)) =~= seq![meaning(RotAxis::Rx, g)]);
            lemma_alike_self(r, seq![meaning(RotAxis::Rx, g)], a, b);
        },
    }
}

/// A measurement stays what it is.
pub proof fn lemma_instrs_measurement(q: usize, c: usize)
    ensures
        instr_meanings(gate_instrs(BackendGate::Measure(q, c))) == seq![Gate::Measure(q, c)],
{
    assert(instr_meanings(gate_instrs(BackendGate::Measure(q, c))) =~= seq![Gate::Measure(q, c)]);
}

/// A frame change that is merged into the one before does what both do.
pub proof fn lemma_merge_action(
    r: Reading,
    front: Seq<IbmInstr>,
    q: usize,
    s: Binary64,
    t: Binary64,
    a: usize,
    b: usize,
)
    requires
        r.faithful(),
        reads_centered(r),
        reads_joined(r, s, t),
        a != b,
        q == a || q == b,
    ensures
        alike(
            r,
            instr_meanings(front.push(IbmInstr::Rz(q, s)).push(IbmInstr::Rz(q, t))),
            instr_meanings(merge_next(front.push(IbmInstr::Rz(q, s)), IbmInstr::Rz(q, t))),
            a,
            b,
        ),
{
    let x = IbmInstr::Rz(q, s);
    let y = IbmInstr::Rz(q, t);
    let both = snapped(sum(s, t));
    let two = seq![Gate::Rz(q, s), Gate::Rz(q, t)];
    let one = seq![Gate::Rz(q, both)];
    let start = instr_meanings(front);
    lemma_snapped(r, sum(s, t));
    lemma_rotations_merge(r, Gate::Rz(q, s), Gate::Rz(q, t), Gate::Rz(q, both), a, b);
    lemma_alike_self(r, start, a, b);
    assert(instr_meanings(front.push(x).push(y)) =~= start + two);
    assert(front.push(x).drop_last() =~= front);
    assert(front.push(x).last() == x);
    if both.is_zero_value() {
        assert(!crate::angle::turns(both));
        lemma_nothing(r, Gate::Rz(q, both), both, a, b);
        lemma_alike_symmetric(r, Seq::empty(), one, a, b);
        lemma_alike_transitive(r, two, one, Seq::empty(), a, b);
        lemma_alike_joined(r, start, start, two, Seq::empty(), a, b);
        assert(instr_meanings(front) =~= start + Seq::<Gate>::empty());
    } else {
        lemma_alike_joined(r, start, start, two, one, a, b);
        assert(instr_meanings(front.push(IbmInstr::Rz(q, both))) =~= start + one);
    }
}

/// Instructions other than two frame changes of one qubit are left as they
/// are.
pub proof fn lemma_merge_keeps(out: Seq<IbmInstr>, i: IbmInstr)
    requires
        out.len() > 0 ==> !(out.last() is Rz && i is Rz && out.last()->Rz_0 == i->Rz_0),
    ensures
        merge_next(out, i) == out.push(i),
{
}

} // verus!
