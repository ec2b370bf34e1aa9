//! Resynthesis of runs of single-qubit gates.
//!
//! Everything between two gates that join or measure a qubit is one
//! single-qubit operation, and is written again as at most three rotations.
use crate::angle::{
    does_turn, synthesizes, total, turns, Euler, EulerOf, Turn, HALF_PI_BITS,
};
use crate::backend::peephole::{centered, is_identity_angle, no_turn, wrap_angle};
use crate::backend::{BackendCircuit, BackendGate, BackendSpec, RotAxis};
use crate::binary64::{difference, sum, Binary64};
use vstd::prelude::*;

verus! {

/// A rotation of one qubit as an operation.
pub open spec fn as_turn(axis: RotAxis, g: BackendGate) -> Option<(usize, Turn)> {
    match g {
        BackendGate::Rz(q, t) => Some((q, Turn::Rz(t))),
        BackendGate::Rot(q, t) => Some(
            (
                q,
                if axis == RotAxis::Ry {
                    Turn::Ry(t)
                } else {
                    Turn::Rx(t)
                },
            ),
        ),
        _ => None,
    }
}

pub open spec fn if_z(q: usize, a: Binary64) -> Seq<BackendGate> {
    if no_turn(a) {
        Seq::empty()
    } else {
        seq![BackendGate::Rz(q, centered(a))]
    }
}

pub open spec fn if_rot(q: usize, a: Binary64) -> Seq<BackendGate> {
    if turns(a) {
        seq![BackendGate::Rot(q, a)]
    } else {
        Seq::empty()
    }
}

/// Euler angles about Z and Y as gates. A rotation about Y is one about X
/// between quarter turns about Z.
pub open spec fn euler_gates(axis: RotAxis, q: usize, x: Euler) -> Seq<BackendGate> {
    let quarter = Binary64 { bits: HALF_PI_BITS };
    if axis == RotAxis::Ry {
        if_z(q, x.delta) + if_rot(q, x.gamma) + if_z(q, x.beta)
    } else {
        if_z(q, difference(x.delta, quarter)) + if_rot(q, x.gamma) + if_z(q, sum(x.beta, quarter))
    }
}

/// Runs under way, and the gates so far.
pub struct Runs {
    pub open: Seq<(usize, Seq<Turn>)>,
    pub out: Seq<BackendGate>,
}

pub open spec fn run_of(s: Seq<(usize, Seq<Turn>)>, q: usize, i: int) -> int
    decreases s.len() - i,
{
    if 0 <= i < s.len() && s[i].0 != q {
        run_of(s, q, i + 1)
    } else {
        i
    }
}

/// Writes out the run of a qubit.
pub open spec fn closed_run(r: Runs, q: usize, axis: RotAxis, e: EulerOf) -> Runs {
    let i = run_of(r.open, q, 0);
    if i < r.open.len() {
        Runs {
            open: r.open.remove(i),
            out: r.out + euler_gates(axis, q, e(r.open[i].1)),
        }
    } else {
        r
    }
}

/// Writes out the runs of the first `n` qubits of a list.
pub open spec fn closed_runs(r: Runs, wires: Seq<usize>, n: nat, axis: RotAxis, e: EulerOf) -> Runs
    decreases n,
{
    if n == 0 {
        r
    } else {
        closed_run(closed_runs(r, wires, (n - 1) as nat, axis, e), wires[n - 1], axis, e)
    }
}

pub open spec fn run_gate(r: Runs, g: BackendGate, axis: RotAxis, e: EulerOf) -> Runs {
    match as_turn(axis, g) {
        Some((q, t)) => {
            let i = run_of(r.open, q, 0);
            if i < r.open.len() {
                Runs { open: r.open.update(i, (q, r.open[i].1.push(t))), ..r }
            } else {
                Runs { open: r.open.push((q, seq![t])), ..r }
            }
        },
        None => {
            let c = closed_runs(r, g.wires(), g.wires().len(), axis, e);
            Runs { out: c.out.push(g), ..c }
        },
    }
}

pub open spec fn run_gates(gates: Seq<BackendGate>, n: nat, axis: RotAxis, e: EulerOf) -> Runs
    decreases n,
{
    if n == 0 {
        Runs { open: Seq::empty(), out: Seq::empty() }
    } else {
        run_gate(run_gates(gates, (n - 1) as nat, axis, e), gates[n - 1], axis, e)
    }
}

/// Writes out every run that is left.
pub open spec fn finished(r: Runs, axis: RotAxis, e: EulerOf) -> Seq<BackendGate>
    decreases r.open.len(),
{
    if r.open.len() == 0 {
        r.out
    } else {
        finished(closed_run(r, r.open[0].0, axis, e), axis, e)
    }
}

pub open spec fn resynthesized(gates: Seq<BackendGate>, axis: RotAxis, e: EulerOf) -> Seq<BackendGate> {
    finished(run_gates(gates, gates.len(), axis, e), axis, e)
}

/// A run is written as at most three gates.
pub proof fn lemma_euler_gates_len(axis: RotAxis, q: usize, x: Euler)
    ensures
        euler_gates(axis, q, x).len() <= 3,
{
}

pub open spec fn runs_of(v: Seq<(usize, Vec<Turn>)>) -> Seq<(usize, Seq<Turn>)> {
    v.map_values(|x: (usize, Vec<Turn>)| (x.0, x.1@))
}

fn find_run(s: &Vec<(usize, Vec<Turn>)>, q: usize) -> (r: usize)
    ensures
        r == run_of(runs_of(s@), q, 0),
        r <= s.len(),
        r < s.len() ==> s@[r as int].0 == q,
{
    let mut i: usize = 0;
    while i < s.len() && s[i].0 != q
        invariant
            0 <= i <= s.len(),
            run_of(runs_of(s@), q, 0) == run_of(runs_of(s@), q, i as int),
        decreases s.len() - i,
    {
        assert(runs_of(s@)[i as int] == (s@[i as int].0, s@[i as int].1@));
        i = i + 1;
    }
    if i < s.len() {
        assert(runs_of(s@)[i as int] == (s@[i as int].0, s@[i as int].1@));
    }
    i
}

fn push_z(out: &mut Vec<BackendGate>, q: usize, a: Binary64)
    ensures
        final(out)@ == old(out)@ + if_z(q, a),
{
    let ghost before = out@;
    if !is_identity_angle(a) {
        out.push(BackendGate::Rz(q, wrap_angle(a)));
    }
    assert(out@ =~= before + if_z(q, a));
}

fn push_rot(out: &mut Vec<BackendGate>, q: usize, a: Binary64)
    ensures
        final(out)@ == old(out)@ + if_rot(q, a),
{
    let ghost before = out@;
    if does_turn(a) {
        out.push(BackendGate::Rot(q, a));
    }
    assert(out@ =~= before + if_rot(q, a));
}

/// Appends the gates of Euler angles.
pub fn emit_euler(out: &mut Vec<BackendGate>, axis: RotAxis, q: usize, x: Euler)
    ensures
        final(out)@ == old(out)@ + euler_gates(axis, q, x),
{
    let ghost before = out@;
    let quarter = Binary64 { bits: HALF_PI_BITS };
    if axis == RotAxis::Ry {
        push_z(out, q, x.delta);
        push_rot(out, q, x.gamma);
        push_z(out, q, x.beta);
    } else {
        push_z(out, q, x.delta.minus(quarter));
        push_rot(out, q, x.gamma);
        push_z(out, q, x.beta.plus(quarter));
    }
    assert(out@ =~= before + euler_gates(axis, q, x));
}

fn close_run<F: Fn(&Vec<Turn>) -> Euler>(
    open: &mut Vec<(usize, Vec<Turn>)>,
    out: &mut Vec<BackendGate>,
    q: usize,
    axis: RotAxis,
    euler: &F,
)
    requires
        total(*euler),
    ensures
        forall|e: EulerOf| #[trigger]
            synthesizes(*euler, e) ==> (Runs { open: runs_of(final(open)@), out: final(out)@ })
                == closed_run(Runs { open: runs_of(old(open)@), out: old(out)@ }, q, axis, e),
        final(open).len() <= old(open).len(),
        run_of(runs_of(old(open)@), q, 0) < old(open).len() ==> final(open).len() < old(open).len(),
{
    let i = find_run(open, q);
    if i < open.len() {
        let ghost before = open@;
        let (_q, run) = open.remove(i);
        assert(runs_of(open@) =~= runs_of(before).remove(i as int));
        assert(runs_of(before)[i as int] == (before[i as int].0, before[i as int].1@));
        let x = euler(&run);
        emit_euler(out, axis, q, x);
    }
}

/// Resynthesizes the runs of a gate list. `euler` gives the Euler angles of
/// a series of single-qubit operations.
pub fn resynthesize_gates<F: Fn(&Vec<Turn>) -> Euler>(
    gates: &Vec<BackendGate>,
    axis: RotAxis,
    euler: &F,
) -> (r: Vec<BackendGate>)
    requires
        total(*euler),
    ensures
        forall|e: EulerOf| #[trigger] synthesizes(*euler, e) ==> r@ == resynthesized(gates@, axis, e),
{
    let mut open: Vec<(usize, Vec<Turn>)> = Vec::new();
    let mut out: Vec<BackendGate> = Vec::new();
    let mut i: usize = 0;
    assert(runs_of(open@) =~= Seq::empty());
    while i < gates.len()
        invariant
            total(*euler),
            0 <= i <= gates.len(),
            forall|e: EulerOf| #[trigger]
                synthesizes(*euler, e) ==> (Runs { open: runs_of(open@), out: out@ }) == run_gates(
                    gates@,
                    i as nat,
                    axis,
                    e,
                ),
        decreases gates.len() - i,
    {
        let g = &gates[i];
        let turn = match g {
            BackendGate::Rz(q, t) => Some((*q, Turn::Rz(*t))),
            BackendGate::Rot(q, t) => Some(
                (
                    *q,
                    if axis == RotAxis::Ry {
                        Turn::Ry(*t)
                    } else {
                        Turn::Rx(*t)
                    },
                ),
            ),
            _ => None,
        };
        match turn {
            Some((q, t)) => {
                let k = find_run(&open, q);
                let ghost before = open@;
                if k < open.len() {
                    let (_q, mut run) = open.remove(k);
                    let ghost old_run = run@;
                    run.push(t);
                    open.insert(k, (q, run));
                    proof {
                        assert(runs_of(before)[k as int] == (q, old_run));
                        assert(runs_of(open@) =~= runs_of(before).update(
                            k as int,
                            (q, old_run.push(t)),
                        ));
                    }
                } else {
                    let mut run: Vec<Turn> = Vec::new();
                    run.push(t);
                    open.push((q, run));
                    assert(run@ =~= seq![t]);
                    assert(runs_of(open@) =~= runs_of(before).push((q, seq![t])));
                }
            },
            None => {
                let wires = g.qubits();
                let ghost open0 = open@;
                let ghost out0 = out@;
                let mut k: usize = 0;
                while k < wires.len()
                    invariant
                        total(*euler),
                        wires@ == g.wires(),
                        0 <= k <= wires.len(),
                        forall|e: EulerOf| #[trigger]
                            synthesizes(*euler, e) ==> (Runs { open: runs_of(open@), out: out@ })
                                == closed_runs(
                                Runs { open: runs_of(open0), out: out0 },
                                wires@,
                                k as nat,
                                axis,
                                e,
                            ),
                    decreases wires.len() - k,
                {
                    close_run(&mut open, &mut out, wires[k], axis, euler);
                    k = k + 1;
                }
                out.push(g.copy());
            },
        }
        i = i + 1;
    }
    while open.len() > 0
        invariant
            total(*euler),
            forall|e: EulerOf| #[trigger]
                synthesizes(*euler, e) ==> finished(
                    Runs { open: runs_of(open@), out: out@ },
                    axis,
                    e,
                ) == resynthesized(gates@, axis, e),
        decreases open.len(),
    {
        let q = open[0].0;
        assert(runs_of(open@)[0].0 == q);
        close_run(&mut open, &mut out, q, axis, euler);
    }
    assert(runs_of(open@) =~= Seq::empty());
    out
}

/// Resynthesizes a circuit in place.
pub fn resynthesize<F: Fn(&Vec<Turn>) -> Euler>(bc: &mut BackendCircuit, euler: &F)
    requires
        total(*euler),
    ensures
        final(bc).backend == old(bc).backend,
        final(bc).num_qubits == old(bc).num_qubits,
        final(bc).num_clbits == old(bc).num_clbits,
        forall|e: EulerOf| #[trigger]
            synthesizes(*euler, e) ==> final(bc).gates@ == resynthesized(
                old(bc).gates@,
                old(bc).backend.axis(),
                e,
            ),
{
    let gates = resynthesize_gates(&bc.gates, bc.backend.rot_axis(), euler);
    bc.gates = gates;
}

} // verus!
