//! Resynthesis of runs is rewriting by local rules.
use super::peephole_law::{apart, classical};
use super::resynthesis::{
    as_turn, closed_run, closed_runs, euler_gates, finished, resynthesized, run_gate, run_gates,
    run_of, Runs,
};
use super::{BackendGate, RotAxis};
use crate::angle::{EulerOf, Turn};
use crate::rewrite::{
    keeps, lemma_reaches_keeps, lemma_reaches_once, lemma_reaches_self, lemma_reaches_swapped,
    lemma_reaches_transitive, lemma_reaches_within, reaches, Rule,
};
use vstd::prelude::*;

verus! {

/// Whether gates are the rotations of one qubit that a list says.
pub open spec fn is_run(gates: Seq<BackendGate>, axis: RotAxis, q: usize, turns: Seq<Turn>) -> bool {
    &&& gates.len() == turns.len()
    &&& gates.len() > 0
    &&& forall|i: int|
        0 <= i < gates.len() ==> as_turn(axis, #[trigger] gates[i]) == Some((q, turns[i]))
}

/// Whether gates on different qubits change places, not both classical.
pub open spec fn exchanged(l: Seq<BackendGate>, r: Seq<BackendGate>) -> bool {
    l.len() == 2 && r == seq![l[1], l[0]] && apart(l[0], l[1]) && !(classical(l[0]) && classical(l[1]))
}

/// Whether a run on one qubit becomes rotations by its Euler angles.
pub open spec fn rewritten(l: Seq<BackendGate>, r: Seq<BackendGate>, axis: RotAxis, e: EulerOf) -> bool {
    exists|q: usize, turns: Seq<Turn>| #[trigger]
        is_run(l, axis, q, turns) && r == euler_gates(axis, q, e(turns))
}

/// What resynthesis may do.
pub open spec fn resynthesis_rule(axis: RotAxis, e: EulerOf) -> Rule<BackendGate> {
    |l: Seq<BackendGate>, r: Seq<BackendGate>| exchanged(l, r) || rewritten(l, r, axis, e)
}

/// The rotation that a turn of a qubit stands for.
spec fn gate_of(q: usize, t: Turn) -> BackendGate {
    match t {
        Turn::Rz(a) => BackendGate::Rz(q, a),
        Turn::Ry(a) | Turn::Rx(a) => BackendGate::Rot(q, a),
        _ => BackendGate::Measure(q, 0),
    }
}

/// The gates of a run.
spec fn turned(q: usize, turns: Seq<Turn>) -> Seq<BackendGate> {
    turns.map_values(|t: Turn| gate_of(q, t))
}

/// The gates of the first `n` runs.
spec fn open_gates(open: Seq<(usize, Seq<Turn>)>, n: nat) -> Seq<BackendGate>
    decreases n,
{
    if n == 0 {
        Seq::empty()
    } else {
        open_gates(open, (n - 1) as nat) + turned(open[n - 1].0, open[n - 1].1)
    }
}

/// The gates that a state stands for.
spec fn meaning(r: Runs) -> Seq<BackendGate> {
    r.out + open_gates(r.open, r.open.len())
}

/// A run holds turns about the axes of its backend.
spec fn run_ok(axis: RotAxis, x: (usize, Seq<Turn>)) -> bool {
    &&& x.1.len() > 0
    &&& forall|k: int|
        0 <= k < x.1.len() ==> as_turn(axis, gate_of(x.0, #[trigger] x.1[k])) == Some((x.0, x.1[k]))
}

spec fn sound(r: Runs, axis: RotAxis) -> bool {
    &&& forall|i: int| 0 <= i < r.open.len() ==> run_ok(axis, #[trigger] r.open[i])
    &&& forall|i: int, j: int|
        0 <= i < j < r.open.len() ==> (#[trigger] r.open[i]).0 != (#[trigger] r.open[j]).0
}

proof fn lemma_run_of(s: Seq<(usize, Seq<Turn>)>, q: usize, i: int)
    requires
        0 <= i <= s.len(),
    ensures
        i <= run_of(s, q, i) <= s.len(),
        run_of(s, q, i) < s.len() ==> s[run_of(s, q, i)].0 == q,
        forall|k: int| i <= k < run_of(s, q, i) ==> (#[trigger] s[k]).0 != q,
    decreases s.len() - i,
{
    if i < s.len() && s[i].0 != q {
        lemma_run_of(s, q, i + 1);
    }
}

/// Runs from `k` on come behind those before.
proof fn lemma_open_split(open: Seq<(usize, Seq<Turn>)>, k: nat, n: nat)
    requires
        k <= n <= open.len(),
    ensures
        open_gates(open, n) == open_gates(open, k) + open_gates(open.skip(k as int), (n - k) as nat),
    decreases n - k,
{
    let tail = open.skip(k as int);
    if k < n {
        lemma_open_split(open, k, (n - 1) as nat);
        assert(tail[n - 1 - k] == open[n - 1]);
        assert(open_gates(open, n) =~= open_gates(open, k) + open_gates(tail, (n - k) as nat));
    } else {
        assert(open_gates(open, n) =~= open_gates(open, k) + open_gates(tail, 0));
    }
}

proof fn lemma_open_same(a: Seq<(usize, Seq<Turn>)>, b: Seq<(usize, Seq<Turn>)>, n: nat)
    requires
        n <= a.len(),
        n <= b.len(),
        forall|i: int| 0 <= i < n ==> a[i] == b[i],
    ensures
        open_gates(a, n) == open_gates(b, n),
    decreases n,
{
    if n > 0 {
        lemma_open_same(a, b, (n - 1) as nat);
    }
}

/// Gates of runs are rotations of their qubits.
proof fn lemma_open_on(open: Seq<(usize, Seq<Turn>)>, n: nat, k: int)
    requires
        n <= open.len(),
        0 <= k < open_gates(open, n).len(),
    ensures
        exists|i: int|
            0 <= i < n && open_gates(open, n)[k].wires() == seq![(#[trigger] open[i]).0],
    decreases n,
{
    let front = open_gates(open, (n - 1) as nat);
    if k < front.len() {
        lemma_open_on(open, (n - 1) as nat, k);
        let i = choose|i: int| 0 <= i < n - 1 && front[k].wires() == seq![(#[trigger] open[i]).0];
        assert(open_gates(open, n)[k] == front[k]);
        assert(open_gates(open, n)[k].wires() == seq![open[i].0]);
    } else {
        let x = open[n - 1];
        let t = x.1[k - front.len()];
        assert(open_gates(open, n)[k] == gate_of(x.0, t));
        assert(gate_of(x.0, t).wires() == seq![x.0]);
        assert(open[n - 1].0 == x.0);
    }
}

/// Rotations of other qubits change places with gates on a qubit.
proof fn lemma_past(
    open: Seq<(usize, Seq<Turn>)>,
    c: Seq<BackendGate>,
    axis: RotAxis,
    e: EulerOf,
)
    requires
        forall|k: int, i: int|
            0 <= k < c.len() && 0 <= i < open.len() ==> !(#[trigger] c[k]).wires().contains(
                (#[trigger] open[i]).0,
            ),
        forall|i: int| 0 <= i < open.len() ==> run_ok(axis, #[trigger] open[i]),
    ensures
        reaches(
            resynthesis_rule(axis, e),
            open_gates(open, open.len()) + c,
            c + open_gates(open, open.len()),
        ),
{
    let rule = resynthesis_rule(axis, e);
    let b = open_gates(open, open.len());
    assert forall|i: int, k: int| 0 <= i < b.len() && 0 <= k < c.len() implies rule(
        seq![#[trigger] b[i], #[trigger] c[k]],
        seq![c[k], b[i]],
    ) by {
        lemma_open_on(open, open.len(), i);
        let j = choose|j: int| 0 <= j < open.len() && b[i].wires() == seq![(#[trigger] open[j]).0];
        assert(!c[k].wires().contains(open[j].0));
        let l = seq![b[i], c[k]];
        assert(apart(l[0], l[1]));
        lemma_open_plain(open, open.len(), i, axis);
        assert(seq![c[k], b[i]] =~= seq![l[1], l[0]]);
        assert(exchanged(l, seq![c[k], b[i]]));
    }
    lemma_reaches_swapped(rule, b, c);
}

proof fn lemma_open_plain(open: Seq<(usize, Seq<Turn>)>, n: nat, k: int, axis: RotAxis)
    requires
        n <= open.len(),
        0 <= k < open_gates(open, n).len(),
        forall|i: int| 0 <= i < open.len() ==> run_ok(axis, #[trigger] open[i]),
    ensures
        !classical(open_gates(open, n)[k]),
    decreases n,
{
    let front = open_gates(open, (n - 1) as nat);
    if k < front.len() {
        lemma_open_plain(open, (n - 1) as nat, k, axis);
    } else {
        let x = open[n - 1];
        assert(run_ok(axis, x));
        let t = x.1[k - front.len()];
        assert(open_gates(open, n)[k] == gate_of(x.0, t));
    }
}

proof fn lemma_then(
    axis: RotAxis,
    e: EulerOf,
    a: Seq<BackendGate>,
    b: Seq<BackendGate>,
    c: Seq<BackendGate>,
)
    requires
        reaches(resynthesis_rule(axis, e), a, b),
        reaches(resynthesis_rule(axis, e), b, c),
    ensures
        reaches(resynthesis_rule(axis, e), a, c),
{
    lemma_reaches_transitive(resynthesis_rule(axis, e), a, b, c);
}

/// The open runs before, at and behind a place.
proof fn lemma_open_at(open: Seq<(usize, Seq<Turn>)>, i: int)
    requires
        0 <= i < open.len(),
    ensures
        open_gates(open, open.len()) == open_gates(open.take(i), i as nat) + turned(
            open[i].0,
            open[i].1,
        ) + open_gates(open.skip(i + 1), (open.len() - i - 1) as nat),
        open_gates(open.remove(i), (open.len() - 1) as nat) == open_gates(open.take(i), i as nat)
            + open_gates(open.skip(i + 1), (open.len() - i - 1) as nat),
{
    let n = open.len();
    lemma_open_split(open, (i + 1) as nat, n);
    lemma_open_same(open, open.take(i), i as nat);
    let rest = open.remove(i);
    lemma_open_split(rest, i as nat, (n - 1) as nat);
    lemma_open_same(rest, open.take(i), i as nat);
    assert(rest.skip(i) =~= open.skip(i + 1));
}

/// Writing out the run of a qubit.
proof fn lemma_closed_run(r: Runs, q: usize, axis: RotAxis, e: EulerOf)
    requires
        sound(r, axis),
    ensures
        sound(closed_run(r, q, axis, e), axis),
        reaches(resynthesis_rule(axis, e), meaning(r), meaning(closed_run(r, q, axis, e))),
        forall|i: int|
            0 <= i < closed_run(r, q, axis, e).open.len() ==> (#[trigger] closed_run(
                r,
                q,
                axis,
                e,
            ).open[i]).0 != q,
        forall|i: int|
            0 <= i < closed_run(r, q, axis, e).open.len() ==> r.open.contains(
                #[trigger] closed_run(r, q, axis, e).open[i],
            ),
{
    let rule = resynthesis_rule(axis, e);
    let i = run_of(r.open, q, 0);
    let n = closed_run(r, q, axis, e);
    let none = Seq::<BackendGate>::empty();
    lemma_run_of(r.open, q, 0);
    if i < r.open.len() {
        let turns = r.open[i].1;
        let c = turned(q, turns);
        let head = r.open.take(i);
        let b = open_gates(head, i as nat);
        let t = open_gates(r.open.skip(i + 1), (r.open.len() - i - 1) as nat);
        let w = euler_gates(axis, q, e(turns));
        lemma_open_at(r.open, i);
        assert(run_ok(axis, r.open[i]));
        assert forall|k: int, j: int| 0 <= k < c.len() && 0 <= j < head.len() implies !(
        #[trigger] c[k]).wires().contains((#[trigger] head[j]).0) by {
            assert(c[k] == gate_of(q, turns[k]));
            assert(c[k].wires() == seq![q]);
            assert(head[j] == r.open[j]);
        }
        assert forall|j: int| 0 <= j < head.len() implies run_ok(axis, #[trigger] head[j]) by {
            assert(head[j] == r.open[j]);
        }
        lemma_past(head, c, axis, e);
        lemma_reaches_within(rule, r.out, b + c, c + b, t);
        assert(meaning(r) =~= r.out + (b + c) + t);
        let mid = r.out + (c + b) + t;
        assert(mid =~= r.out + c + (b + t));
        assert(is_run(c, axis, q, turns)) by {
            assert forall|k: int| 0 <= k < c.len() implies as_turn(axis, #[trigger] c[k]) == Some(
                (q, turns[k]),
            ) by {
                assert(c[k] == gate_of(q, turns[k]));
            }
        }
        assert(rewritten(c, w, axis, e));
        assert(rule(c, w));
        lemma_reaches_once(rule, r.out, c, w, b + t);
        assert(r.out + w + (b + t) =~= meaning(n));
        lemma_then(axis, e, meaning(r), mid, meaning(n));
        assert forall|j: int| 0 <= j < n.open.len() implies (#[trigger] n.open[j]).0 != q
            && r.open.contains(n.open[j]) && run_ok(axis, n.open[j]) by {
            let m = if j < i {
                j
            } else {
                j + 1
            };
            assert(n.open[j] == r.open[m]);
            if m < i {
                assert(r.open[m].0 != r.open[i].0);
            } else {
                assert(r.open[i].0 != r.open[m].0);
            }
        }
        assert forall|x: int, y: int| 0 <= x < y < n.open.len() implies (#[trigger] n.open[x]).0 != (
        #[trigger] n.open[y]).0 by {
            let u = if x < i {
                x
            } else {
                x + 1
            };
            let v = if y < i {
                y
            } else {
                y + 1
            };
            assert(n.open[x] == r.open[u] && n.open[y] == r.open[v]);
        }
    } else {
        lemma_reaches_self(rule, meaning(r));
    }
}

/// No run is open on a qubit.
spec fn quiet(r: Runs, q: usize) -> bool {
    forall|i: int| 0 <= i < r.open.len() ==> (#[trigger] r.open[i]).0 != q
}

proof fn lemma_closed_runs(r: Runs, wires: Seq<usize>, n: nat, axis: RotAxis, e: EulerOf)
    requires
        sound(r, axis),
        n <= wires.len(),
    ensures
        sound(closed_runs(r, wires, n, axis, e), axis),
        reaches(resynthesis_rule(axis, e), meaning(r), meaning(closed_runs(r, wires, n, axis, e))),
        forall|k: int|
            0 <= k < n ==> quiet(closed_runs(r, wires, n, axis, e), #[trigger] wires[k]),
    decreases n,
{
    if n == 0 {
        lemma_reaches_self(resynthesis_rule(axis, e), meaning(r));
    } else {
        lemma_closed_runs(r, wires, (n - 1) as nat, axis, e);
        let a = closed_runs(r, wires, (n - 1) as nat, axis, e);
        let b = closed_runs(r, wires, n, axis, e);
        lemma_closed_run(a, wires[n - 1], axis, e);
        lemma_then(axis, e, meaning(r), meaning(a), meaning(b));
        assert forall|k: int| 0 <= k < n implies quiet(b, #[trigger] wires[k]) by {
            if k < n - 1 {
                assert(quiet(a, wires[k]));
                assert forall|i: int| 0 <= i < b.open.len() implies (#[trigger] b.open[i]).0
                    != wires[k] by {
                    assert(a.open.contains(b.open[i]));
                    let j = choose|j: int| 0 <= j < a.open.len() && a.open[j] == b.open[i];
                    assert(a.open[j].0 != wires[k]);
                }
            }
        }
    }
}

/// A gate that ends runs.
proof fn lemma_other_gate(r: Runs, g: BackendGate, axis: RotAxis, e: EulerOf)
    requires
        sound(r, axis),
        as_turn(axis, g) is None,
    ensures
        sound(run_gate(r, g, axis, e), axis),
        reaches(
            resynthesis_rule(axis, e),
            meaning(r).push(g),
            meaning(run_gate(r, g, axis, e)),
        ),
{
    let rule = resynthesis_rule(axis, e);
    let none = Seq::<BackendGate>::empty();
    let w = g.wires();
    let c = closed_runs(r, w, w.len(), axis, e);
    let n = run_gate(r, g, axis, e);
    lemma_closed_runs(r, w, w.len(), axis, e);
    lemma_reaches_within(rule, none, meaning(r), meaning(c), seq![g]);
    assert(none + meaning(r) + seq![g] =~= meaning(r).push(g));
    let mid = none + meaning(c) + seq![g];
    let one = seq![g];
    assert forall|k: int, i: int| 0 <= k < one.len() && 0 <= i < c.open.len() implies !(
    #[trigger] one[k]).wires().contains((#[trigger] c.open[i]).0) by {
        if w.contains(c.open[i].0) {
            let j = choose|j: int| 0 <= j < w.len() && w[j] == c.open[i].0;
            assert(quiet(c, w[j]));
        }
    }
    lemma_past(c.open, one, axis, e);
    let o = open_gates(c.open, c.open.len());
    lemma_reaches_within(rule, c.out, o + one, one + o, none);
    assert(mid =~= c.out + (o + one) + none);
    assert(c.out + (one + o) + none =~= meaning(n));
    lemma_then(axis, e, meaning(r).push(g), mid, meaning(n));
}

/// A rotation joins the run of its qubit.
proof fn lemma_turn(r: Runs, g: BackendGate, axis: RotAxis, e: EulerOf)
    requires
        sound(r, axis),
        as_turn(axis, g) is Some,
    ensures
        sound(run_gate(r, g, axis, e), axis),
        reaches(
            resynthesis_rule(axis, e),
            meaning(r).push(g),
            meaning(run_gate(r, g, axis, e)),
        ),
{
    let rule = resynthesis_rule(axis, e);
    let (q, t) = as_turn(axis, g)->0;
    let i = run_of(r.open, q, 0);
    let n = run_gate(r, g, axis, e);
    let none = Seq::<BackendGate>::empty();
    lemma_run_of(r.open, q, 0);
    assert(gate_of(q, t) == g);
    if i < r.open.len() {
        let turns = r.open[i].1;
        let tail = r.open.skip(i + 1);
        let o = open_gates(tail, (r.open.len() - i - 1) as nat);
        let b = open_gates(r.open.take(i), i as nat);
        let c = turned(q, turns);
        lemma_open_at(r.open, i);
        lemma_open_at(n.open, i);
        assert(n.open.take(i) =~= r.open.take(i));
        assert(n.open.skip(i + 1) =~= tail);
        assert(turned(q, turns.push(t)) =~= c.push(g));
        let one = seq![g];
        assert forall|k: int, j: int| 0 <= k < one.len() && 0 <= j < tail.len() implies !(
        #[trigger] one[k]).wires().contains((#[trigger] tail[j]).0) by {
            assert(tail[j] == r.open[i + 1 + j]);
            assert(r.open[i].0 != r.open[i + 1 + j].0);
            assert(g.wires() == seq![q]);
        }
        assert forall|j: int| 0 <= j < tail.len() implies run_ok(axis, #[trigger] tail[j]) by {
            assert(tail[j] == r.open[i + 1 + j]);
        }
        lemma_past(tail, one, axis, e);
        let left = r.out + b + c;
        lemma_reaches_within(rule, left, o + one, one + o, none);
        assert(meaning(r).push(g) =~= left + (o + one) + none);
        assert(meaning(n) =~= left + (one + o) + none);
        assert forall|x: int| 0 <= x < n.open.len() implies run_ok(axis, #[trigger] n.open[x]) by {
            assert(run_ok(axis, r.open[x]));
            if x == i {
                assert forall|k: int| 0 <= k < n.open[x].1.len() implies as_turn(
                    axis,
                    gate_of(q, #[trigger] n.open[x].1[k]),
                ) == Some((q, n.open[x].1[k])) by {
                    if k < turns.len() {
                        assert(n.open[x].1[k] == turns[k]);
                    }
                }
            }
        }
        assert forall|x: int, y: int| 0 <= x < y < n.open.len() implies (#[trigger] n.open[x]).0 != (
        #[trigger] n.open[y]).0 by {
            assert(r.open[x].0 != r.open[y].0);
        }
    } else {
        assert(open_gates(n.open, r.open.len()) == open_gates(r.open, r.open.len())) by {
            lemma_open_same(n.open, r.open, r.open.len());
        }
        assert(turned(q, seq![t]) =~= seq![g]);
        assert(meaning(n) =~= meaning(r).push(g));
        lemma_reaches_self(rule, meaning(n));
        assert forall|x: int| 0 <= x < n.open.len() implies run_ok(axis, #[trigger] n.open[x]) by {
            if x < r.open.len() {
                assert(run_ok(axis, r.open[x]));
            }
        }
    }
}

proof fn lemma_run_gates(gates: Seq<BackendGate>, n: nat, axis: RotAxis, e: EulerOf)
    requires
        n <= gates.len(),
    ensures
        sound(run_gates(gates, n, axis, e), axis),
        reaches(
            resynthesis_rule(axis, e),
            gates.take(n as int),
            meaning(run_gates(gates, n, axis, e)),
        ),
    decreases n,
{
    let rule = resynthesis_rule(axis, e);
    let none = Seq::<BackendGate>::empty();
    if n == 0 {
        assert(meaning(run_gates(gates, 0, axis, e)) =~= gates.take(0));
        lemma_reaches_self(rule, gates.take(0));
    } else {
        lemma_run_gates(gates, (n - 1) as nat, axis, e);
        let r = run_gates(gates, (n - 1) as nat, axis, e);
        let g = gates[n - 1];
        if as_turn(axis, g) is Some {
            lemma_turn(r, g, axis, e);
        } else {
            lemma_other_gate(r, g, axis, e);
        }
        lemma_reaches_within(rule, none, gates.take(n - 1), meaning(r), seq![g]);
        assert(none + gates.take(n - 1) + seq![g] =~= gates.take(n as int));
        assert(none + meaning(r) + seq![g] =~= meaning(r).push(g));
        lemma_then(
            axis,
            e,
            gates.take(n as int),
            meaning(r).push(g),
            meaning(run_gates(gates, n, axis, e)),
        );
    }
}

proof fn lemma_finished(r: Runs, axis: RotAxis, e: EulerOf)
    requires
        sound(r, axis),
    ensures
        reaches(resynthesis_rule(axis, e), meaning(r), finished(r, axis, e)),
    decreases r.open.len(),
{
    if r.open.len() == 0 {
        lemma_reaches_self(resynthesis_rule(axis, e), meaning(r));
        assert(meaning(r) =~= r.out);
    } else {
        let q = r.open[0].0;
        assert(run_of(r.open, q, 0) == 0);
        lemma_closed_run(r, q, axis, e);
        lemma_finished(closed_run(r, q, axis, e), axis, e);
        lemma_then(
            axis,
            e,
            meaning(r),
            meaning(closed_run(r, q, axis, e)),
            finished(r, axis, e),
        );
    }
}

/// Resynthesis only lets gates on different qubits change places and writes
/// runs of rotations of one qubit as at most three.
pub proof fn lemma_resynthesized(gates: Seq<BackendGate>, axis: RotAxis, e: EulerOf)
    ensures
        reaches(resynthesis_rule(axis, e), gates, resynthesized(gates, axis, e)),
{
    let r = run_gates(gates, gates.len(), axis, e);
    lemma_run_gates(gates, gates.len(), axis, e);
    assert(gates.take(gates.len() as int) =~= gates);
    lemma_finished(r, axis, e);
    lemma_then(axis, e, gates, meaning(r), resynthesized(gates, axis, e));
}

proof fn lemma_nothing_classical(v: Seq<BackendGate>)
    requires
        forall|k: int| 0 <= k < v.len() ==> !classical(#[trigger] v[k]),
    ensures
        v.filter(|g: BackendGate| classical(g)) == Seq::<BackendGate>::empty(),
    decreases v.len(),
{
    reveal(Seq::filter);
    if v.len() > 0 {
        assert forall|k: int| 0 <= k < v.drop_last().len() implies !classical(
            #[trigger] v.drop_last()[k],
        ) by {
            assert(v.drop_last()[k] == v[k]);
        }
        lemma_nothing_classical(v.drop_last());
        assert(!classical(v[v.len() - 1]));
    }
}

/// Measurements and conditioned gates are neither dropped nor reordered.
pub proof fn lemma_resynthesized_keeps_classical(gates: Seq<BackendGate>, axis: RotAxis, e: EulerOf)
    ensures
        resynthesized(gates, axis, e).filter(|g: BackendGate| classical(g)) == gates.filter(
            |g: BackendGate| classical(g),
        ),
{
    let kind = |g: BackendGate| classical(g);
    let rule = resynthesis_rule(axis, e);
    assert(keeps(rule, kind)) by {
        assert forall|l: Seq<BackendGate>, r: Seq<BackendGate>| #[trigger]
            rule(l, r) implies l.filter(kind) == r.filter(kind) by {
            if exchanged(l, r) {
                reveal_with_fuel(Seq::filter, 3);
                assert(l.drop_last().drop_last() =~= Seq::empty());
                assert(r.drop_last().drop_last() =~= Seq::empty());
                assert(r.drop_last()[0] == l[1]);
                assert(r.last() == l[0]);
            } else {
                let (q, turns) = choose|q: usize, turns: Seq<Turn>| #[trigger]
                    is_run(l, axis, q, turns) && r == euler_gates(axis, q, e(turns));
                assert forall|k: int| 0 <= k < l.len() implies !classical(#[trigger] l[k]) by {
                    assert(as_turn(axis, l[k]) is Some);
                }
                lemma_nothing_classical(l);
                lemma_nothing_classical(r);
            }
        }
    }
    lemma_resynthesized(gates, axis, e);
    lemma_reaches_keeps(rule, kind, gates, resynthesized(gates, axis, e));
}

} // verus!
