//! Merges and drops rotations of native circuits.
use crate::angle::{does_turn, turns, wrap_angle, wrapped};
use crate::binary64::sum;
use crate::native::{copy_native, NativeCircuit, NativeGate};
use crate::rewrite::{
    keeps, lemma_reaches_keeps, lemma_reaches_once, lemma_reaches_self, lemma_reaches_transitive,
    lemma_reaches_within, reaches, Rule,
};
use vstd::prelude::*;

verus! {

/// The single rotation that two rotations of the same qubits about the same
/// axis make.
pub open spec fn merged(a: NativeGate, b: NativeGate) -> Option<NativeGate> {
    match (a, b) {
        (NativeGate::Rz(p, s), NativeGate::Rz(q, t)) => if p == q {
            Some(NativeGate::Rz(p, wrapped(sum(s, t))))
        } else {
            None
        },
        (NativeGate::Ry(p, s), NativeGate::Ry(q, t)) => if p == q {
            Some(NativeGate::Ry(p, wrapped(sum(s, t))))
        } else {
            None
        },
        (NativeGate::Rzz(a1, b1, s), NativeGate::Rzz(a2, b2, t)) => if (a1 == a2 && b1 == b2) || (a1
            == b2 && b1 == a2) {
            Some(NativeGate::Rzz(a1, b1, wrapped(sum(s, t))))
        } else {
            None
        },
        _ => None,
    }
}

/// Whether a gate is no rotation that does nothing.
pub open spec fn acts(g: NativeGate) -> bool {
    match g {
        NativeGate::Rz(_, t) | NativeGate::Ry(_, t) | NativeGate::Rzz(_, _, t) => turns(t),
        _ => true,
    }
}

/// What the optimizer may do to neighbors.
pub open spec fn native_rule() -> Rule<NativeGate> {
    |l: Seq<NativeGate>, r: Seq<NativeGate>|
        {
            ||| l.len() == 2 && r.len() == 1 && merged(l[0], l[1]) == Some(r[0])
            ||| l.len() == 1 && r == Seq::<NativeGate>::empty() && !acts(l[0])
        }
}

/// The first `n` gates, each merged into the one before where possible.
pub open spec fn merged_all(gates: Seq<NativeGate>, n: nat) -> Seq<NativeGate>
    decreases n,
{
    if n == 0 {
        Seq::empty()
    } else {
        let out = merged_all(gates, (n - 1) as nat);
        if out.len() > 0 && merged(out.last(), gates[n - 1]) is Some {
            out.drop_last().push(merged(out.last(), gates[n - 1])->0)
        } else {
            out.push(gates[n - 1])
        }
    }
}

pub open spec fn round(gates: Seq<NativeGate>) -> Seq<NativeGate> {
    merged_all(gates, gates.len()).filter(|g: NativeGate| acts(g))
}

/// Rounds until one makes the sequence no shorter.
pub open spec fn optimized(gates: Seq<NativeGate>) -> Seq<NativeGate>
    decreases gates.len(),
{
    if round(gates).len() >= gates.len() {
        round(gates)
    } else {
        optimized(round(gates))
    }
}

proof fn lemma_merged_all(gates: Seq<NativeGate>, n: nat)
    requires
        n <= gates.len(),
    ensures
        reaches(native_rule(), gates.take(n as int), merged_all(gates, n)),
        merged_all(gates, n).len() <= n,
    decreases n,
{
    let none = Seq::<NativeGate>::empty();
    if n == 0 {
        lemma_reaches_self(native_rule(), gates.take(0));
        assert(gates.take(0) =~= none);
    } else {
        lemma_merged_all(gates, (n - 1) as nat);
        let a = gates.take(n - 1);
        let out = merged_all(gates, (n - 1) as nat);
        let g = gates[n - 1];
        lemma_reaches_within(native_rule(), none, a, out, seq![g]);
        assert(none + a + seq![g] =~= gates.take(n as int));
        assert(none + out + seq![g] =~= out.push(g));
        if out.len() > 0 && merged(out.last(), g) is Some {
            let p = out.drop_last();
            let l = seq![out.last(), g];
            let r = seq![merged(out.last(), g)->0];
            assert(native_rule()(l, r));
            lemma_reaches_once(native_rule(), p, l, r, none);
            assert(p + l + none =~= out.push(g));
            assert(p + r + none =~= merged_all(gates, n));
            lemma_reaches_transitive(native_rule(), gates.take(n as int), out.push(g), merged_all(gates, n));
        }
    }
}

proof fn lemma_dropped(gates: Seq<NativeGate>)
    ensures
        reaches(native_rule(), gates, gates.filter(|g: NativeGate| acts(g))),
        gates.filter(|g: NativeGate| acts(g)).len() <= gates.len(),
    decreases gates.len(),
{
    let kind = |g: NativeGate| acts(g);
    let none = Seq::<NativeGate>::empty();
    reveal(Seq::filter);
    if gates.len() == 0 {
        lemma_reaches_self(native_rule(), gates);
        assert(gates.filter(kind) =~= gates);
    } else {
        let front = gates.drop_last();
        let g = gates.last();
        lemma_dropped(front);
        let kept = front.filter(kind);
        lemma_reaches_within(native_rule(), none, front, kept, seq![g]);
        assert(none + front + seq![g] =~= gates);
        assert(none + kept + seq![g] =~= kept.push(g));
        if !acts(g) {
            assert(native_rule()(seq![g], none));
            lemma_reaches_once(native_rule(), kept, seq![g], none, none);
            assert(kept + seq![g] + none =~= kept.push(g));
            assert(kept + none + none =~= kept);
            lemma_reaches_transitive(native_rule(), gates, kept.push(g), kept);
        }
    }
}

proof fn lemma_round(gates: Seq<NativeGate>)
    ensures
        reaches(native_rule(), gates, round(gates)),
        round(gates).len() <= gates.len(),
{
    let m = merged_all(gates, gates.len());
    lemma_merged_all(gates, gates.len());
    assert(gates.take(gates.len() as int) =~= gates);
    lemma_dropped(m);
    lemma_reaches_transitive(native_rule(), gates, m, round(gates));
}

/// The optimizer only merges neighboring rotations of the same qubits about
/// the same axis and drops rotations that do nothing; and it makes no
/// circuit longer.
pub proof fn lemma_optimized(gates: Seq<NativeGate>)
    ensures
        reaches(native_rule(), gates, optimized(gates)),
        optimized(gates).len() <= gates.len(),
    decreases gates.len(),
{
    lemma_round(gates);
    if round(gates).len() < gates.len() {
        lemma_optimized(round(gates));
        lemma_reaches_transitive(native_rule(), gates, round(gates), optimized(round(gates)));
    }
}

/// Where nothing gets shorter, nothing was merged.
proof fn lemma_merged_same(gates: Seq<NativeGate>, n: nat)
    requires
        n <= gates.len(),
        merged_all(gates, n).len() == n,
    ensures
        merged_all(gates, n) == gates.take(n as int),
    decreases n,
{
    if n > 0 {
        lemma_merged_all(gates, (n - 1) as nat);
        lemma_merged_same(gates, (n - 1) as nat);
    }
    assert(merged_all(gates, n) =~= gates.take(n as int));
}

/// Where nothing gets shorter, nothing was dropped.
proof fn lemma_dropped_same(gates: Seq<NativeGate>)
    requires
        gates.filter(|g: NativeGate| acts(g)).len() == gates.len(),
    ensures
        gates.filter(|g: NativeGate| acts(g)) == gates,
    decreases gates.len(),
{
    let kind = |g: NativeGate| acts(g);
    reveal(Seq::filter);
    if gates.len() > 0 {
        lemma_dropped(gates.drop_last());
        lemma_dropped_same(gates.drop_last());
    }
    assert(gates.filter(kind) =~= gates);
}

/// The optimizer goes on until there is nothing left to merge or to drop:
/// another round, or another run, changes nothing.
pub proof fn lemma_optimized_settled(gates: Seq<NativeGate>)
    ensures
        round(optimized(gates)) == optimized(gates),
        optimized(optimized(gates)) == optimized(gates),
    decreases gates.len(),
{
    let m = merged_all(gates, gates.len());
    lemma_round(gates);
    if round(gates).len() < gates.len() {
        lemma_optimized_settled(round(gates));
    } else {
        lemma_merged_all(gates, gates.len());
        lemma_dropped(m);
        lemma_merged_same(gates, gates.len());
        lemma_dropped_same(m);
        assert(gates.take(gates.len() as int) =~= gates);
    }
}

/// Whether a gate is no plain rotation.
pub open spec fn classical(g: NativeGate) -> bool {
    g is Measure || g is If
}

/// Measurements and conditioned gates are neither dropped nor reordered.
pub proof fn lemma_optimized_keeps_classical(gates: Seq<NativeGate>)
    ensures
        optimized(gates).filter(|g: NativeGate| classical(g)) == gates.filter(
            |g: NativeGate| classical(g),
        ),
{
    let kind = |g: NativeGate| classical(g);
    assert(keeps(native_rule(), kind)) by {
        assert forall|l: Seq<NativeGate>, r: Seq<NativeGate>| #[trigger]
            native_rule()(l, r) implies l.filter(kind) == r.filter(kind) by {
            reveal_with_fuel(Seq::filter, 3);
            if l.len() == 2 {
                assert(l.drop_last().drop_last() =~= Seq::empty());
                assert(r.drop_last() =~= Seq::empty());
            } else {
                assert(l.drop_last() =~= Seq::empty());
            }
        }
    }
    lemma_optimized(gates);
    lemma_reaches_keeps(native_rule(), kind, gates, optimized(gates));
}

fn try_merge(a: &NativeGate, b: &NativeGate) -> (r: Option<NativeGate>)
    ensures
        r == merged(*a, *b),
{
    match (a, b) {
        (NativeGate::Rz(p, s), NativeGate::Rz(q, t)) => if *p == *q {
            Some(NativeGate::Rz(*p, wrap_angle(s.plus(*t))))
        } else {
            None
        },
        (NativeGate::Ry(p, s), NativeGate::Ry(q, t)) => if *p == *q {
            Some(NativeGate::Ry(*p, wrap_angle(s.plus(*t))))
        } else {
            None
        },
        (NativeGate::Rzz(a1, b1, s), NativeGate::Rzz(a2, b2, t)) => if (*a1 == *a2 && *b1 == *b2) || (
        *a1 == *b2 && *b1 == *a2) {
            Some(NativeGate::Rzz(*a1, *b1, wrap_angle(s.plus(*t))))
        } else {
            None
        },
        _ => None,
    }
}

fn merge_pass(gates: &Vec<NativeGate>) -> (r: Vec<NativeGate>)
    ensures
        r@ == merged_all(gates@, gates@.len()),
{
    let mut out: Vec<NativeGate> = Vec::new();
    let mut i: usize = 0;
    while i < gates.len()
        invariant
            0 <= i <= gates.len(),
            out@ == merged_all(gates@, i as nat),
        decreases gates.len() - i,
    {
        let joined = if out.len() > 0 {
            try_merge(&out[out.len() - 1], &gates[i])
        } else {
            None
        };
        match joined {
            Some(g) => {
                out.pop();
                out.push(g);
            },
            None => {
                out.push(gates[i].copy());
            },
        }
        i = i + 1;
        assert(out@ =~= merged_all(gates@, i as nat));
    }
    out
}

fn does_act(g: &NativeGate) -> (r: bool)
    ensures
        r == acts(*g),
{
    match g {
        NativeGate::Rz(_, t) | NativeGate::Ry(_, t) | NativeGate::Rzz(_, _, t) => does_turn(*t),
        _ => true,
    }
}

fn drop_zero_pass(gates: &Vec<NativeGate>) -> (r: Vec<NativeGate>)
    ensures
        r@ == gates@.filter(|g: NativeGate| acts(g)),
{
    let ghost kind = |g: NativeGate| acts(g);
    let mut out: Vec<NativeGate> = Vec::new();
    let mut i: usize = 0;
    proof {
        reveal(Seq::filter);
        assert(gates@.take(0).filter(kind) =~= Seq::empty());
    }
    while i < gates.len()
        invariant
            0 <= i <= gates.len(),
            kind == (|g: NativeGate| acts(g)),
            out@ == gates@.take(i as int).filter(kind),
        decreases gates.len() - i,
    {
        proof {
            reveal(Seq::filter);
            assert(gates@.take(i + 1).drop_last() =~= gates@.take(i as int));
        }
        if does_act(&gates[i]) {
            out.push(gates[i].copy());
        }
        i = i + 1;
    }
    assert(gates@.take(i as int) =~= gates@);
    out
}

/// Runs both passes to a fixed point.
pub fn optimize(circuit: &NativeCircuit) -> (r: NativeCircuit)
    ensures
        r.num_qubits == circuit.num_qubits,
        r.num_clbits == circuit.num_clbits,
        r.gates@ == optimized(circuit.gates@),
{
    let mut gates = copy_native(&circuit.gates);
    loop
        invariant
            optimized(circuit.gates@) == optimized(gates@),
        decreases gates.len(),
    {
        let next = drop_zero_pass(&merge_pass(&gates));
        proof {
            lemma_round(gates@);
        }
        if next.len() == gates.len() {
            return NativeCircuit {
                num_qubits: circuit.num_qubits,
                num_clbits: circuit.num_clbits,
                gates: next,
            };
        }
        gates = next;
    }
}

} // verus!
