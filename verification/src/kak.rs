//! Replaces runs of native gates on one pair of qubits by shorter ones.
//!
//! A run is everything on a pair of qubits from one two-qubit rotation up to
//! the next gate that leaves the pair. Runs with at least two two-qubit
//! rotations are handed out to be synthesized anew.
use crate::angle::{synthesizes, total, turns, Euler, EulerOf, Turn, HALF_PI_BITS};
use crate::binary64::{negated, product, Binary64};
use crate::native::{
    count_double, if_turns, is_double, kind_of, push_if_turns, push_single, single_gates, NativeCircuit,
    NativeGate,
};
use crate::optimize::classical;
use crate::rewrite::{
    keeps, lemma_reaches_front, lemma_reaches_keeps, lemma_reaches_lowers, lemma_reaches_once,
    lemma_reaches_self, lemma_reaches_transitive, lemma_reaches_within, lowers, reaches, Rule,
};
use std::collections::HashMap;
use vstd::prelude::*;

verus! {

broadcast use vstd::std_specs::hash::group_hash_axioms;

/// A two-qubit operation by Cartan's decomposition: `k3` and `k4` act first,
/// then the rotations about XX, YY and ZZ with coefficients `a`, `b`, `c`,
/// then `k1` and `k2`.
#[derive(Debug, Clone, Copy, PartialEq, Eq, Structural)]
pub struct Kak {
    pub k1: Euler,
    pub k2: Euler,
    pub a: Binary64,
    pub b: Binary64,
    pub c: Binary64,
    pub k3: Euler,
    pub k4: Euler,
}

/// The bit pattern of minus two.
pub const MINUS_TWO_BITS: u64 = 0xc000_0000_0000_0000;

/// Three rotations, without those that do nothing.
pub open spec fn euler_natives(q: usize, x: Euler) -> Seq<NativeGate> {
    if_turns(x.delta, NativeGate::Rz(q, x.delta)) + if_turns(x.gamma, NativeGate::Ry(q, x.gamma))
        + if_turns(x.beta, NativeGate::Rz(q, x.beta))
}

/// A two-qubit rotation with a coefficient.
pub open spec fn core_gate(q0: usize, q1: usize, coefficient: Binary64) -> Seq<NativeGate> {
    if_turns(
        coefficient,
        NativeGate::Rzz(q0, q1, product(Binary64 { bits: MINUS_TWO_BITS }, coefficient)),
    )
}

/// The same operation on two qubits.
pub open spec fn both(q0: usize, q1: usize, t: Turn, e: EulerOf) -> Seq<NativeGate> {
    single_gates(q0, t, e) + single_gates(q1, t, e)
}

/// The native gates of a two-qubit operation: at most three two-qubit
/// rotations.
pub open spec fn kak_gates(k: Kak, q0: usize, q1: usize, e: EulerOf) -> Seq<NativeGate> {
    let quarter = Binary64 { bits: HALF_PI_BITS };
    euler_natives(q0, k.k3) + euler_natives(q1, k.k4) + both(q0, q1, Turn::H, e) + core_gate(
        q0,
        q1,
        k.a,
    ) + both(q0, q1, Turn::H, e) + both(q0, q1, Turn::Rx(quarter), e) + core_gate(q0, q1, k.b)
        + both(q0, q1, Turn::Rx(negated(quarter)), e) + core_gate(q0, q1, k.c) + euler_natives(
        q0,
        k.k1,
    ) + euler_natives(q1, k.k2)
}

fn push_euler(out: &mut Vec<NativeGate>, q: usize, x: Euler)
    ensures
        final(out)@ == old(out)@ + euler_natives(q, x),
{
    let ghost before = out@;
    push_if_turns(out, x.delta, NativeGate::Rz(q, x.delta));
    push_if_turns(out, x.gamma, NativeGate::Ry(q, x.gamma));
    push_if_turns(out, x.beta, NativeGate::Rz(q, x.beta));
    assert(out@ =~= before + euler_natives(q, x));
}

fn push_core(out: &mut Vec<NativeGate>, q0: usize, q1: usize, coefficient: Binary64)
    ensures
        final(out)@ == old(out)@ + core_gate(q0, q1, coefficient),
{
    let theta = Binary64 { bits: MINUS_TWO_BITS }.times(coefficient);
    push_if_turns(out, coefficient, NativeGate::Rzz(q0, q1, theta));
}

fn push_both<F: Fn(&Vec<Turn>) -> Euler>(
    out: &mut Vec<NativeGate>,
    q0: usize,
    q1: usize,
    t: Turn,
    euler: &F,
)
    requires
        total(*euler),
    ensures
        forall|e: EulerOf| #[trigger]
            synthesizes(*euler, e) ==> final(out)@ == old(out)@ + both(q0, q1, t, e),
{
    let ghost before = out@;
    push_single(out, q0, t, euler);
    push_single(out, q1, t, euler);
    proof {
        assert forall|e: EulerOf| #[trigger] synthesizes(*euler, e) implies out@ == before + both(
            q0,
            q1,
            t,
            e,
        ) by {
            assert(out@ =~= before + both(q0, q1, t, e));
        }
    }
}

/// Writes a two-qubit operation in native gates.
pub fn synthesize_two_qubit_unitary<F: Fn(&Vec<Turn>) -> Euler>(
    kak: &Kak,
    q0: usize,
    q1: usize,
    euler: &F,
) -> (r: NativeCircuit)
    requires
        total(*euler),
        q0 < usize::MAX,
        q1 < usize::MAX,
    ensures
        r.num_qubits == (if q0 < q1 {
            q1
        } else {
            q0
        }) + 1,
        r.num_clbits == 0,
        forall|e: EulerOf| #[trigger]
            synthesizes(*euler, e) ==> r.gates@ == kak_gates(*kak, q0, q1, e),
{
    let quarter = Binary64 { bits: HALF_PI_BITS };
    let mut out: Vec<NativeGate> = Vec::new();
    push_euler(&mut out, q0, kak.k3);
    push_euler(&mut out, q1, kak.k4);
    push_both(&mut out, q0, q1, Turn::H, euler);
    push_core(&mut out, q0, q1, kak.a);
    push_both(&mut out, q0, q1, Turn::H, euler);
    push_both(&mut out, q0, q1, Turn::Rx(quarter), euler);
    push_core(&mut out, q0, q1, kak.b);
    push_both(&mut out, q0, q1, Turn::Rx(quarter.neg()), euler);
    push_core(&mut out, q0, q1, kak.c);
    push_euler(&mut out, q0, kak.k1);
    push_euler(&mut out, q1, kak.k2);
    proof {
        assert forall|e: EulerOf| #[trigger] synthesizes(*euler, e) implies out@ == kak_gates(
            *kak,
            q0,
            q1,
            e,
        ) by {
            assert(out@ =~= kak_gates(*kak, q0, q1, e));
        }
    }
    let last: usize = if q0 < q1 {
        q1
    } else {
        q0
    };
    NativeCircuit { num_qubits: last + 1, num_clbits: 0, gates: out }
}

/// A run on a pair of qubits: the places of its gates.
pub struct Run {
    pub lo: usize,
    pub hi: usize,
    pub members: Seq<usize>,
}

/// What is known after some gates: all runs so far, the open run of each
/// qubit that has one, and the run of each gate.
pub struct Scan {
    pub runs: Seq<Run>,
    pub owner: Map<usize, usize>,
    pub home: Seq<Option<usize>>,
}

impl Scan {
    /// The next gate joins run `x`.
    pub open spec fn joined(self, x: usize) -> Scan {
        let run = self.runs[x as int];
        Scan {
            runs: self.runs.update(
                x as int,
                Run { members: run.members.push(self.home.len() as usize), ..run },
            ),
            home: self.home.push(Some(x)),
            ..self
        }
    }

    /// The run on a qubit ends.
    pub open spec fn closed(self, q: usize) -> Scan {
        if self.owner.dom().contains(q) {
            let run = self.runs[self.owner[q] as int];
            Scan { owner: self.owner.remove(run.lo).remove(run.hi), ..self }
        } else {
            self
        }
    }

    /// The runs on the first `n` of the listed qubits end.
    pub open spec fn closed_all(self, wires: Seq<usize>, n: nat) -> Scan
        decreases n,
    {
        if n == 0 {
            self
        } else {
            self.closed_all(wires, (n - 1) as nat).closed(wires[n - 1])
        }
    }

    /// A run starts on a pair of qubits.
    pub open spec fn opened(self, lo: usize, hi: usize) -> Scan {
        let x = self.runs.len() as usize;
        Scan {
            runs: self.runs.push(Run { lo, hi, members: Seq::empty() }),
            owner: self.owner.insert(lo, x).insert(hi, x),
            ..self
        }
    }

    /// The next gate is in no run.
    pub open spec fn passed(self) -> Scan {
        Scan { home: self.home.push(None), ..self }
    }

    /// Whether both qubits are those of one open run.
    pub open spec fn open_on(self, lo: usize, hi: usize) -> bool {
        &&& self.owner.dom().contains(lo)
        &&& self.owner.dom().contains(hi)
        &&& self.owner[lo] == self.owner[hi]
        &&& self.runs[self.owner[lo] as int].lo == lo
        &&& self.runs[self.owner[lo] as int].hi == hi
    }

    /// Takes in one gate. A rotation of one qubit joins the run on its
    /// qubit. A two-qubit rotation joins the run on its pair, or ends the
    /// runs on both qubits and starts one. All else ends the runs on its
    /// qubits.
    pub open spec fn next(self, g: NativeGate) -> Scan {
        match g {
            NativeGate::Rz(q, _) | NativeGate::Ry(q, _) => if self.owner.dom().contains(q) {
                self.joined(self.owner[q])
            } else {
                self.passed()
            },
            NativeGate::Rzz(a, b, _) => {
                let (lo, hi) = if a < b {
                    (a, b)
                } else {
                    (b, a)
                };
                if self.open_on(lo, hi) {
                    self.joined(self.owner[lo])
                } else {
                    self.closed(lo).closed(hi).opened(lo, hi).joined(self.runs.len() as usize)
                }
            },
            _ => self.closed_all(g.wires(), g.wires().len()).passed(),
        }
    }
}

/// What is known after the first `n` gates.
pub open spec fn scan(gates: Seq<NativeGate>, n: nat) -> Scan
    decreases n,
{
    if n == 0 {
        Scan { runs: Seq::empty(), owner: Map::empty(), home: Seq::empty() }
    } else {
        scan(gates, (n - 1) as nat).next(gates[n - 1])
    }
}

/// The gates at some places.
pub open spec fn picked(gates: Seq<NativeGate>, members: Seq<usize>) -> Seq<NativeGate> {
    Seq::new(members.len(), |k: int| gates[members[k] as int])
}

/// What replaces a run on a pair of qubits.
pub type SynthesisOf = spec_fn(Seq<NativeGate>, usize, usize) -> Seq<NativeGate>;

/// A function gives these replacements.
pub open spec fn replaces<S: Fn(&Vec<NativeGate>, usize, usize) -> Vec<NativeGate>>(
    f: S,
    s: SynthesisOf,
) -> bool {
    forall|v: &Vec<NativeGate>, lo: usize, hi: usize, x: Vec<NativeGate>| #[trigger]
        call_ensures(f, (v, lo, hi), x) ==> x@ == s(v@, lo, hi)
}

/// A function can be asked for any replacement.
pub open spec fn always_replaces<S: Fn(&Vec<NativeGate>, usize, usize) -> Vec<NativeGate>>(
    f: S,
) -> bool {
    forall|v: &Vec<NativeGate>, lo: usize, hi: usize| #[trigger] call_requires(f, (v, lo, hi))
}

/// Whether a run has at least two two-qubit rotations.
pub open spec fn worthwhile(gates: Seq<NativeGate>, sc: Scan, x: int) -> bool {
    count_double(picked(gates, sc.runs[x].members)) >= 2
}

/// What stands for gate `i`: the new run in place of its first gate.
pub open spec fn emitted(gates: Seq<NativeGate>, sc: Scan, s: SynthesisOf, i: int) -> Seq<NativeGate> {
    match sc.home[i] {
        Some(x) => if worthwhile(gates, sc, x as int) {
            let run = sc.runs[x as int];
            if run.members[0] == i {
                s(picked(gates, run.members), run.lo, run.hi)
            } else {
                Seq::empty()
            }
        } else {
            seq![gates[i]]
        },
        None => seq![gates[i]],
    }
}

/// What stands for the first `n` gates.
pub open spec fn emitted_all(gates: Seq<NativeGate>, sc: Scan, s: SynthesisOf, n: nat) -> Seq<
    NativeGate,
>
    decreases n,
{
    if n == 0 {
        Seq::empty()
    } else {
        emitted_all(gates, sc, s, (n - 1) as nat) + emitted(gates, sc, s, n - 1)
    }
}

/// A circuit with its worthwhile runs replaced.
pub open spec fn resynthesized(gates: Seq<NativeGate>, s: SynthesisOf) -> Seq<NativeGate> {
    emitted_all(gates, scan(gates, gates.len()), s, gates.len())
}

/// A run while it is collected.
struct Block {
    lo: usize,
    hi: usize,
    members: Vec<usize>,
}

impl View for Block {
    type V = Run;

    closed spec fn view(&self) -> Run {
        Run { lo: self.lo, hi: self.hi, members: self.members@ }
    }
}

spec fn runs_of(blocks: Seq<Block>) -> Seq<Run> {
    blocks.map_values(|b: Block| b@)
}

/// What a scan keeps: gates of a run are at increasing places, are plain
/// rotations on the pair; a run's qubits are its own while it is open, and no
/// other gate has touched them since it started.
spec fn sound(gates: Seq<NativeGate>, sc: Scan, n: nat) -> bool {
    &&& n <= gates.len() <= usize::MAX
    &&& sc.home.len() == n
    &&& sc.runs.len() <= n
    &&& forall|i: int| 0 <= i < n && (#[trigger] sc.home[i]) is Some ==> sc.home[i]->0 < sc.runs.len()
    &&& forall|x: int| 0 <= x < sc.runs.len() ==> run_sound(gates, sc, #[trigger] sc.runs[x], x)
    &&& forall|q: usize| #[trigger] sc.owner.dom().contains(q) ==> owner_sound(gates, sc, q)
}

spec fn run_sound(gates: Seq<NativeGate>, sc: Scan, run: Run, x: int) -> bool {
    &&& run.lo <= run.hi
    &&& run.members.len() > 0
    &&& forall|k: int|
        0 <= k < run.members.len() ==> member_sound(gates, sc, run, x, #[trigger] run.members[k])
    &&& forall|k: int| 0 <= k < run.members.len() ==> run.members[0] <= #[trigger] run.members[k]
    &&& forall|i: int|
        0 <= i < sc.home.len() && #[trigger] sc.home[i] == Some(x as usize) ==> i
            >= run.members[0]
}

spec fn member_sound(gates: Seq<NativeGate>, sc: Scan, run: Run, x: int, i: usize) -> bool {
    &&& i < sc.home.len()
    &&& sc.home[i as int] == Some(x as usize)
    &&& in_pair(gates[i as int], run.lo, run.hi)
}

/// Whether a gate is a plain rotation on a pair of qubits.
pub open spec fn in_pair(g: NativeGate, lo: usize, hi: usize) -> bool {
    match g {
        NativeGate::Rz(q, _) | NativeGate::Ry(q, _) => q == lo || q == hi,
        NativeGate::Rzz(a, b, _) => (a == lo && b == hi) || (a == hi && b == lo),
        _ => false,
    }
}

/// Whether a gate leaves a qubit alone.
pub open spec fn misses(g: NativeGate, q: usize) -> bool {
    !g.wires().contains(q)
}

spec fn owner_sound(gates: Seq<NativeGate>, sc: Scan, q: usize) -> bool {
    let x = sc.owner[q];
    let run = sc.runs[x as int];
    &&& x < sc.runs.len()
    &&& q == run.lo || q == run.hi
    &&& sc.owner.dom().contains(run.lo) && sc.owner[run.lo] == x
    &&& sc.owner.dom().contains(run.hi) && sc.owner[run.hi] == x
    &&& forall|i: int|
        run.members[0] < i < sc.home.len() && #[trigger] sc.home[i] != Some(x) ==> misses(
            gates[i],
            run.lo,
        ) && misses(gates[i], run.hi)
}

proof fn lemma_closed(gates: Seq<NativeGate>, sc: Scan, n: nat, q: usize)
    requires
        sound(gates, sc, n),
    ensures
        sound(gates, sc.closed(q), n),
        sc.closed(q).runs == sc.runs,
        sc.closed(q).home == sc.home,
        !sc.closed(q).owner.dom().contains(q),
        sc.closed(q).owner.dom().subset_of(sc.owner.dom()),
{
    let c = sc.closed(q);
    if sc.owner.dom().contains(q) {
        assert(owner_sound(gates, sc, q));
        let x = sc.owner[q];
        assert forall|p: usize| #[trigger] c.owner.dom().contains(p) implies owner_sound(
            gates,
            c,
            p,
        ) by {
            assert(sc.owner.dom().contains(p));
            assert(owner_sound(gates, sc, p));
            let run = sc.runs[sc.owner[p] as int];
            assert(sc.owner[p] != x);
        }
        assert forall|y: int| 0 <= y < c.runs.len() implies run_sound(
            gates,
            c,
            #[trigger] c.runs[y],
            y,
        ) by {
            let run = sc.runs[y];
            assert(run_sound(gates, sc, run, y));
            assert forall|k: int| 0 <= k < run.members.len() implies member_sound(
                gates,
                c,
                run,
                y,
                #[trigger] run.members[k],
            ) by {
                assert(member_sound(gates, sc, run, y, run.members[k]));
            }
        }
    }
}

proof fn lemma_closed_all(gates: Seq<NativeGate>, sc: Scan, n: nat, wires: Seq<usize>, k: nat)
    requires
        sound(gates, sc, n),
        k <= wires.len(),
    ensures
        sound(gates, sc.closed_all(wires, k), n),
        sc.closed_all(wires, k).runs == sc.runs,
        sc.closed_all(wires, k).home == sc.home,
        forall|j: int|
            0 <= j < k ==> !sc.closed_all(wires, k).owner.dom().contains(#[trigger] wires[j]),
    decreases k,
{
    if k > 0 {
        lemma_closed_all(gates, sc, n, wires, (k - 1) as nat);
        lemma_closed(gates, sc.closed_all(wires, (k - 1) as nat), n, wires[k - 1]);
    }
}

/// Runs keep their gates when the next gate is in run `skip` or in none.
proof fn lemma_runs_kept(gates: Seq<NativeGate>, sc: Scan, c: Scan, n: nat, y: int)
    requires
        sound(gates, sc, n),
        0 <= y < sc.runs.len() <= c.runs.len(),
        c.runs[y] == sc.runs[y],
        c.home.len() == n + 1,
        c.home.drop_last() == sc.home,
        c.home.last() != Some(y as usize),
    ensures
        run_sound(gates, c, c.runs[y], y),
{
    let run = sc.runs[y];
    assert(run_sound(gates, sc, run, y));
    assert forall|i: int| 0 <= i < n implies c.home[i] == sc.home[i] by {
        assert(c.home.drop_last()[i] == sc.home[i]);
    }
    assert forall|k: int| 0 <= k < run.members.len() implies member_sound(
        gates,
        c,
        run,
        y,
        #[trigger] run.members[k],
    ) by {
        assert(member_sound(gates, sc, run, y, run.members[k]));
    }
}

/// An open run stays so when the next gate misses its qubits.
proof fn lemma_owner_kept(gates: Seq<NativeGate>, sc: Scan, c: Scan, n: nat, q: usize)
    requires
        sound(gates, sc, n),
        n < gates.len(),
        sc.owner.dom().contains(q),
        c.owner.dom().contains(q) && c.owner[q] == sc.owner[q],
        c.home.len() == n + 1,
        c.home.drop_last() == sc.home,
        ({
            let x = sc.owner[q];
            let run = sc.runs[x as int];
            &&& x < c.runs.len()
            &&& c.runs[x as int].lo == run.lo
            &&& c.runs[x as int].hi == run.hi
            &&& c.runs[x as int].members.len() > 0
            &&& c.runs[x as int].members[0] == run.members[0]
            &&& c.owner.dom().contains(run.lo) && c.owner[run.lo] == x
            &&& c.owner.dom().contains(run.hi) && c.owner[run.hi] == x
            &&& c.home.last() == Some(x) || (misses(gates[n as int], run.lo) && misses(
                gates[n as int],
                run.hi,
            ))
        }),
    ensures
        owner_sound(gates, c, q),
{
    assert(owner_sound(gates, sc, q));
    assert forall|i: int| 0 <= i < n implies c.home[i] == sc.home[i] by {
        assert(c.home.drop_last()[i] == sc.home[i]);
    }
}

proof fn lemma_passed(gates: Seq<NativeGate>, sc: Scan, n: nat)
    requires
        sound(gates, sc, n),
        n < gates.len(),
        forall|q: usize| #[trigger] sc.owner.dom().contains(q) ==> misses(gates[n as int], q),
    ensures
        sound(gates, sc.passed(), n + 1),
{
    let c = sc.passed();
    assert(c.home.drop_last() =~= sc.home);
    assert forall|y: int| 0 <= y < c.runs.len() implies run_sound(
        gates,
        c,
        #[trigger] c.runs[y],
        y,
    ) by {
        lemma_runs_kept(gates, sc, c, n, y);
    }
    assert forall|q: usize| #[trigger] c.owner.dom().contains(q) implies owner_sound(
        gates,
        c,
        q,
    ) by {
        assert(sc.owner.dom().contains(q));
        assert(owner_sound(gates, sc, q));
        assert(run_sound(gates, sc, sc.runs[sc.owner[q] as int], sc.owner[q] as int));
        lemma_owner_kept(gates, sc, c, n, q);
    }
}

proof fn lemma_in_pair_misses(g: NativeGate, lo: usize, hi: usize, q: usize)
    requires
        in_pair(g, lo, hi),
        q != lo,
        q != hi,
    ensures
        misses(g, q),
{
}

proof fn lemma_joined(gates: Seq<NativeGate>, sc: Scan, n: nat, q: usize)
    requires
        sound(gates, sc, n),
        n < gates.len(),
        sc.owner.dom().contains(q),
        in_pair(
            gates[n as int],
            sc.runs[sc.owner[q] as int].lo,
            sc.runs[sc.owner[q] as int].hi,
        ),
    ensures
        sound(gates, sc.joined(sc.owner[q]), n + 1),
{
    let x = sc.owner[q];
    let c = sc.joined(x);
    let run = sc.runs[x as int];
    assert(owner_sound(gates, sc, q));
    assert(run_sound(gates, sc, run, x as int));
    assert(c.home.drop_last() =~= sc.home);
    assert forall|y: int| 0 <= y < c.runs.len() implies run_sound(
        gates,
        c,
        #[trigger] c.runs[y],
        y,
    ) by {
        if y != x {
            lemma_runs_kept(gates, sc, c, n, y);
        } else {
            let now = c.runs[y];
            assert forall|k: int| 0 <= k < now.members.len() implies member_sound(
                gates,
                c,
                now,
                y,
                #[trigger] now.members[k],
            ) by {
                if k < run.members.len() {
                    assert(member_sound(gates, sc, run, y, run.members[k]));
                }
            }
            assert(member_sound(gates, sc, run, y, run.members[0]));
            assert(now.members[0] == run.members[0]);
            assert forall|k: int| 0 <= k < now.members.len() implies now.members[0]
                <= #[trigger] now.members[k] by {
                if k < run.members.len() {
                    assert(now.members[k] == run.members[k]);
                }
            }
        }
    }
    assert forall|p: usize| #[trigger] c.owner.dom().contains(p) implies owner_sound(
        gates,
        c,
        p,
    ) by {
        assert(sc.owner.dom().contains(p));
        assert(owner_sound(gates, sc, p));
        let other = sc.runs[sc.owner[p] as int];
        assert(run_sound(gates, sc, other, sc.owner[p] as int));
        if sc.owner[p] != x {
            lemma_in_pair_misses(gates[n as int], run.lo, run.hi, other.lo);
            lemma_in_pair_misses(gates[n as int], run.lo, run.hi, other.hi);
        }
        lemma_owner_kept(gates, sc, c, n, p);
    }
}

proof fn lemma_started(gates: Seq<NativeGate>, sc: Scan, n: nat, lo: usize, hi: usize)
    requires
        sound(gates, sc, n),
        n < gates.len(),
        lo <= hi,
        !sc.owner.dom().contains(lo),
        !sc.owner.dom().contains(hi),
        in_pair(gates[n as int], lo, hi),
    ensures
        sound(gates, sc.opened(lo, hi).joined(sc.runs.len() as usize), n + 1),
{
    let x = sc.runs.len() as usize;
    let c = sc.opened(lo, hi).joined(x);
    assert(c.home.drop_last() =~= sc.home);
    let now = c.runs[x as int];
    assert(now.members =~= seq![n as usize]);
    assert forall|y: int| 0 <= y < c.runs.len() implies run_sound(
        gates,
        c,
        #[trigger] c.runs[y],
        y,
    ) by {
        if y != x {
            lemma_runs_kept(gates, sc, c, n, y);
        } else {
            assert forall|i: int|
                0 <= i < c.home.len() && #[trigger] c.home[i] == Some(x) implies i >= n by {
                if i < n {
                    assert(c.home.drop_last()[i] == sc.home[i]);
                }
            }
        }
    }
    assert forall|p: usize| #[trigger] c.owner.dom().contains(p) implies owner_sound(
        gates,
        c,
        p,
    ) by {
        if p != lo && p != hi {
            assert(sc.owner.dom().contains(p));
            assert(owner_sound(gates, sc, p));
            let other = sc.runs[sc.owner[p] as int];
            assert(run_sound(gates, sc, other, sc.owner[p] as int));
            lemma_in_pair_misses(gates[n as int], lo, hi, other.lo);
            lemma_in_pair_misses(gates[n as int], lo, hi, other.hi);
            lemma_owner_kept(gates, sc, c, n, p);
        }
    }
}

proof fn lemma_next(gates: Seq<NativeGate>, sc: Scan, n: nat)
    requires
        sound(gates, sc, n),
        n < gates.len(),
    ensures
        sound(gates, sc.next(gates[n as int]), n + 1),
{
    let g = gates[n as int];
    match g {
        NativeGate::Rz(q, _) | NativeGate::Ry(q, _) => {
            if sc.owner.dom().contains(q) {
                assert(owner_sound(gates, sc, q));
                lemma_joined(gates, sc, n, q);
            } else {
                lemma_passed(gates, sc, n);
            }
        },
        NativeGate::Rzz(a, b, _) => {
            let (lo, hi) = if a < b {
                (a, b)
            } else {
                (b, a)
            };
            if sc.open_on(lo, hi) {
                lemma_joined(gates, sc, n, lo);
            } else {
                lemma_closed(gates, sc, n, lo);
                lemma_closed(gates, sc.closed(lo), n, hi);
                lemma_started(gates, sc.closed(lo).closed(hi), n, lo, hi);
            }
        },
        _ => {
            let w = g.wires();
            lemma_closed_all(gates, sc, n, w, w.len());
            let c = sc.closed_all(w, w.len());
            assert forall|q: usize| #[trigger] c.owner.dom().contains(q) implies misses(g, q) by {
                if w.contains(q) {
                    let j = choose|j: int| 0 <= j < w.len() && w[j] == q;
                    assert(!c.owner.dom().contains(w[j]));
                }
            }
            lemma_passed(gates, c, n);
        },
    }
}

proof fn lemma_scan(gates: Seq<NativeGate>, n: nat)
    requires
        n <= gates.len() <= usize::MAX,
    ensures
        sound(gates, scan(gates, n), n),
    decreases n,
{
    if n > 0 {
        lemma_scan(gates, (n - 1) as nat);
        lemma_next(gates, scan(gates, (n - 1) as nat), (n - 1) as nat);
    }
}

impl NativeGate {
    /// The qubits that a gate touches.
    fn qubits(&self) -> (r: Vec<usize>)
        ensures
            r@ == self.wires(),
        decreases self,
    {
        let mut out: Vec<usize> = Vec::new();
        match self {
            NativeGate::Rz(q, _) | NativeGate::Ry(q, _) | NativeGate::Measure(q, _) => {
                out.push(*q);
            },
            NativeGate::Rzz(a, b, _) => {
                out.push(*a);
                out.push(*b);
            },
            NativeGate::If(_, inner) => {
                out = inner.qubits();
            },
        }
        assert(out@ =~= self.wires());
        out
    }
}

/// The runs of a circuit while they are collected.
struct Collector {
    blocks: Vec<Block>,
    owner: HashMap<usize, usize>,
    home: Vec<Option<usize>>,
}

impl View for Collector {
    type V = Scan;

    closed spec fn view(&self) -> Scan {
        Scan { runs: runs_of(self.blocks@), owner: self.owner@, home: self.home@ }
    }
}

impl Collector {
    /// Whether every open run exists.
    spec fn owners_exist(&self) -> bool {
        forall|q: usize| #[trigger]
            self.owner@.dom().contains(q) ==> self.owner@[q] < self.blocks.len()
    }

    fn join(&mut self, x: usize)
        requires
            x < old(self).blocks.len(),
        ensures
            final(self)@ == old(self)@.joined(x),
            final(self).blocks.len() == old(self).blocks.len(),
            final(self).owner@ == old(self).owner@,
    {
        let i: usize = self.home.len();
        let ghost before = self.blocks@;
        self.blocks[x].members.push(i);
        self.home.push(Some(x));
        assert(runs_of(self.blocks@) =~= runs_of(before).update(
            x as int,
            Run { members: before[x as int].members@.push(i), ..before[x as int]@ },
        ));
    }

    fn close_block(&mut self, q: usize)
        requires
            old(self).owners_exist(),
        ensures
            final(self)@ == old(self)@.closed(q),
            final(self).blocks@ == old(self).blocks@,
            final(self).owners_exist(),
    {
        let found: Option<usize> = match self.owner.get(&q) {
            Some(x) => Some(*x),
            None => None,
        };
        if let Some(x) = found {
            let lo: usize = self.blocks[x].lo;
            let hi: usize = self.blocks[x].hi;
            self.owner.remove(&lo);
            self.owner.remove(&hi);
        }
    }

    fn open(&mut self, lo: usize, hi: usize)
        requires
            old(self).owners_exist(),
        ensures
            final(self)@ == old(self)@.opened(lo, hi),
            final(self).blocks.len() == old(self).blocks.len() + 1,
            final(self).owners_exist(),
    {
        let x: usize = self.blocks.len();
        let ghost before = self.blocks@;
        self.blocks.push(Block { lo, hi, members: Vec::new() });
        self.owner.insert(lo, x);
        self.owner.insert(hi, x);
        assert(runs_of(self.blocks@) =~= runs_of(before).push(
            Run { lo, hi, members: Seq::empty() },
        )) by {
            assert(self.blocks@.last()@.members =~= Seq::<usize>::empty());
        }
    }

    fn take_in(&mut self, g: &NativeGate)
        requires
            old(self).owners_exist(),
        ensures
            final(self)@ == old(self)@.next(*g),
            final(self).owners_exist(),
    {
        match g {
            NativeGate::Rz(q, _) | NativeGate::Ry(q, _) => {
                let found: Option<usize> = match self.owner.get(q) {
                    Some(x) => Some(*x),
                    None => None,
                };
                match found {
                    Some(x) => {
                        self.join(x);
                    },
                    None => {
                        self.home.push(None);
                    },
                }
            },
            NativeGate::Rzz(a, b, _) => {
                let (lo, hi) = if *a < *b {
                    (*a, *b)
                } else {
                    (*b, *a)
                };
                let matching: Option<usize> = match (self.owner.get(&lo), self.owner.get(&hi)) {
                    (Some(x), Some(y)) => {
                        if *x == *y && self.blocks[*x].lo == lo && self.blocks[*x].hi == hi {
                            Some(*x)
                        } else {
                            None
                        }
                    },
                    _ => None,
                };
                match matching {
                    Some(x) => {
                        self.join(x);
                    },
                    None => {
                        self.close_block(lo);
                        self.close_block(hi);
                        self.open(lo, hi);
                        let x: usize = self.blocks.len() - 1;
                        self.join(x);
                    },
                }
            },
            _ => {
                let wires = g.qubits();
                let ghost before = self@;
                let mut k: usize = 0;
                while k < wires.len()
                    invariant
                        k <= wires.len(),
                        self.owners_exist(),
                        self@ == before.closed_all(wires@, k as nat),
                    decreases wires.len() - k,
                {
                    self.close_block(wires[k]);
                    k = k + 1;
                }
                self.home.push(None);
            },
        }
    }
}

/// The gates at some places.
fn pick(gates: &Vec<NativeGate>, members: &Vec<usize>) -> (r: Vec<NativeGate>)
    requires
        forall|k: int| 0 <= k < members.len() ==> (#[trigger] members@[k]) < gates.len(),
    ensures
        r@ == picked(gates@, members@),
{
    let mut out: Vec<NativeGate> = Vec::new();
    while out.len() < members.len()
        invariant
            out.len() <= members.len(),
            forall|k: int| 0 <= k < members.len() ==> (#[trigger] members@[k]) < gates.len(),
            forall|k: int| 0 <= k < out.len() ==> #[trigger] out@[k] == gates@[members@[k] as int],
        decreases members.len() - out.len(),
    {
        let g = gates[members[out.len()]].copy();
        out.push(g);
    }
    assert(out@ =~= picked(gates@, members@));
    out
}

fn has_two_doubles(gates: &Vec<NativeGate>) -> (r: bool)
    ensures
        r == (count_double(gates@) >= 2),
{
    let mut doubles: usize = 0;
    let mut i: usize = 0;
    assert(gates@.take(0) =~= Seq::empty());
    while i < gates.len()
        invariant
            i <= gates.len(),
            doubles <= i,
            doubles == count_double(gates@.take(i as int)),
        decreases gates.len() - i,
    {
        assert(gates@.take(i + 1).drop_last() =~= gates@.take(i as int));
        if kind_of(&gates[i]) == 2 {
            doubles = doubles + 1;
        }
        i = i + 1;
    }
    assert(gates@.take(i as int) =~= gates@);
    doubles >= 2
}

/// Replaces every run with at least two two-qubit rotations by what `synth`
/// makes of it. All other gates stay as they are.
pub fn resynthesize_native_circuit<S: Fn(&Vec<NativeGate>, usize, usize) -> Vec<NativeGate>>(
    circuit: &NativeCircuit,
    synth: &S,
) -> (r: NativeCircuit)
    requires
        always_replaces(*synth),
    ensures
        r.num_qubits == circuit.num_qubits,
        r.num_clbits == circuit.num_clbits,
        forall|s: SynthesisOf| #[trigger]
            replaces(*synth, s) ==> r.gates@ == resynthesized(circuit.gates@, s),
{
    let gates = &circuit.gates;
    let mut c = Collector { blocks: Vec::new(), owner: HashMap::new(), home: Vec::new() };
    assert(c@.runs =~= scan(gates@, 0).runs);
    assert(c@.owner =~= scan(gates@, 0).owner);
    assert(c@.home =~= scan(gates@, 0).home);
    let mut i: usize = 0;
    while i < gates.len()
        invariant
            i <= gates.len(),
            c.owners_exist(),
            c@ == scan(gates@, i as nat),
        decreases gates.len() - i,
    {
        c.take_in(&gates[i]);
        i = i + 1;
    }
    let ghost sc = c@;
    proof {
        lemma_scan(gates@, gates@.len());
        assert forall|x: int, k: int|
            0 <= x < c.blocks.len() && 0 <= k < c.blocks@[x].members.len() implies (
        #[trigger] c.blocks@[x].members@[k]) < gates.len() by {
            assert(run_sound(gates@, sc, sc.runs[x], x));
            assert(member_sound(gates@, sc, sc.runs[x], x, sc.runs[x].members[k]));
        }
    }
    let mut worth: Vec<bool> = Vec::new();
    while worth.len() < c.blocks.len()
        invariant
            worth.len() <= c.blocks.len(),
            sc == c@,
            forall|x: int, k: int|
                0 <= x < c.blocks.len() && 0 <= k < c.blocks@[x].members.len() ==> (
                #[trigger] c.blocks@[x].members@[k]) < gates.len(),
            forall|x: int| 0 <= x < worth.len() ==> #[trigger] worth@[x] == worthwhile(gates@, sc, x),
        decreases c.blocks.len() - worth.len(),
    {
        let ghost x = worth@.len() as int;
        assert(sc.runs[x] == c.blocks@[x]@);
        let w = has_two_doubles(&pick(gates, &c.blocks[worth.len()].members));
        worth.push(w);
    }
    let mut out: Vec<NativeGate> = Vec::new();
    let mut k: usize = 0;
    assert forall|s: SynthesisOf| #[trigger] replaces(*synth, s) implies out@ == emitted_all(
        gates@,
        sc,
        s,
        0,
    ) by {
        assert(out@ =~= emitted_all(gates@, sc, s, 0));
    }
    while k < gates.len()
        invariant
            k <= gates.len(),
            sc == c@,
            sound(gates@, sc, gates@.len()),
            always_replaces(*synth),
            worth.len() == c.blocks.len(),
            forall|x: int, k: int|
                0 <= x < c.blocks.len() && 0 <= k < c.blocks@[x].members.len() ==> (
                #[trigger] c.blocks@[x].members@[k]) < gates.len(),
            forall|x: int| 0 <= x < worth.len() ==> #[trigger] worth@[x] == worthwhile(gates@, sc, x),
            forall|s: SynthesisOf| #[trigger]
                replaces(*synth, s) ==> out@ == emitted_all(gates@, sc, s, k as nat),
        decreases gates.len() - k,
    {
        let ghost before = out@;
        match c.home[k] {
            Some(x) => {
                assert(sc.home[k as int] == Some(x));
                assert(sc.runs[x as int] == c.blocks@[x as int]@);
                assert(run_sound(gates@, sc, sc.runs[x as int], x as int));
                if worth[x] {
                    if c.blocks[x].members[0] == k {
                        let part = pick(gates, &c.blocks[x].members);
                        let mut more = synth(&part, c.blocks[x].lo, c.blocks[x].hi);
                        let ghost added = more@;
                        out.append(&mut more);
                        proof {
                            assert forall|s: SynthesisOf| #[trigger] replaces(*synth, s) implies added
                                == emitted(gates@, sc, s, k as int) by {}
                        }
                    }
                } else {
                    out.push(gates[k].copy());
                }
            },
            None => {
                out.push(gates[k].copy());
            },
        }
        k = k + 1;
        proof {
            assert forall|s: SynthesisOf| #[trigger] replaces(*synth, s) implies out@ == emitted_all(
                gates@,
                sc,
                s,
                k as nat,
            ) by {
                assert(before == emitted_all(gates@, sc, s, (k - 1) as nat));
                assert(out@ =~= before + emitted(gates@, sc, s, k - 1));
            }
        }
    }
    NativeCircuit { num_qubits: circuit.num_qubits, num_clbits: circuit.num_clbits, gates: out }
}

/// Whether gates are plain rotations on a pair of qubits.
pub open spec fn is_run(gates: Seq<NativeGate>, lo: usize, hi: usize) -> bool {
    forall|i: int| 0 <= i < gates.len() ==> in_pair(#[trigger] gates[i], lo, hi)
}

/// Whether two gates share no qubit.
pub open spec fn apart(a: NativeGate, b: NativeGate) -> bool {
    forall|q: usize| #[trigger] b.wires().contains(q) ==> !a.wires().contains(q)
}

/// What resynthesis may do: let a plain rotation change places with a gate
/// on other qubits, and replace a run with at least two two-qubit rotations.
pub open spec fn kak_rule(s: SynthesisOf) -> Rule<NativeGate> {
    |l: Seq<NativeGate>, r: Seq<NativeGate>|
        {
            ||| l.len() == 2 && r == seq![l[1], l[0]] && apart(l[0], l[1]) && !classical(l[1])
            ||| exists|lo: usize, hi: usize|
                #![trigger s(l, lo, hi)]
                is_run(l, lo, hi) && count_double(l) >= 2 && r == s(l, lo, hi)
        }
}

/// What stands for gate `i` once the runs in `set` have been brought
/// together where they start.
spec fn gathered(gates: Seq<NativeGate>, sc: Scan, set: spec_fn(int) -> bool, i: int) -> Seq<
    NativeGate,
> {
    match sc.home[i] {
        Some(x) => if set(x as int) {
            if sc.runs[x as int].members[0] == i {
                picked(gates, sc.runs[x as int].members)
            } else {
                Seq::empty()
            }
        } else {
            seq![gates[i]]
        },
        None => seq![gates[i]],
    }
}

/// The same for the gates from `from` up to before `to`.
spec fn gathered_all(
    gates: Seq<NativeGate>,
    sc: Scan,
    set: spec_fn(int) -> bool,
    from: int,
    to: int,
) -> Seq<NativeGate>
    decreases to - from,
{
    if to <= from {
        Seq::empty()
    } else {
        gathered_all(gates, sc, set, from, to - 1) + gathered(gates, sc, set, to - 1)
    }
}

proof fn lemma_gathered_split(
    gates: Seq<NativeGate>,
    sc: Scan,
    set: spec_fn(int) -> bool,
    from: int,
    mid: int,
    to: int,
)
    requires
        from <= mid <= to,
    ensures
        gathered_all(gates, sc, set, from, to) == gathered_all(gates, sc, set, from, mid)
            + gathered_all(gates, sc, set, mid, to),
    decreases to - mid,
{
    if mid < to {
        lemma_gathered_split(gates, sc, set, from, mid, to - 1);
        assert(gathered_all(gates, sc, set, from, to) =~= gathered_all(gates, sc, set, from, mid)
            + gathered_all(gates, sc, set, mid, to));
    } else {
        assert(gathered_all(gates, sc, set, from, to) =~= gathered_all(gates, sc, set, from, mid)
            + gathered_all(gates, sc, set, mid, to));
    }
}

/// Where two scans agree on what stands for gates, they agree on all of it.
proof fn lemma_gathered_same(
    gates: Seq<NativeGate>,
    a: Scan,
    b: Scan,
    set: spec_fn(int) -> bool,
    from: int,
    to: int,
)
    requires
        forall|i: int|
            from <= i < to ==> #[trigger] gathered(gates, a, set, i) == gathered(gates, b, set, i),
    ensures
        gathered_all(gates, a, set, from, to) == gathered_all(gates, b, set, from, to),
    decreases to - from,
{
    if from < to {
        lemma_gathered_same(gates, a, b, set, from, to - 1);
        assert(gathered(gates, a, set, to - 1) == gathered(gates, b, set, to - 1));
    }
}

/// What stands behind the start of an open run and is not of it misses its
/// qubits.
proof fn lemma_gathered_misses(
    gates: Seq<NativeGate>,
    sc: Scan,
    n: nat,
    set: spec_fn(int) -> bool,
    q: usize,
    to: int,
)
    requires
        sound(gates, sc, n),
        sc.owner.dom().contains(q),
        set(sc.owner[q] as int),
        sc.runs[sc.owner[q] as int].members[0] < to <= n,
    ensures
        forall|k: int|
            #![trigger gathered_all(gates, sc, set, sc.runs[sc.owner[q] as int].members[0] + 1, to)[k]]
            0 <= k < gathered_all(
                gates,
                sc,
                set,
                sc.runs[sc.owner[q] as int].members[0] + 1,
                to,
            ).len() ==> {
                let g = gathered_all(
                    gates,
                    sc,
                    set,
                    sc.runs[sc.owner[q] as int].members[0] + 1,
                    to,
                )[k];
                misses(g, sc.runs[sc.owner[q] as int].lo) && misses(
                    g,
                    sc.runs[sc.owner[q] as int].hi,
                )
            },
    decreases to,
{
    let x = sc.owner[q];
    let run = sc.runs[x as int];
    let from = run.members[0] + 1;
    assert(owner_sound(gates, sc, q));
    if from < to {
        lemma_gathered_misses(gates, sc, n, set, q, to - 1);
        let i = to - 1;
        let piece = gathered(gates, sc, set, i);
        assert forall|k: int| 0 <= k < piece.len() implies misses(#[trigger] piece[k], run.lo)
            && misses(piece[k], run.hi) by {
            match sc.home[i] {
                Some(y) => {
                    if y != x {
                        let other = sc.runs[y as int];
                        assert(run_sound(gates, sc, other, y as int));
                        if set(y as int) {
                            let m = other.members[k];
                            assert(member_sound(gates, sc, other, y as int, m));
                            assert(sc.home[m as int] != Some(x));
                        }
                    }
                },
                None => {},
            }
        }
    }
}

/// What one gate does to a scan.
proof fn lemma_step(gates: Seq<NativeGate>, m: nat)
    requires
        m < gates.len() <= usize::MAX,
    ensures
        ({
            let a = scan(gates, m);
            let b = scan(gates, m + 1);
            let h = b.home.last();
            &&& b.home == a.home.push(h)
            &&& h is None ==> b.runs == a.runs
            &&& h matches Some(x) ==> {
                ||| {
                    &&& x < a.runs.len()
                    &&& b.runs == a.runs.update(
                        x as int,
                        Run { members: a.runs[x as int].members.push(m as usize), ..a.runs[x as int] },
                    )
                    &&& a.owner.dom().contains(a.runs[x as int].lo)
                    &&& a.owner[a.runs[x as int].lo] == x
                    &&& in_pair(gates[m as int], a.runs[x as int].lo, a.runs[x as int].hi)
                }
                ||| {
                    &&& x == a.runs.len()
                    &&& b.runs.len() == x + 1
                    &&& b.runs.drop_last() == a.runs
                    &&& b.runs.last().members == seq![m as usize]
                }
            }
        }),
{
    let a = scan(gates, m);
    let b = scan(gates, m + 1);
    let g = gates[m as int];
    lemma_scan(gates, m);
    match g {
        NativeGate::Rz(q, _) | NativeGate::Ry(q, _) => {
            if a.owner.dom().contains(q) {
                assert(owner_sound(gates, a, q));
            }
        },
        NativeGate::Rzz(p, q, _) => {
            let (lo, hi) = if p < q {
                (p, q)
            } else {
                (q, p)
            };
            if a.open_on(lo, hi) {
                assert(owner_sound(gates, a, lo));
            } else {
                lemma_closed(gates, a, m, lo);
                lemma_closed(gates, a.closed(lo), m, hi);
                assert(b.runs.drop_last() =~= a.runs);
                assert(b.runs.last().members =~= seq![m as usize]);
            }
        },
        _ => {
            lemma_closed_all(gates, a, m, g.wires(), g.wires().len());
        },
    }
}

/// One gate changes nothing that stands for an earlier one, but at the start
/// of the run that it joins.
proof fn lemma_piece_kept(gates: Seq<NativeGate>, set: spec_fn(int) -> bool, m: nat, i: int)
    requires
        m < gates.len() <= usize::MAX,
        0 <= i < m,
        ({
            let b = scan(gates, m + 1);
            b.home.last() matches Some(x) ==> !(set(x as int) && b.runs[x as int].members[0] == i)
        }),
    ensures
        gathered(gates, scan(gates, m), set, i) == gathered(gates, scan(gates, m + 1), set, i),
{
    let a = scan(gates, m);
    let b = scan(gates, m + 1);
    lemma_step(gates, m);
    lemma_scan(gates, m);
    assert(b.home[i] == a.home[i]);
    if let Some(y) = a.home[i] {
        assert(run_sound(gates, a, a.runs[y as int], y as int));
        if let Some(x) = b.home.last() {
            if x == a.runs.len() {
                assert(b.runs.drop_last()[y as int] == a.runs[y as int]);
            }
        }
    }
}

/// A gate moves to the end of the open run that it joins.
proof fn lemma_move_into_run(
    gates: Seq<NativeGate>,
    s: SynthesisOf,
    set: spec_fn(int) -> bool,
    m: nat,
)
    requires
        m < gates.len() <= usize::MAX,
        ({
            let b = scan(gates, m + 1);
            b.home.last() matches Some(x) && set(x as int) && b.runs[x as int].members[0] != m
        }),
    ensures
        reaches(
            kak_rule(s),
            gathered_all(gates, scan(gates, m), set, 0, m as int).push(gates[m as int]),
            gathered_all(gates, scan(gates, m + 1), set, 0, (m + 1) as int),
        ),
{
    let rule = kak_rule(s);
    let a = scan(gates, m);
    let b = scan(gates, m + 1);
    let g = gates[m as int];
    let x = b.home.last()->0;
    lemma_scan(gates, m);
    lemma_step(gates, m);
    let run = a.runs[x as int];
    assert(b.runs.last().members == seq![m as usize] ==> x < a.runs.len() || b.runs[x as int]
        == b.runs.last());
    assert(x < a.runs.len());
    assert(run_sound(gates, a, run, x as int));
    assert(member_sound(gates, a, run, x as int, run.members[0]));
    let f = run.members[0] as int;
    let now = b.runs[x as int].members;
    assert(now == run.members.push(m as usize));
    assert(now[0] == f);
    let left = gathered_all(gates, a, set, 0, f);
    let chunk = picked(gates, run.members);
    let right = gathered_all(gates, a, set, f + 1, m as int);
    let none = Seq::<NativeGate>::empty();
    lemma_gathered_split(gates, a, set, 0, f, m as int);
    lemma_gathered_split(gates, a, set, f, f + 1, m as int);
    assert(gathered_all(gates, a, set, f, f) == none);
    assert(gathered_all(gates, a, set, f, f + 1) =~= chunk);
    lemma_gathered_split(gates, b, set, 0, f, (m + 1) as int);
    lemma_gathered_split(gates, b, set, f, f + 1, (m + 1) as int);
    assert(b.home[f] == a.home[f]);
    assert(gathered_all(gates, b, set, f, f) == none);
    assert(gathered_all(gates, b, set, f, f + 1) =~= picked(gates, now));
    assert(picked(gates, now) =~= chunk.push(g));
    assert forall|i: int| 0 <= i < m && i != f implies #[trigger] gathered(gates, a, set, i)
        == gathered(gates, b, set, i) by {
        lemma_piece_kept(gates, set, m, i);
    }
    lemma_gathered_same(gates, a, b, set, 0, f);
    lemma_gathered_same(gates, a, b, set, f + 1, m as int);
    assert(gathered(gates, b, set, m as int) == none);
    assert(gathered_all(gates, b, set, f + 1, (m + 1) as int) =~= right);
    // Everything behind the run is on other qubits.
    let q = run.lo;
    assert(owner_sound(gates, a, q));
    lemma_gathered_misses(gates, a, m, set, q, m as int);
    assert forall|k: int| 0 <= k < right.len() implies rule(
        seq![#[trigger] right[k], g],
        seq![g, right[k]],
    ) by {
        let l = seq![right[k], g];
        let h = gathered_all(gates, a, set, a.runs[a.owner[q] as int].members[0] + 1, m as int)[k];
        assert(misses(h, run.lo) && misses(h, run.hi));
        assert(apart(l[0], l[1]));
        assert(seq![g, right[k]] =~= seq![l[1], l[0]]);
    }
    lemma_reaches_front(rule, right, g);
    lemma_reaches_within(rule, left + chunk, right.push(g), seq![g] + right, none);
    assert(gathered_all(gates, a, set, 0, m as int).push(g) =~= left + chunk + right.push(g) + none);
    assert(gathered_all(gates, b, set, 0, (m + 1) as int) =~= left + chunk + (seq![g] + right) + none);
}

/// The gates can be brought together by moving plain rotations past gates on
/// other qubits.
proof fn lemma_gathering(
    gates: Seq<NativeGate>,
    s: SynthesisOf,
    set: spec_fn(int) -> bool,
    n: nat,
)
    requires
        n <= gates.len() <= usize::MAX,
    ensures
        reaches(kak_rule(s), gates.take(n as int), gathered_all(gates, scan(gates, n), set, 0, n as int)),
    decreases n,
{
    let rule = kak_rule(s);
    let none = Seq::<NativeGate>::empty();
    if n == 0 {
        lemma_reaches_self(rule, gates.take(0));
        assert(gates.take(0) =~= gathered_all(gates, scan(gates, 0), set, 0, 0));
    } else {
        let m = (n - 1) as nat;
        lemma_gathering(gates, s, set, m);
        lemma_scan(gates, m);
        lemma_scan(gates, n);
        let a = scan(gates, m);
        let b = scan(gates, n);
        let g = gates[m as int];
        let before = gathered_all(gates, a, set, 0, m as int);
        lemma_reaches_within(rule, none, gates.take(m as int), before, seq![g]);
        assert(none + gates.take(m as int) + seq![g] =~= gates.take(n as int));
        assert(none + before + seq![g] =~= before.push(g));
        lemma_step(gates, m);
        match b.home[m as int] {
            None => {
                assert forall|i: int| 0 <= i < m implies #[trigger] gathered(gates, a, set, i)
                    == gathered(gates, b, set, i) by {
                    lemma_piece_kept(gates, set, m, i);
                }
                lemma_gathered_same(gates, a, b, set, 0, m as int);
                assert(gathered_all(gates, b, set, 0, n as int) =~= before.push(g));
            },
            Some(x) => {
                let run = b.runs[x as int];
                assert(run_sound(gates, b, run, x as int));
                if !set(x as int) || run.members[0] == m {
                    assert forall|i: int| 0 <= i < m implies #[trigger] gathered(gates, a, set, i)
                        == gathered(gates, b, set, i) by {
                        lemma_piece_kept(gates, set, m, i);
                    }
                    lemma_gathered_same(gates, a, b, set, 0, m as int);
                    if run.members[0] == m {
                        assert(picked(gates, run.members) =~= seq![g]);
                    }
                    assert(gathered_all(gates, b, set, 0, n as int) =~= before.push(g));
                } else {
                    lemma_move_into_run(gates, s, set, m);
                    lemma_reaches_transitive(
                        rule,
                        gates.take(n as int),
                        before.push(g),
                        gathered_all(gates, b, set, 0, n as int),
                    );
                }
            },
        }
    }
}

/// The set of the runs that are worth replacing.
spec fn worth_set(gates: Seq<NativeGate>, sc: Scan) -> spec_fn(int) -> bool {
    |x: int| worthwhile(gates, sc, x)
}

/// Runs that stand together can be replaced.
proof fn lemma_replacing(gates: Seq<NativeGate>, s: SynthesisOf, n: nat)
    requires
        n <= gates.len() <= usize::MAX,
    ensures
        ({
            let sc = scan(gates, gates.len());
            reaches(
                kak_rule(s),
                gathered_all(gates, sc, worth_set(gates, sc), 0, n as int),
                emitted_all(gates, sc, s, n),
            )
        }),
    decreases n,
{
    let rule = kak_rule(s);
    let sc = scan(gates, gates.len());
    let set = worth_set(gates, sc);
    let none = Seq::<NativeGate>::empty();
    if n == 0 {
        lemma_reaches_self(rule, none);
    } else {
        lemma_replacing(gates, s, (n - 1) as nat);
        lemma_scan(gates, gates.len());
        let i = n - 1;
        let x = gathered_all(gates, sc, set, 0, i);
        let y = emitted_all(gates, sc, s, i as nat);
        let l = gathered(gates, sc, set, i);
        let r = emitted(gates, sc, s, i);
        lemma_reaches_within(rule, none, x, y, l);
        assert(none + x + l =~= x + l);
        assert(none + y + l =~= y + l);
        if l != r {
            let run = sc.runs[sc.home[i]->0 as int];
            assert(run_sound(gates, sc, run, sc.home[i]->0 as int));
            assert forall|k: int| 0 <= k < l.len() implies in_pair(#[trigger] l[k], run.lo, run.hi) by {
                assert(member_sound(gates, sc, run, sc.home[i]->0 as int, run.members[k]));
            }
            assert(is_run(l, run.lo, run.hi));
            assert(r == s(l, run.lo, run.hi));
            assert(rule(l, r));
            lemma_reaches_once(rule, y, l, r, none);
            assert(y + l + none =~= y + l);
            assert(y + r + none =~= y + r);
            lemma_reaches_transitive(rule, x + l, y + l, y + r);
        }
    }
}

/// Resynthesis only moves plain rotations past gates on other qubits and
/// replaces runs on a pair of qubits.
pub proof fn lemma_resynthesized(gates: Seq<NativeGate>, s: SynthesisOf)
    requires
        gates.len() <= usize::MAX,
    ensures
        reaches(kak_rule(s), gates, resynthesized(gates, s)),
{
    let n = gates.len();
    let sc = scan(gates, n);
    let set = worth_set(gates, sc);
    lemma_gathering(gates, s, set, n);
    lemma_replacing(gates, s, n);
    assert(gates.take(n as int) =~= gates);
    lemma_reaches_transitive(
        kak_rule(s),
        gates,
        gathered_all(gates, sc, set, 0, n as int),
        resynthesized(gates, s),
    );
}

/// Where replacements hold plain rotations only, measurements and
/// conditioned gates are neither dropped nor reordered.
pub proof fn lemma_resynthesized_keeps_classical(gates: Seq<NativeGate>, s: SynthesisOf)
    requires
        gates.len() <= usize::MAX,
        forall|v: Seq<NativeGate>, lo: usize, hi: usize, k: int|
            0 <= k < s(v, lo, hi).len() ==> !classical(#[trigger] s(v, lo, hi)[k]),
    ensures
        resynthesized(gates, s).filter(|g: NativeGate| classical(g)) == gates.filter(
            |g: NativeGate| classical(g),
        ),
{
    let kind = |g: NativeGate| classical(g);
    let rule = kak_rule(s);
    assert(keeps(rule, kind)) by {
        assert forall|l: Seq<NativeGate>, r: Seq<NativeGate>| #[trigger]
            rule(l, r) implies l.filter(kind) == r.filter(kind) by {
            if l.len() == 2 && r == seq![l[1], l[0]] && apart(l[0], l[1]) && !classical(l[1]) {
                reveal_with_fuel(Seq::filter, 3);
                assert(l.drop_last().drop_last() =~= Seq::empty());
                assert(r.drop_last().drop_last() =~= Seq::empty());
                assert(r.drop_last()[0] == l[1]);
            } else {
                let (lo, hi) = choose|lo: usize, hi: usize|
                    #![trigger s(l, lo, hi)]
                    is_run(l, lo, hi) && count_double(l) >= 2 && r == s(l, lo, hi);
                assert forall|k: int| 0 <= k < l.len() implies !classical(#[trigger] l[k]) by {
                    assert(in_pair(l[k], lo, hi));
                }
                assert forall|k: int| 0 <= k < r.len() implies !classical(#[trigger] r[k]) by {
                    assert(!classical(s(l, lo, hi)[k]));
                }
                lemma_nothing_classical(l);
                lemma_nothing_classical(r);
            }
        }
    }
    lemma_resynthesized(gates, s);
    lemma_reaches_keeps(rule, kind, gates, resynthesized(gates, s));
}

proof fn lemma_nothing_classical(v: Seq<NativeGate>)
    requires
        forall|k: int| 0 <= k < v.len() ==> !classical(#[trigger] v[k]),
    ensures
        v.filter(|g: NativeGate| classical(g)) == Seq::<NativeGate>::empty(),
    decreases v.len(),
{
    let kind = |g: NativeGate| classical(g);
    reveal(Seq::filter);
    if v.len() > 0 {
        assert forall|k: int| 0 <= k < v.drop_last().len() implies !classical(
            #[trigger] v.drop_last()[k],
        ) by {
            assert(v.drop_last()[k] == v[k]);
        }
        lemma_nothing_classical(v.drop_last());
        assert(!classical(v[v.len() - 1]));
    }
}

/// A circuit without a run worth replacing stays as it is.
pub proof fn lemma_nothing_to_replace(gates: Seq<NativeGate>, s: SynthesisOf)
    requires
        gates.len() <= usize::MAX,
        forall|x: int|
            0 <= x < scan(gates, gates.len()).runs.len() ==> !#[trigger] worthwhile(
                gates,
                scan(gates, gates.len()),
                x,
            ),
    ensures
        resynthesized(gates, s) == gates,
{
    lemma_scan(gates, gates.len());
    lemma_emitted_same(gates, s, gates.len());
    assert(gates.take(gates.len() as int) =~= gates);
}

proof fn lemma_emitted_same(gates: Seq<NativeGate>, s: SynthesisOf, n: nat)
    requires
        n <= gates.len() <= usize::MAX,
        sound(gates, scan(gates, gates.len()), gates.len()),
        forall|x: int|
            0 <= x < scan(gates, gates.len()).runs.len() ==> !#[trigger] worthwhile(
                gates,
                scan(gates, gates.len()),
                x,
            ),
    ensures
        emitted_all(gates, scan(gates, gates.len()), s, n) == gates.take(n as int),
    decreases n,
{
    if n > 0 {
        lemma_emitted_same(gates, s, (n - 1) as nat);
        let sc = scan(gates, gates.len());
        assert(sc.home[n - 1] is Some ==> sc.home[n - 1]->0 < sc.runs.len());
        assert(gates.take(n - 1) + seq![gates[n - 1]] =~= gates.take(n as int));
    } else {
        assert(gates.take(0) =~= Seq::empty());
    }
}

/// Two-qubit rotations are counted part by part.
proof fn lemma_count_joined(x: Seq<NativeGate>, y: Seq<NativeGate>)
    ensures
        count_double(x + y) == count_double(x) + count_double(y),
    decreases y.len(),
{
    if y.len() == 0 {
        assert(x + y =~= x);
    } else {
        lemma_count_joined(x, y.drop_last());
        assert((x + y).drop_last() =~= x + y.drop_last());
    }
}

proof fn lemma_count_if_turns(a: Binary64, g: NativeGate)
    ensures
        count_double(if_turns(a, g)) == (if turns(a) && is_double(g) {
            1nat
        } else {
            0
        }),
{
    assert(count_double(Seq::<NativeGate>::empty()) == 0);
    assert(seq![g].drop_last() =~= Seq::<NativeGate>::empty());
}

proof fn lemma_count_euler(q: usize, x: Euler)
    ensures
        count_double(euler_natives(q, x)) == 0,
{
    let a = if_turns(x.delta, NativeGate::Rz(q, x.delta));
    let b = if_turns(x.gamma, NativeGate::Ry(q, x.gamma));
    let c = if_turns(x.beta, NativeGate::Rz(q, x.beta));
    lemma_count_if_turns(x.delta, NativeGate::Rz(q, x.delta));
    lemma_count_if_turns(x.gamma, NativeGate::Ry(q, x.gamma));
    lemma_count_if_turns(x.beta, NativeGate::Rz(q, x.beta));
    lemma_count_joined(a, b);
    lemma_count_joined(a + b, c);
}

proof fn lemma_count_both(q0: usize, q1: usize, t: Turn, e: EulerOf)
    ensures
        count_double(both(q0, q1, t, e)) == 0,
{
    lemma_count_euler(q0, e(seq![t]));
    lemma_count_euler(q1, e(seq![t]));
    lemma_count_joined(single_gates(q0, t, e), single_gates(q1, t, e));
}

/// How many of the three coefficients of an operation make a rotation.
pub open spec fn core_count(k: Kak) -> nat {
    let one = |c: Binary64| if turns(c) { 1nat } else { 0nat };
    one(k.a) + one(k.b) + one(k.c)
}

/// A two-qubit operation takes one two-qubit rotation for each coefficient
/// that is not zero, and so at most three.
pub proof fn lemma_at_most_three(k: Kak, q0: usize, q1: usize, e: EulerOf)
    ensures
        count_double(kak_gates(k, q0, q1, e)) == core_count(k),
        count_double(kak_gates(k, q0, q1, e)) <= 3,
{
    let quarter = Binary64 { bits: HALF_PI_BITS };
    let parts = seq![
        euler_natives(q0, k.k3),
        euler_natives(q1, k.k4),
        both(q0, q1, Turn::H, e),
        core_gate(q0, q1, k.a),
        both(q0, q1, Turn::H, e),
        both(q0, q1, Turn::Rx(quarter), e),
        core_gate(q0, q1, k.b),
        both(q0, q1, Turn::Rx(negated(quarter)), e),
        core_gate(q0, q1, k.c),
        euler_natives(q0, k.k1),
        euler_natives(q1, k.k2),
    ];
    lemma_count_euler(q0, k.k3);
    lemma_count_euler(q1, k.k4);
    lemma_count_euler(q0, k.k1);
    lemma_count_euler(q1, k.k2);
    lemma_count_both(q0, q1, Turn::H, e);
    lemma_count_both(q0, q1, Turn::Rx(quarter), e);
    lemma_count_both(q0, q1, Turn::Rx(negated(quarter)), e);
    lemma_count_core(q0, q1, k.a);
    lemma_count_core(q0, q1, k.b);
    lemma_count_core(q0, q1, k.c);
    let p1 = parts[0] + parts[1];
    let p2 = p1 + parts[2];
    let p3 = p2 + parts[3];
    let p4 = p3 + parts[4];
    let p5 = p4 + parts[5];
    let p6 = p5 + parts[6];
    let p7 = p6 + parts[7];
    let p8 = p7 + parts[8];
    let p9 = p8 + parts[9];
    lemma_count_joined(parts[0], parts[1]);
    lemma_count_joined(p1, parts[2]);
    lemma_count_joined(p2, parts[3]);
    lemma_count_joined(p3, parts[4]);
    lemma_count_joined(p4, parts[5]);
    lemma_count_joined(p5, parts[6]);
    lemma_count_joined(p6, parts[7]);
    lemma_count_joined(p7, parts[8]);
    lemma_count_joined(p8, parts[9]);
    lemma_count_joined(p9, parts[10]);
    assert(kak_gates(k, q0, q1, e) == p9 + parts[10]);
}

proof fn lemma_count_core(q0: usize, q1: usize, c: Binary64)
    ensures
        count_double(core_gate(q0, q1, c)) == (if turns(c) {
            1nat
        } else {
            0
        }),
{
    lemma_count_if_turns(
        c,
        NativeGate::Rzz(q0, q1, product(Binary64 { bits: MINUS_TWO_BITS }, c)),
    );
}

/// What replaces run `x` of a circuit.
pub open spec fn replacement(gates: Seq<NativeGate>, s: SynthesisOf, x: int) -> Seq<NativeGate> {
    let run = scan(gates, gates.len()).runs[x];
    s(picked(gates, run.members), run.lo, run.hi)
}

/// The gates of run `x` of a circuit.
pub open spec fn run_gates(gates: Seq<NativeGate>, x: int) -> Seq<NativeGate> {
    picked(gates, scan(gates, gates.len()).runs[x].members)
}

/// Replacements that make no run longer; a run that would get longer stays.
spec fn thrifty(s: SynthesisOf) -> SynthesisOf {
    |l: Seq<NativeGate>, lo: usize, hi: usize|
        if count_double(s(l, lo, hi)) <= count_double(l) {
            s(l, lo, hi)
        } else {
            l
        }
}

proof fn lemma_emitted_thrifty(gates: Seq<NativeGate>, s: SynthesisOf, n: nat)
    requires
        n <= gates.len() <= usize::MAX,
        sound(gates, scan(gates, gates.len()), gates.len()),
        forall|x: int|
            0 <= x < scan(gates, gates.len()).runs.len() && #[trigger] worthwhile(
                gates,
                scan(gates, gates.len()),
                x,
            ) ==> count_double(replacement(gates, s, x)) <= count_double(run_gates(gates, x)),
    ensures
        emitted_all(gates, scan(gates, gates.len()), s, n) == emitted_all(
            gates,
            scan(gates, gates.len()),
            thrifty(s),
            n,
        ),
    decreases n,
{
    if n > 0 {
        lemma_emitted_thrifty(gates, s, (n - 1) as nat);
        let sc = scan(gates, gates.len());
        if let Some(x) = sc.home[n - 1] {
            assert(x < sc.runs.len());
            if worthwhile(gates, sc, x as int) {
                assert(count_double(replacement(gates, s, x as int)) <= count_double(
                    run_gates(gates, x as int),
                ));
            }
        }
    }
}

/// Where no run is replaced by one with more two-qubit rotations, the whole
/// circuit gets no more of them.
pub proof fn lemma_no_more_doubles(gates: Seq<NativeGate>, s: SynthesisOf)
    requires
        gates.len() <= usize::MAX,
        forall|x: int|
            0 <= x < scan(gates, gates.len()).runs.len() && #[trigger] worthwhile(
                gates,
                scan(gates, gates.len()),
                x,
            ) ==> count_double(replacement(gates, s, x)) <= count_double(run_gates(gates, x)),
    ensures
        count_double(resynthesized(gates, s)) <= count_double(gates),
{
    let t = thrifty(s);
    let rule = kak_rule(t);
    let f = |v: Seq<NativeGate>| count_double(v);
    lemma_scan(gates, gates.len());
    lemma_emitted_thrifty(gates, s, gates.len());
    lemma_resynthesized(gates, t);
    assert(lowers(rule, f)) by {
        assert forall|x: Seq<NativeGate>, y: Seq<NativeGate>| #[trigger] f(x + y) == f(x) + f(y) by {
            lemma_count_joined(x, y);
        }
        assert forall|l: Seq<NativeGate>, r: Seq<NativeGate>| #[trigger] rule(l, r) implies f(r) <= f(
            l,
        ) by {
            if l.len() == 2 && r == seq![l[1], l[0]] {
                assert(l =~= seq![l[0]] + seq![l[1]]);
                assert(r =~= seq![l[1]] + seq![l[0]]);
                lemma_count_joined(seq![l[0]], seq![l[1]]);
                lemma_count_joined(seq![l[1]], seq![l[0]]);
            }
        }
    }
    lemma_reaches_lowers(rule, f, gates, resynthesized(gates, t));
}

/// Where a run with three two-qubit rotations or more is replaced by one with
/// at most three, as [`kak_gates`] has them, and one with two by one with at
/// most two, the whole circuit gets no more of them.
pub proof fn lemma_long_runs_shrink(gates: Seq<NativeGate>, s: SynthesisOf)
    requires
        gates.len() <= usize::MAX,
        forall|v: Seq<NativeGate>, lo: usize, hi: usize|
            count_double(v) >= 3 ==> count_double(#[trigger] s(v, lo, hi)) <= 3,
        forall|x: int|
            0 <= x < scan(gates, gates.len()).runs.len() ==> count_double(
                #[trigger] run_gates(gates, x),
            ) != 2 || count_double(replacement(gates, s, x)) <= 2,
    ensures
        count_double(resynthesized(gates, s)) <= count_double(gates),
{
    let sc = scan(gates, gates.len());
    assert forall|x: int| 0 <= x < sc.runs.len() && #[trigger] worthwhile(gates, sc, x) implies
        count_double(replacement(gates, s, x)) <= count_double(run_gates(gates, x)) by {
        let run = sc.runs[x];
        let v = run_gates(gates, x);
        assert(count_double(v) >= 3 ==> count_double(s(v, run.lo, run.hi)) <= 3);
    }
    lemma_no_more_doubles(gates, s);
}

} // verus!
