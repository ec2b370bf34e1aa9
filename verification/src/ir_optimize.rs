//! Cancels and merges gates of source circuits.
//!
//! Inverse neighbors cancel and rotations about one axis merge. Gates move
//! past gates that they commute with to meet such a partner. Measurements
//! and conditioned gates are never moved.
use crate::binary64::{absolute, below, sum, Binary64};
use crate::ir::{copy_gates, Circuit, Gate};
use crate::rewrite::{
    keeps, lemma_reaches_keeps, lemma_reaches_once, lemma_reaches_self, lemma_reaches_transitive,
    lemma_reaches_within, reaches, Rule,
};
use vstd::prelude::*;

verus! {

/// The bit pattern of `1e-12`.
pub const CANCEL_BITS: u64 = 0x3d71_9799_812d_ea11;

/// Whether two angles cancel.
pub open spec fn opposite(a: Binary64, b: Binary64) -> bool {
    below(absolute(sum(a, b)), Binary64 { bits: CANCEL_BITS })
}

fn are_opposite(a: Binary64, b: Binary64) -> (r: bool)
    ensures
        r == opposite(a, b),
{
    a.plus(b).abs().lt(Binary64 { bits: CANCEL_BITS })
}

/// Whether a gate reads or writes classical bits.
pub open spec fn classical(g: Gate) -> bool {
    g is Measure || g is If
}

pub open spec fn touches(g: Gate, q: usize) -> bool {
    g.wires().contains(q)
}

/// Gates without a common qubit, neither of which is classical.
pub open spec fn disjoint(a: Gate, b: Gate) -> bool {
    !classical(a) && !classical(b) && forall|q: usize| !(#[trigger] touches(a, q) && touches(b, q))
}

/// The qubit of a single-qubit gate that is diagonal.
pub open spec fn diagonal_qubit(g: Gate) -> Option<usize> {
    match g {
        Gate::Z(q) | Gate::S(q) | Gate::Sdg(q) | Gate::T(q) | Gate::Tdg(q) | Gate::Rz(q, _) => Some(q),
        _ => None,
    }
}

/// The qubit of a single-qubit gate about the X axis.
pub open spec fn x_qubit(g: Gate) -> Option<usize> {
    match g {
        Gate::X(q) | Gate::Rx(q, _) => Some(q),
        _ => None,
    }
}

/// A diagonal gate on the control of a `Cx` or on either side of a `Cz`, or
/// a gate about the X axis on the target of a `Cx`.
pub open spec fn slides_through(a: Gate, b: Gate) -> bool {
    match b {
        Gate::Cx(control, target) => diagonal_qubit(a) == Some(control) || x_qubit(a) == Some(target),
        Gate::Cz(x, y) => diagonal_qubit(a) == Some(x) || diagonal_qubit(a) == Some(y),
        _ => false,
    }
}

/// Whether two neighbors can change places.
pub open spec fn commute(a: Gate, b: Gate) -> bool {
    disjoint(a, b) || slides_through(a, b) || slides_through(b, a)
}

pub open spec fn same_pair(a1: usize, b1: usize, a2: usize, b2: usize) -> bool {
    (a1 == a2 && b1 == b2) || (a1 == b2 && b1 == a2)
}

/// Whether `a` and then `b` do nothing.
pub open spec fn inverse(a: Gate, b: Gate) -> bool {
    match (a, b) {
        (Gate::H(p), Gate::H(q)) => p == q,
        (Gate::X(p), Gate::X(q)) => p == q,
        (Gate::Y(p), Gate::Y(q)) => p == q,
        (Gate::Z(p), Gate::Z(q)) => p == q,
        (Gate::Cx(a1, b1), Gate::Cx(a2, b2)) => a1 == a2 && b1 == b2,
        (Gate::Cz(a1, b1), Gate::Cz(a2, b2)) => same_pair(a1, b1, a2, b2),
        (Gate::Swap(a1, b1), Gate::Swap(a2, b2)) => same_pair(a1, b1, a2, b2),
        (Gate::S(p), Gate::Sdg(q)) => p == q,
        (Gate::Sdg(p), Gate::S(q)) => p == q,
        (Gate::T(p), Gate::Tdg(q)) => p == q,
        (Gate::Tdg(p), Gate::T(q)) => p == q,
        (Gate::Rx(p, s), Gate::Rx(q, t)) => p == q && opposite(s, t),
        (Gate::Ry(p, s), Gate::Ry(q, t)) => p == q && opposite(s, t),
        (Gate::Rz(p, s), Gate::Rz(q, t)) => p == q && opposite(s, t),
        (Gate::Rxx(a1, b1, s), Gate::Rxx(a2, b2, t)) => same_pair(a1, b1, a2, b2) && opposite(s, t),
        (Gate::Ryy(a1, b1, s), Gate::Ryy(a2, b2, t)) => same_pair(a1, b1, a2, b2) && opposite(s, t),
        (Gate::Rzz(a1, b1, s), Gate::Rzz(a2, b2, t)) => same_pair(a1, b1, a2, b2) && opposite(s, t),
        (Gate::Cp(a1, b1, s), Gate::Cp(a2, b2, t)) => a1 == a2 && b1 == b2 && opposite(s, t),
        _ => false,
    }
}

/// The single rotation that two rotations of one qubit about one axis make.
pub open spec fn merged(a: Gate, b: Gate) -> Option<Gate> {
    match (a, b) {
        (Gate::Rx(p, s), Gate::Rx(q, t)) => if p == q {
            Some(Gate::Rx(p, sum(s, t)))
        } else {
            None
        },
        (Gate::Ry(p, s), Gate::Ry(q, t)) => if p == q {
            Some(Gate::Ry(p, sum(s, t)))
        } else {
            None
        },
        (Gate::Rz(p, s), Gate::Rz(q, t)) => if p == q {
            Some(Gate::Rz(p, sum(s, t)))
        } else {
            None
        },
        _ => None,
    }
}

/// What the optimizer may do to two neighbors.
pub open spec fn ir_rule() -> Rule<Gate> {
    |l: Seq<Gate>, r: Seq<Gate>|
        l.len() == 2 && {
            ||| r == seq![l[1], l[0]] && commute(l[0], l[1])
            ||| r == Seq::<Gate>::empty() && inverse(l[0], l[1])
            ||| r.len() == 1 && merged(l[0], l[1]) == Some(r[0])
        }
}

/// A gate meets the end of a sequence: it cancels, merges, or is added.
pub open spec fn meet(stack: Seq<Gate>, g: Gate) -> Seq<Gate> {
    if stack.len() > 0 && inverse(stack.last(), g) {
        stack.drop_last()
    } else if stack.len() > 0 && merged(stack.last(), g) is Some {
        stack.drop_last().push(merged(stack.last(), g)->0)
    } else {
        stack.push(g)
    }
}

/// The first `n` gates, each met by the next.
pub open spec fn cancelled(gates: Seq<Gate>, n: nat) -> Seq<Gate>
    decreases n,
{
    if n == 0 {
        Seq::empty()
    } else {
        meet(cancelled(gates, (n - 1) as nat), gates[n - 1])
    }
}

/// A gate slides back from position `i`: it cancels or merges with the first
/// partner, or stops in front of the first gate that it cannot pass.
pub open spec fn slid(out: Seq<Gate>, g: Gate, i: nat) -> Seq<Gate>
    decreases i,
{
    if i == 0 || i > out.len() {
        out.insert(0, g)
    } else {
        let c = out[i - 1];
        if inverse(c, g) {
            out.remove(i - 1)
        } else if merged(c, g) is Some {
            out.update(i - 1, merged(c, g)->0)
        } else if commute(c, g) {
            slid(out, g, (i - 1) as nat)
        } else {
            out.insert(i as int, g)
        }
    }
}

/// The first `n` gates, each slid back.
pub open spec fn reordered(gates: Seq<Gate>, n: nat) -> Seq<Gate>
    decreases n,
{
    if n == 0 {
        Seq::empty()
    } else {
        let out = reordered(gates, (n - 1) as nat);
        slid(out, gates[n - 1], out.len())
    }
}

/// One round of both passes.
pub open spec fn round(gates: Seq<Gate>) -> Seq<Gate> {
    let a = cancelled(gates, gates.len());
    let b = reordered(a, a.len());
    cancelled(b, b.len())
}

/// Rounds until one makes the sequence no shorter.
pub open spec fn optimized(gates: Seq<Gate>) -> Seq<Gate>
    decreases gates.len(),
{
    if round(gates).len() >= gates.len() {
        round(gates)
    } else {
        optimized(round(gates))
    }
}

proof fn lemma_meet(stack: Seq<Gate>, g: Gate)
    ensures
        reaches(ir_rule(), stack.push(g), meet(stack, g)),
        meet(stack, g).len() <= stack.len() + 1,
{
    let none = Seq::<Gate>::empty();
    if stack.len() > 0 && (inverse(stack.last(), g) || merged(stack.last(), g) is Some) {
        let p = stack.drop_last();
        let l = seq![stack.last(), g];
        assert(stack.push(g) =~= p + l + none);
        if inverse(stack.last(), g) {
            assert(ir_rule()(l, none));
            lemma_reaches_once(ir_rule(), p, l, none, none);
            assert(p + none + none =~= meet(stack, g));
        } else {
            let r = seq![merged(stack.last(), g)->0];
            assert(ir_rule()(l, r));
            lemma_reaches_once(ir_rule(), p, l, r, none);
            assert(p + r + none =~= meet(stack, g));
        }
    } else {
        lemma_reaches_self(ir_rule(), stack.push(g));
    }
}

/// A pass over a sequence reaches what its steps reach.
proof fn lemma_extend(a: Seq<Gate>, b: Seq<Gate>, g: Gate, c: Seq<Gate>)
    requires
        reaches(ir_rule(), a, b),
        reaches(ir_rule(), b.push(g), c),
    ensures
        reaches(ir_rule(), a.push(g), c),
{
    let none = Seq::<Gate>::empty();
    lemma_reaches_within(ir_rule(), none, a, b, seq![g]);
    assert(none + a + seq![g] =~= a.push(g));
    assert(none + b + seq![g] =~= b.push(g));
    lemma_reaches_transitive(ir_rule(), a.push(g), b.push(g), c);
}

proof fn lemma_cancelled(gates: Seq<Gate>, n: nat)
    requires
        n <= gates.len(),
    ensures
        reaches(ir_rule(), gates.take(n as int), cancelled(gates, n)),
        cancelled(gates, n).len() <= n,
    decreases n,
{
    if n == 0 {
        lemma_reaches_self(ir_rule(), gates.take(0));
        assert(gates.take(0) =~= Seq::empty());
    } else {
        lemma_cancelled(gates, (n - 1) as nat);
        let before = cancelled(gates, (n - 1) as nat);
        lemma_meet(before, gates[n - 1]);
        lemma_extend(gates.take(n - 1), before, gates[n - 1], cancelled(gates, n));
        assert(gates.take(n - 1).push(gates[n - 1]) =~= gates.take(n as int));
    }
}

proof fn lemma_slid(out: Seq<Gate>, g: Gate, i: nat)
    requires
        i <= out.len(),
    ensures
        reaches(ir_rule(), out.insert(i as int, g), slid(out, g, i)),
        slid(out, g, i).len() <= out.len() + 1,
    decreases i,
{
    let at = out.insert(i as int, g);
    if i == 0 {
        lemma_reaches_self(ir_rule(), at);
    } else {
        let c = out[i - 1];
        let p = out.take(i - 1);
        let s = out.skip(i as int);
        let l = seq![c, g];
        let none = Seq::<Gate>::empty();
        assert(at =~= p + l + s);
        if inverse(c, g) {
            assert(ir_rule()(l, none));
            lemma_reaches_once(ir_rule(), p, l, none, s);
            assert(p + none + s =~= out.remove(i - 1));
        } else if merged(c, g) is Some {
            let r = seq![merged(c, g)->0];
            assert(ir_rule()(l, r));
            lemma_reaches_once(ir_rule(), p, l, r, s);
            assert(p + r + s =~= out.update(i - 1, merged(c, g)->0));
        } else if commute(c, g) {
            let r = seq![g, c];
            assert(ir_rule()(l, r));
            lemma_reaches_once(ir_rule(), p, l, r, s);
            assert(p + r + s =~= out.insert(i - 1, g));
            lemma_slid(out, g, (i - 1) as nat);
            lemma_reaches_transitive(
                ir_rule(),
                at,
                out.insert(i - 1, g),
                slid(out, g, (i - 1) as nat),
            );
        } else {
            lemma_reaches_self(ir_rule(), at);
        }
    }
}

proof fn lemma_reordered(gates: Seq<Gate>, n: nat)
    requires
        n <= gates.len(),
    ensures
        reaches(ir_rule(), gates.take(n as int), reordered(gates, n)),
        reordered(gates, n).len() <= n,
    decreases n,
{
    if n == 0 {
        lemma_reaches_self(ir_rule(), gates.take(0));
        assert(gates.take(0) =~= Seq::empty());
    } else {
        lemma_reordered(gates, (n - 1) as nat);
        let out = reordered(gates, (n - 1) as nat);
        let g = gates[n - 1];
        lemma_slid(out, g, out.len());
        assert(out.insert(out.len() as int, g) =~= out.push(g));
        lemma_extend(gates.take(n - 1), out, g, reordered(gates, n));
        assert(gates.take(n - 1).push(g) =~= gates.take(n as int));
    }
}

proof fn lemma_round(gates: Seq<Gate>)
    ensures
        reaches(ir_rule(), gates, round(gates)),
        round(gates).len() <= gates.len(),
{
    let a = cancelled(gates, gates.len());
    let b = reordered(a, a.len());
    lemma_cancelled(gates, gates.len());
    lemma_reordered(a, a.len());
    lemma_cancelled(b, b.len());
    assert(gates.take(gates.len() as int) =~= gates);
    assert(a.take(a.len() as int) =~= a);
    assert(b.take(b.len() as int) =~= b);
    lemma_reaches_transitive(ir_rule(), gates, a, b);
    lemma_reaches_transitive(ir_rule(), gates, b, round(gates));
}

/// The optimizer only exchanges neighbors that commute, removes neighbors
/// that are inverse, and merges rotations about one axis; and it makes no
/// circuit longer.
pub proof fn lemma_optimized(gates: Seq<Gate>)
    ensures
        reaches(ir_rule(), gates, optimized(gates)),
        optimized(gates).len() <= gates.len(),
    decreases gates.len(),
{
    lemma_round(gates);
    if round(gates).len() < gates.len() {
        lemma_optimized(round(gates));
        lemma_reaches_transitive(ir_rule(), gates, round(gates), optimized(round(gates)));
    }
}

/// No gate cancels or merges with the next.
pub open spec fn reduced(gates: Seq<Gate>) -> bool {
    forall|i: int, j: int|
        0 <= i && j == i + 1 && j < gates.len() ==> !#[trigger] inverse(gates[i], gates[j])
            && merged(gates[i], gates[j]) is None
}

proof fn lemma_cancelled_reduced(gates: Seq<Gate>, n: nat)
    requires
        n <= gates.len(),
    ensures
        reduced(cancelled(gates, n)),
    decreases n,
{
    if n > 0 {
        let stack = cancelled(gates, (n - 1) as nat);
        let g = gates[n - 1];
        lemma_cancelled_reduced(gates, (n - 1) as nat);
        let out = meet(stack, g);
        assert forall|i: int, j: int| 0 <= i && j == i + 1 && j < out.len() implies !#[trigger] inverse(
            out[i],
            out[j],
        ) && merged(out[i], out[j]) is None by {
            if j < stack.len() {
                assert(!inverse(stack[i], stack[j]));
            }
        }
    }
}

/// In what the optimizer leaves, no gate cancels or merges with the next.
pub proof fn lemma_optimized_reduced(gates: Seq<Gate>)
    ensures
        reduced(optimized(gates)),
    decreases gates.len(),
{
    let a = cancelled(gates, gates.len());
    let b = reordered(a, a.len());
    if round(gates).len() < gates.len() {
        lemma_optimized_reduced(round(gates));
    } else {
        lemma_cancelled_reduced(b, b.len());
    }
}

/// No rule touches a classical gate.
proof fn lemma_rule_keeps()
    ensures
        keeps(ir_rule(), |g: Gate| classical(g)),
{
    let kind = |g: Gate| classical(g);
    assert forall|l: Seq<Gate>, r: Seq<Gate>| #[trigger] ir_rule()(l, r) implies l.filter(kind)
        == r.filter(kind) by {
        reveal_with_fuel(Seq::filter, 3);
        assert(l.drop_last().drop_last() =~= Seq::empty());
        assert(!classical(l[0]) && !classical(l[1]));
        if r.len() == 2 {
            assert(r.drop_last().drop_last() =~= Seq::empty());
        } else if r.len() == 1 {
            assert(r.drop_last() =~= Seq::empty());
            assert(!classical(r[0]));
        }
    }
}

/// Measurements and conditioned gates are neither dropped nor reordered.
pub proof fn lemma_optimized_keeps_classical(gates: Seq<Gate>)
    ensures
        optimized(gates).filter(|g: Gate| classical(g)) == gates.filter(|g: Gate| classical(g)),
{
    lemma_rule_keeps();
    lemma_optimized(gates);
    lemma_reaches_keeps(ir_rule(), |g: Gate| classical(g), gates, optimized(gates));
}

/// Commuting does not depend on the order.
pub proof fn lemma_commute_symmetric(a: Gate, b: Gate)
    ensures
        commute(a, b) == commute(b, a),
{
    if disjoint(a, b) {
        assert forall|q: usize| !(#[trigger] touches(b, q) && touches(a, q)) by {
            assert(!(touches(a, q) && touches(b, q)));
        }
    }
    if disjoint(b, a) {
        assert forall|q: usize| !(#[trigger] touches(a, q) && touches(b, q)) by {
            assert(!(touches(b, q) && touches(a, q)));
        }
    }
}

fn is_classical(g: &Gate) -> (r: bool)
    ensures
        r == classical(*g),
{
    match g {
        Gate::Measure(_, _) => true,
        Gate::If(_, _) => true,
        _ => false,
    }
}

fn are_disjoint(a: &Gate, b: &Gate) -> (r: bool)
    ensures
        r == disjoint(*a, *b),
{
    if is_classical(a) || is_classical(b) {
        return false;
    }
    let x = a.qubits();
    let y = b.qubits();
    let mut i: usize = 0;
    while i < x.len()
        invariant
            x@ == a.wires(),
            y@ == b.wires(),
            0 <= i <= x.len(),
            forall|k: int, m: int| 0 <= k < i && 0 <= m < y.len() ==> #[trigger] x@[k] != #[trigger] y@[m],
        decreases x.len() - i,
    {
        let mut j: usize = 0;
        while j < y.len()
            invariant
                x@ == a.wires(),
                y@ == b.wires(),
                0 <= i < x.len(),
                0 <= j <= y.len(),
                forall|m: int| 0 <= m < j ==> x@[i as int] != #[trigger] y@[m],
            decreases y.len() - j,
        {
            if x[i] == y[j] {
                proof {
                    let q = x@[i as int];
                    assert(touches(*a, q));
                    assert(y@[j as int] == q);
                    assert(touches(*b, q));
                }
                return false;
            }
            j = j + 1;
        }
        i = i + 1;
    }
    proof {
        assert forall|q: usize| !(#[trigger] touches(*a, q) && touches(*b, q)) by {
            if touches(*a, q) && touches(*b, q) {
                let k = choose|k: int| 0 <= k < x@.len() && x@[k] == q;
                let m = choose|m: int| 0 <= m < y@.len() && y@[m] == q;
                assert(x@[k] != y@[m]);
            }
        }
    }
    true
}

fn diagonal_single_qubit(g: &Gate) -> (r: Option<usize>)
    ensures
        r == diagonal_qubit(*g),
{
    match g {
        Gate::Z(q) | Gate::S(q) | Gate::Sdg(q) | Gate::T(q) | Gate::Tdg(q) | Gate::Rz(q, _) => Some(
            *q,
        ),
        _ => None,
    }
}

fn x_basis_single_qubit(g: &Gate) -> (r: Option<usize>)
    ensures
        r == x_qubit(*g),
{
    match g {
        Gate::X(q) | Gate::Rx(q, _) => Some(*q),
        _ => None,
    }
}

fn is_qubit(o: Option<usize>, q: usize) -> (r: bool)
    ensures
        r == (o == Some(q)),
{
    match o {
        Some(p) => p == q,
        None => false,
    }
}

fn does_slide_through(a: &Gate, b: &Gate) -> (r: bool)
    ensures
        r == slides_through(*a, *b),
{
    match b {
        Gate::Cx(control, target) => is_qubit(diagonal_single_qubit(a), *control) || is_qubit(
            x_basis_single_qubit(a),
            *target,
        ),
        Gate::Cz(x, y) => is_qubit(diagonal_single_qubit(a), *x) || is_qubit(
            diagonal_single_qubit(a),
            *y,
        ),
        _ => false,
    }
}

/// Whether two neighbors can change places.
pub fn commutes(a: &Gate, b: &Gate) -> (r: bool)
    ensures
        r == commute(*a, *b),
{
    are_disjoint(a, b) || does_slide_through(a, b) || does_slide_through(b, a)
}

fn is_same_pair(a1: usize, b1: usize, a2: usize, b2: usize) -> (r: bool)
    ensures
        r == same_pair(a1, b1, a2, b2),
{
    (a1 == a2 && b1 == b2) || (a1 == b2 && b1 == a2)
}

fn is_inverse_pair(a: &Gate, b: &Gate) -> (r: bool)
    ensures
        r == inverse(*a, *b),
{
    match (a, b) {
        (Gate::H(p), Gate::H(q)) => *p == *q,
        (Gate::X(p), Gate::X(q)) => *p == *q,
        (Gate::Y(p), Gate::Y(q)) => *p == *q,
        (Gate::Z(p), Gate::Z(q)) => *p == *q,
        (Gate::Cx(a1, b1), Gate::Cx(a2, b2)) => *a1 == *a2 && *b1 == *b2,
        (Gate::Cz(a1, b1), Gate::Cz(a2, b2)) => is_same_pair(*a1, *b1, *a2, *b2),
        (Gate::Swap(a1, b1), Gate::Swap(a2, b2)) => is_same_pair(*a1, *b1, *a2, *b2),
        (Gate::S(p), Gate::Sdg(q)) => *p == *q,
        (Gate::Sdg(p), Gate::S(q)) => *p == *q,
        (Gate::T(p), Gate::Tdg(q)) => *p == *q,
        (Gate::Tdg(p), Gate::T(q)) => *p == *q,
        (Gate::Rx(p, s), Gate::Rx(q, t)) => *p == *q && are_opposite(*s, *t),
        (Gate::Ry(p, s), Gate::Ry(q, t)) => *p == *q && are_opposite(*s, *t),
        (Gate::Rz(p, s), Gate::Rz(q, t)) => *p == *q && are_opposite(*s, *t),
        (Gate::Rxx(a1, b1, s), Gate::Rxx(a2, b2, t)) => is_same_pair(*a1, *b1, *a2, *b2)
            && are_opposite(*s, *t),
        (Gate::Ryy(a1, b1, s), Gate::Ryy(a2, b2, t)) => is_same_pair(*a1, *b1, *a2, *b2)
            && are_opposite(*s, *t),
        (Gate::Rzz(a1, b1, s), Gate::Rzz(a2, b2, t)) => is_same_pair(*a1, *b1, *a2, *b2)
            && are_opposite(*s, *t),
        (Gate::Cp(a1, b1, s), Gate::Cp(a2, b2, t)) => *a1 == *a2 && *b1 == *b2 && are_opposite(
            *s,
            *t,
        ),
        _ => false,
    }
}

fn try_merge_rotations(a: &Gate, b: &Gate) -> (r: Option<Gate>)
    ensures
        r == merged(*a, *b),
{
    match (a, b) {
        (Gate::Rx(p, s), Gate::Rx(q, t)) => if *p == *q {
            Some(Gate::Rx(*p, s.plus(*t)))
        } else {
            None
        },
        (Gate::Ry(p, s), Gate::Ry(q, t)) => if *p == *q {
            Some(Gate::Ry(*p, s.plus(*t)))
        } else {
            None
        },
        (Gate::Rz(p, s), Gate::Rz(q, t)) => if *p == *q {
            Some(Gate::Rz(*p, s.plus(*t)))
        } else {
            None
        },
        _ => None,
    }
}

fn cancel_pass(gates: &Vec<Gate>) -> (r: Vec<Gate>)
    ensures
        r@ == cancelled(gates@, gates@.len()),
{
    let mut stack: Vec<Gate> = Vec::new();
    let mut i: usize = 0;
    while i < gates.len()
        invariant
            0 <= i <= gates.len(),
            stack@ == cancelled(gates@, i as nat),
        decreases gates.len() - i,
    {
        let g = &gates[i];
        let ghost before = stack@;
        if stack.len() > 0 && is_inverse_pair(&stack[stack.len() - 1], g) {
            stack.pop();
        } else if stack.len() > 0 {
            match try_merge_rotations(&stack[stack.len() - 1], g) {
                Some(m) => {
                    stack.pop();
                    stack.push(m);
                },
                None => {
                    stack.push(g.copy());
                },
            }
        } else {
            stack.push(g.copy());
        }
        assert(stack@ =~= meet(before, *g));
        i = i + 1;
    }
    stack
}

fn commute_forward_pass(gates: &Vec<Gate>) -> (r: Vec<Gate>)
    ensures
        r@ == reordered(gates@, gates@.len()),
{
    let mut out: Vec<Gate> = Vec::new();
    let mut i: usize = 0;
    while i < gates.len()
        invariant
            0 <= i <= gates.len(),
            out@ == reordered(gates@, i as nat),
        decreases gates.len() - i,
    {
        let g = &gates[i];
        let ghost before = out@;
        let mut at: usize = out.len();
        let mut done = false;
        while at > 0 && !done
            invariant
                0 <= at <= before.len(),
                *g == gates@[i as int],
                !done ==> out@ == before && slid(before, *g, before.len()) == slid(
                    before,
                    *g,
                    at as nat,
                ),
                done ==> out@ == slid(before, *g, before.len()),
            ensures
                done ==> out@ == slid(before, *g, before.len()),
                !done ==> out@ == before && at <= before.len() && slid(before, *g, before.len())
                    == before.insert(at as int, *g),
            decreases at, (if done { 0int } else { 1 }),
        {
            if is_inverse_pair(&out[at - 1], g) {
                out.remove(at - 1);
                done = true;
            } else {
                match try_merge_rotations(&out[at - 1], g) {
                    Some(m) => {
                        out.set(at - 1, m);
                        done = true;
                    },
                    None => {
                        if commutes(&out[at - 1], g) {
                            at = at - 1;
                        } else {
                            assert(slid(before, *g, before.len()) == before.insert(at as int, *g));
                            break;
                        }
                    },
                }
            }
        }
        if !done {
            out.insert(at, g.copy());
        }
        i = i + 1;
    }
    out
}

/// Runs the passes to a fixed point. The result is reached from the circuit
/// by exchanging, cancelling and merging neighbors, is no longer, and has
/// the same measurements and conditioned gates in the same order.
pub fn optimize(circuit: &Circuit) -> (r: Circuit)
    ensures
        r.num_qubits == circuit.num_qubits,
        r.num_clbits == circuit.num_clbits,
        r.gates@ == optimized(circuit.gates@),
{
    let mut gates = copy_gates(&circuit.gates);
    loop
        invariant
            optimized(circuit.gates@) == optimized(gates@),
        decreases gates.len(),
    {
        let a = cancel_pass(&gates);
        let b = commute_forward_pass(&a);
        let c = cancel_pass(&b);
        proof {
            lemma_round(gates@);
        }
        if c.len() == gates.len() {
            return Circuit {
                num_qubits: circuit.num_qubits,
                num_clbits: circuit.num_clbits,
                gates: c,
            };
        }
        gates = c;
    }
}

} // verus!
