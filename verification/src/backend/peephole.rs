//! Peephole optimization of backend circuits.
//!
//! Rotations about Z are held back and moved forward past everything that
//! they commute with, merging on the way. Other rotations merge with the one
//! before on their qubit. Two-qubit gates cancel or merge with an equal one
//! before where nothing on either qubit came between.
use crate::angle::{EPS_BITS, PI_BITS, TAU_BITS};
use crate::backend::{BackendCircuit, BackendGate};
use crate::binary64::{
    absolute, below, difference, lemma_nearest_exists, lemma_rounded_exact, lemma_rounded_monotone,
    lemma_units_increase, lemma_units_step, negated, rank, remainder, rounded, scale, signed,
    significand, sum, units, Binary64,
};
use vstd::arithmetic::power2::{lemma_pow2_unfold, pow2};
use vstd::prelude::*;

verus! {

/// `a <= b`.
pub open spec fn at_most(a: Binary64, b: Binary64) -> bool {
    !a.nan() && !b.nan() && rank(a) <= rank(b)
}

/// An angle brought between minus pi and pi by full turns.
pub open spec fn centered(a: Binary64) -> Binary64 {
    let tau = Binary64 { bits: TAU_BITS };
    let pi = Binary64 { bits: PI_BITS };
    let t = remainder(a, tau);
    if below(pi, t) {
        difference(t, tau)
    } else if at_most(t, negated(pi)) {
        sum(t, tau)
    } else {
        t
    }
}

/// A full turn is two half turns, and the double below a half turn is as far
/// away as the one above.
proof fn lemma_half_turns()
    ensures
        units(TAU_BITS as int) == 2 * units(PI_BITS as int),
        units(PI_BITS + 1) + units(PI_BITS - 1) == 2 * units(PI_BITS as int),
{
    let s = significand(PI_BITS as int);
    lemma_units_step(PI_BITS as int);
    lemma_units_step(PI_BITS - 1);
    lemma_units_step(TAU_BITS as int);
    assert(scale(PI_BITS as int) == 1023 && scale(PI_BITS - 1) == 1023);
    assert(scale(TAU_BITS as int) == 1024);
    assert(significand(TAU_BITS as int) == s);
    lemma_pow2_unfold(1024);
    assert(s * (2 * pow2(1023)) == 2 * (s * pow2(1023))) by (nonlinear_arith);
}

/// Every angle is brought above minus pi and to pi at most.
pub proof fn lemma_centered(a: Binary64)
    requires
        a.finite(),
    ensures
        below(negated(Binary64 { bits: PI_BITS }), centered(a)),
        at_most(centered(a), Binary64 { bits: PI_BITS }),
{
    let tau = Binary64 { bits: TAU_BITS };
    let pi = Binary64 { bits: PI_BITS };
    let turn = units(TAU_BITS as int);
    let rest = units(a.unsigned_bits() as int) % turn;
    let r = rounded(rest, 1);
    lemma_half_turns();
    lemma_units_increase(0, PI_BITS as int);
    lemma_nearest_exists(rest, 1);
    lemma_rounded_exact(TAU_BITS);
    lemma_nearest_exists(turn, 1);
    lemma_rounded_monotone(rest, turn, 1, r, TAU_BITS);
    let t = signed(a.negative(), r);
    assert(remainder(a, tau) == t);
    if r < TAU_BITS {
        lemma_units_increase(r as int, TAU_BITS as int);
    }
    let gap = (turn - units(r as int)) as nat;
    lemma_nearest_exists(gap, 1);
    if below(pi, t) {
        if r > PI_BITS + 1 {
            lemma_units_increase(PI_BITS + 1, r as int);
        }
        let under = (PI_BITS - 1) as u64;
        lemma_rounded_exact(under);
        lemma_nearest_exists(units(under as int), 1);
        lemma_rounded_monotone(gap, units(under as int), 1, rounded(gap, 1), under);
        assert(t.value() + negated(tau).value() == -gap);
    } else if at_most(t, negated(pi)) {
        if r > PI_BITS {
            lemma_units_increase(PI_BITS as int, r as int);
        }
        lemma_rounded_exact(PI_BITS);
        lemma_nearest_exists(units(PI_BITS as int), 1);
        lemma_rounded_monotone(gap, units(PI_BITS as int), 1, rounded(gap, 1), PI_BITS);
        assert(t.value() + tau.value() == gap);
    }
}

/// Whether a rotation by this angle does nothing.
pub open spec fn no_turn(a: Binary64) -> bool {
    below(absolute(centered(a)), Binary64 { bits: EPS_BITS })
}

pub fn wrap_angle(a: Binary64) -> (r: Binary64)
    ensures
        r == centered(a),
{
    let tau = Binary64 { bits: TAU_BITS };
    let pi = Binary64 { bits: PI_BITS };
    let t = a.rem(tau);
    if pi.lt(t) {
        t.minus(tau)
    } else if !t.is_nan() && !pi.neg().lt(t) {
        t.plus(tau)
    } else {
        t
    }
}

pub fn is_identity_angle(a: Binary64) -> (r: bool)
    ensures
        r == no_turn(a),
{
    wrap_angle(a).abs().lt(Binary64 { bits: EPS_BITS })
}

/// The state of the pass: rotations about Z held back by qubit, where the
/// last other rotation on a qubit stands, where the last gate on a pair of
/// qubits stands, and the gates so far, some of which were taken out again.
pub struct Pass {
    pub held: Seq<(usize, Binary64)>,
    pub rot: Seq<(usize, usize)>,
    pub pair: Seq<(usize, usize, usize)>,
    pub out: Seq<Option<BackendGate>>,
}

/// The position of a qubit in a list; the length if it is not there.
pub open spec fn position<T>(s: Seq<(usize, T)>, q: usize, i: int) -> int
    decreases s.len() - i,
{
    if 0 <= i < s.len() && s[i].0 != q {
        position(s, q, i + 1)
    } else {
        i
    }
}

/// The position of a pair of qubits, the smaller first.
pub open spec fn pair_position(s: Seq<(usize, usize, usize)>, lo: usize, hi: usize, i: int) -> int
    decreases s.len() - i,
{
    if 0 <= i < s.len() && !(s[i].0 == lo && s[i].1 == hi) {
        pair_position(s, lo, hi, i + 1)
    } else {
        i
    }
}

/// Entries of other qubits.
pub open spec fn off<T>(q: usize) -> spec_fn((usize, T)) -> bool {
    |x: (usize, T)| x.0 != q
}

pub open spec fn without<T>(s: Seq<(usize, T)>, q: usize) -> Seq<(usize, T)> {
    s.filter(off(q))
}

/// Entries of pairs without a qubit.
pub open spec fn off_pair(q: usize) -> spec_fn((usize, usize, usize)) -> bool {
    |x: (usize, usize, usize)| x.0 != q && x.1 != q
}

/// Entries of pairs without either qubit, and of the pair of both.
pub open spec fn beside(a: usize, b: usize) -> spec_fn((usize, usize, usize)) -> bool {
    |x: (usize, usize, usize)|
        (x.0 == lower_of(a, b) && x.1 == upper_of(a, b)) || (x.0 != a && x.0 != b && x.1 != a && x.1
            != b)
}

/// Pairs that do not touch a qubit.
pub open spec fn pairs_without(s: Seq<(usize, usize, usize)>, q: usize) -> Seq<(usize, usize, usize)> {
    s.filter(off_pair(q))
}

/// Pairs that touch neither of two qubits, and the pair of both.
pub open spec fn other_pairs(s: Seq<(usize, usize, usize)>, a: usize, b: usize) -> Seq<
    (usize, usize, usize),
> {
    s.filter(beside(a, b))
}

/// Lets go of what is held back for a qubit.
pub open spec fn flushed(p: Pass, q: usize) -> Pass {
    let i = position(p.held, q, 0);
    if i >= p.held.len() {
        p
    } else {
        let theta = p.held[i].1;
        if no_turn(theta) {
            Pass { held: p.held.remove(i), rot: without(p.rot, q), ..p }
        } else {
            Pass {
                held: p.held.remove(i),
                rot: without(p.rot, q),
                pair: pairs_without(p.pair, q),
                out: p.out.push(Some(BackendGate::Rz(q, centered(theta)))),
            }
        }
    }
}

pub open spec fn on_rz(p: Pass, q: usize, theta: Binary64) -> Pass {
    let i = position(p.held, q, 0);
    Pass {
        held: if i >= p.held.len() {
            p.held.push((q, sum(Binary64 { bits: 0 }, theta)))
        } else {
            p.held.update(i, (q, sum(p.held[i].1, theta)))
        },
        rot: without(p.rot, q),
        ..p
    }
}

pub open spec fn on_rot(before: Pass, q: usize, theta: Binary64) -> Pass {
    let p = flushed(before, q);
    let i = position(p.rot, q, 0);
    if i < p.rot.len() && p.out[p.rot[i].1 as int] matches Some(BackendGate::Rot(_, last)) {
        let at = p.rot[i].1 as int;
        let both = sum(p.out[at]->0->Rot_1, theta);
        if no_turn(both) {
            Pass {
                out: p.out.update(
                    at,
                    Some(BackendGate::Rot(p.out[at]->0->Rot_0, Binary64 { bits: 0 })),
                ),
                rot: without(p.rot, q),
                ..p
            }
        } else {
            Pass {
                out: p.out.update(
                    at,
                    Some(BackendGate::Rot(p.out[at]->0->Rot_0, centered(both))),
                ),
                ..p
            }
        }
    } else {
        Pass {
            out: p.out.push(Some(BackendGate::Rot(q, theta))),
            rot: without(p.rot, q).push((q, p.out.len() as usize)),
            pair: pairs_without(p.pair, q),
            ..p
        }
    }
}

/// Forgets what a two-qubit gate ends.
pub open spec fn entered(p: Pass, a: usize, b: usize) -> Pass {
    Pass { rot: without(without(p.rot, a), b), pair: other_pairs(p.pair, a, b), ..p }
}

pub open spec fn lower_of(a: usize, b: usize) -> usize {
    if a < b {
        a
    } else {
        b
    }
}

pub open spec fn upper_of(a: usize, b: usize) -> usize {
    if a < b {
        b
    } else {
        a
    }
}

/// What stands last on a pair of qubits.
pub open spec fn last_on(p: Pass, a: usize, b: usize) -> Option<BackendGate> {
    let i = pair_position(p.pair, lower_of(a, b), upper_of(a, b), 0);
    if i < p.pair.len() {
        p.out[p.pair[i].2 as int]
    } else {
        None
    }
}

/// Takes out what stands last on a pair of qubits.
pub open spec fn cancelled(p: Pass, a: usize, b: usize) -> Pass {
    let i = pair_position(p.pair, lower_of(a, b), upper_of(a, b), 0);
    Pass { out: p.out.update(p.pair[i].2 as int, None), pair: p.pair.remove(i), ..p }
}

/// Adds a gate on a pair of qubits.
pub open spec fn joined(p: Pass, a: usize, b: usize, g: BackendGate) -> Pass {
    let i = pair_position(p.pair, lower_of(a, b), upper_of(a, b), 0);
    let entry = (lower_of(a, b), upper_of(a, b), p.out.len() as usize);
    Pass {
        out: p.out.push(Some(g)),
        pair: if i < p.pair.len() {
            p.pair.update(i, entry)
        } else {
            p.pair.push(entry)
        },
        ..p
    }
}

pub open spec fn on_cx(before: Pass, a: usize, b: usize) -> Pass {
    let p = entered(flushed(before, b), a, b);
    if last_on(p, a, b) == Some(BackendGate::Cx(a, b)) {
        cancelled(p, a, b)
    } else {
        joined(p, a, b, BackendGate::Cx(a, b))
    }
}

pub open spec fn on_cz(before: Pass, a: usize, b: usize) -> Pass {
    let p = entered(before, a, b);
    if last_on(p, a, b) matches Some(BackendGate::Cz(_, _)) {
        cancelled(p, a, b)
    } else {
        joined(p, a, b, BackendGate::Cz(a, b))
    }
}

pub open spec fn on_rzz(before: Pass, a: usize, b: usize, theta: Binary64) -> Pass {
    let p = entered(before, a, b);
    let i = pair_position(p.pair, lower_of(a, b), upper_of(a, b), 0);
    match last_on(p, a, b) {
        Some(BackendGate::Rzz(x, y, t)) => Pass {
            out: p.out.update(
                p.pair[i].2 as int,
                Some(BackendGate::Rzz(x, y, centered(sum(t, theta)))),
            ),
            ..p
        },
        _ => joined(p, a, b, BackendGate::Rzz(a, b, theta)),
    }
}

/// A wire on which something happens that nothing passes.
pub open spec fn ended(before: Pass, q: usize) -> Pass {
    let p = flushed(before, q);
    Pass { rot: without(p.rot, q), pair: pairs_without(p.pair, q), ..p }
}

/// Ends the first `n` wires of a list.
pub open spec fn ended_all(p: Pass, wires: Seq<usize>, n: nat) -> Pass
    decreases n,
{
    if n == 0 {
        p
    } else {
        ended(ended_all(p, wires, (n - 1) as nat), wires[n - 1])
    }
}

pub open spec fn on_classical(before: Pass, g: BackendGate) -> Pass {
    let p = ended_all(before, g.wires(), g.wires().len());
    Pass { out: p.out.push(Some(g)), ..p }
}

/// One gate.
pub open spec fn on_gate(p: Pass, g: BackendGate) -> Pass {
    match g {
        BackendGate::Rz(q, t) => on_rz(p, q, t),
        BackendGate::Rot(q, t) => on_rot(p, q, t),
        BackendGate::Cx(a, b) => on_cx(p, a, b),
        BackendGate::Cz(a, b) => on_cz(p, a, b),
        BackendGate::Rzz(a, b, t) => on_rzz(p, a, b, t),
        _ => on_classical(p, g),
    }
}

/// The first `n` gates.
pub open spec fn passed(gates: Seq<BackendGate>, n: nat) -> Pass
    decreases n,
{
    if n == 0 {
        Pass { held: Seq::empty(), rot: Seq::empty(), pair: Seq::empty(), out: Seq::empty() }
    } else {
        on_gate(passed(gates, (n - 1) as nat), gates[n - 1])
    }
}

/// Lets go of everything that is held back.
pub open spec fn drained(p: Pass) -> Pass
    decreases p.held.len(),
{
    if p.held.len() == 0 {
        p
    } else {
        drained(flushed(p, p.held[0].0))
    }
}

/// Whether a gate is no rotation that does nothing.
pub open spec fn acts(g: BackendGate) -> bool {
    match g {
        BackendGate::Rz(_, t) | BackendGate::Rot(_, t) | BackendGate::Rzz(_, _, t) => !no_turn(t),
        _ => true,
    }
}

/// The gates that are left.
pub open spec fn live(out: Seq<Option<BackendGate>>) -> Seq<BackendGate>
    decreases out.len(),
{
    if out.len() == 0 {
        Seq::empty()
    } else {
        match out.last() {
            Some(g) => live(out.drop_last()).push(g),
            None => live(out.drop_last()),
        }
    }
}

pub open spec fn optimized(gates: Seq<BackendGate>) -> Seq<BackendGate> {
    live(drained(passed(gates, gates.len())).out).filter(|g: BackendGate| acts(g))
}

/// The state of the pass at run time.
struct Work {
    held: Vec<(usize, Binary64)>,
    rot: Vec<(usize, usize)>,
    pair: Vec<(usize, usize, usize)>,
    out: Vec<Option<BackendGate>>,
}

impl Work {
    spec fn pass(self) -> Pass {
        Pass { held: self.held@, rot: self.rot@, pair: self.pair@, out: self.out@ }
    }

    /// Recorded positions exist.
    spec fn ok(self) -> bool {
        &&& forall|i: int|
            0 <= i < self.rot.len() ==> (#[trigger] self.rot@[i]).1 < self.out.len()
        &&& forall|i: int|
            0 <= i < self.pair.len() ==> (#[trigger] self.pair@[i]).2 < self.out.len()
    }
}

fn find_held(s: &Vec<(usize, Binary64)>, q: usize) -> (r: usize)
    ensures
        r == position(s@, q, 0),
        r <= s.len(),
        r < s.len() ==> s@[r as int].0 == q,
{
    let mut i: usize = 0;
    while i < s.len() && s[i].0 != q
        invariant
            0 <= i <= s.len(),
            position(s@, q, 0) == position(s@, q, i as int),
        decreases s.len() - i,
    {
        i = i + 1;
    }
    i
}

fn find_rot(s: &Vec<(usize, usize)>, q: usize) -> (r: usize)
    ensures
        r == position(s@, q, 0),
        r <= s.len(),
        r < s.len() ==> s@[r as int].0 == q,
{
    let mut i: usize = 0;
    while i < s.len() && s[i].0 != q
        invariant
            0 <= i <= s.len(),
            position(s@, q, 0) == position(s@, q, i as int),
        decreases s.len() - i,
    {
        i = i + 1;
    }
    i
}

fn find_pair(s: &Vec<(usize, usize, usize)>, a: usize, b: usize) -> (r: usize)
    ensures
        r == pair_position(s@, lower_of(a, b), upper_of(a, b), 0),
        r <= s.len(),
{
    let lo: usize = if a < b { a } else { b };
    let hi: usize = if a < b { b } else { a };
    let mut i: usize = 0;
    while i < s.len() && !(s[i].0 == lo && s[i].1 == hi)
        invariant
            0 <= i <= s.len(),
            pair_position(s@, lo, hi, 0) == pair_position(s@, lo, hi, i as int),
        decreases s.len() - i,
    {
        i = i + 1;
    }
    i
}

/// What filtering keeps, it takes from the sequence.
proof fn lemma_filter_from<T>(s: Seq<T>, f: spec_fn(T) -> bool)
    ensures
        forall|i: int| 0 <= i < s.filter(f).len() ==> s.contains(#[trigger] s.filter(f)[i]),
        forall|i: int| 0 <= i < s.filter(f).len() ==> f(#[trigger] s.filter(f)[i]),
        s.filter(f).len() <= s.len(),
    decreases s.len(),
{
    reveal(Seq::filter);
    if s.len() > 0 {
        let front = s.drop_last();
        lemma_filter_from(front, f);
        assert forall|i: int| 0 <= i < s.filter(f).len() implies s.contains(#[trigger] s.filter(f)[i])
            && f(s.filter(f)[i]) by {
            if i < front.filter(f).len() {
                assert(front.contains(front.filter(f)[i]));
                let k = choose|k: int| 0 <= k < front.len() && front[k] == front.filter(f)[i];
                assert(s[k] == front.filter(f)[i]);
            } else {
                assert(s[s.len() - 1] == s.filter(f)[i]);
            }
        }
    }
}

impl Work {
    fn drop_rot(&mut self, q: usize)
        requires
            old(self).ok(),
        ensures
            final(self).ok(),
            final(self).pass() == (Pass { rot: without(old(self).rot@, q), ..old(self).pass() }),
    {
        let ghost f = off::<usize>(q);
        let ghost all = self.rot@;
        let mut kept: Vec<(usize, usize)> = Vec::new();
        let mut i: usize = 0;
        proof {
            reveal(Seq::filter);
            assert(all.take(0).filter(f) =~= Seq::empty());
        }
        while i < self.rot.len()
            invariant
                0 <= i <= self.rot.len(),
                all == self.rot@,
                f == off::<usize>(q),
                kept@ == all.take(i as int).filter(f),
                *self == *old(self),
            decreases self.rot.len() - i,
        {
            proof {
                reveal(Seq::filter);
                assert(all.take(i + 1).drop_last() =~= all.take(i as int));
            }
            let x = self.rot[i];
            if x.0 != q {
                kept.push(x);
            }
            i = i + 1;
        }
        proof {
            assert(all.take(i as int) =~= all);
            lemma_filter_from(all, f);
            assert forall|k: int| 0 <= k < kept.len() implies (#[trigger] kept@[k]).1 < self.out.len() by {
                assert(all.contains(all.filter(f)[k]));
                let m = choose|m: int| 0 <= m < all.len() && all[m] == kept@[k];
                assert(all[m].1 < self.out.len());
            }
        }
        self.rot = kept;
    }

    fn drop_pairs(&mut self, q: usize)
        requires
            old(self).ok(),
        ensures
            final(self).ok(),
            final(self).pass() == (Pass {
                pair: pairs_without(old(self).pair@, q),
                ..old(self).pass()
            }),
    {
        let ghost f = off_pair(q);
        let ghost all = self.pair@;
        let mut kept: Vec<(usize, usize, usize)> = Vec::new();
        let mut i: usize = 0;
        proof {
            reveal(Seq::filter);
            assert(all.take(0).filter(f) =~= Seq::empty());
        }
        while i < self.pair.len()
            invariant
                0 <= i <= self.pair.len(),
                all == self.pair@,
                f == off_pair(q),
                kept@ == all.take(i as int).filter(f),
                *self == *old(self),
            decreases self.pair.len() - i,
        {
            proof {
                reveal(Seq::filter);
                assert(all.take(i + 1).drop_last() =~= all.take(i as int));
            }
            let x = self.pair[i];
            if x.0 != q && x.1 != q {
                kept.push(x);
            }
            i = i + 1;
        }
        proof {
            assert(all.take(i as int) =~= all);
            lemma_filter_from(all, f);
            assert forall|k: int| 0 <= k < kept.len() implies (#[trigger] kept@[k]).2 < self.out.len() by {
                assert(all.contains(all.filter(f)[k]));
                let m = choose|m: int| 0 <= m < all.len() && all[m] == kept@[k];
                assert(all[m].2 < self.out.len());
            }
        }
        self.pair = kept;
    }

    fn keep_other_pairs(&mut self, a: usize, b: usize)
        requires
            old(self).ok(),
        ensures
            final(self).ok(),
            final(self).pass() == (Pass {
                pair: other_pairs(old(self).pair@, a, b),
                ..old(self).pass()
            }),
    {
        let lo: usize = if a < b { a } else { b };
        let hi: usize = if a < b { b } else { a };
        let ghost f = beside(a, b);
        let ghost all = self.pair@;
        let mut kept: Vec<(usize, usize, usize)> = Vec::new();
        let mut i: usize = 0;
        proof {
            reveal(Seq::filter);
            assert(all.take(0).filter(f) =~= Seq::empty());
        }
        while i < self.pair.len()
            invariant
                0 <= i <= self.pair.len(),
                all == self.pair@,
                f == beside(a, b),
                lo == lower_of(a, b),
                hi == upper_of(a, b),
                kept@ == all.take(i as int).filter(f),
                *self == *old(self),
            decreases self.pair.len() - i,
        {
            proof {
                reveal(Seq::filter);
                assert(all.take(i + 1).drop_last() =~= all.take(i as int));
            }
            let x = self.pair[i];
            if (x.0 == lo && x.1 == hi) || (x.0 != a && x.0 != b && x.1 != a && x.1 != b) {
                kept.push(x);
            }
            i = i + 1;
        }
        proof {
            assert(all.take(i as int) =~= all);
            lemma_filter_from(all, f);
            assert forall|k: int| 0 <= k < kept.len() implies (#[trigger] kept@[k]).2 < self.out.len() by {
                assert(all.contains(all.filter(f)[k]));
                let m = choose|m: int| 0 <= m < all.len() && all[m] == kept@[k];
                assert(all[m].2 < self.out.len());
            }
        }
        self.pair = kept;
    }

    fn flush(&mut self, q: usize)
        requires
            old(self).ok(),
        ensures
            final(self).ok(),
            final(self).pass() == flushed(old(self).pass(), q),
            final(self).held.len() <= old(self).held.len(),
            position(old(self).held@, q, 0) < old(self).held.len() ==> final(self).held.len()
                < old(self).held.len(),
    {
        let i = find_held(&self.held, q);
        if i < self.held.len() {
            let (_q, theta) = self.held.remove(i);
            if !is_identity_angle(theta) {
                self.out.push(Some(BackendGate::Rz(q, wrap_angle(theta))));
                self.drop_pairs(q);
            }
            self.drop_rot(q);
        }
    }

    fn rz(&mut self, q: usize, theta: Binary64)
        requires
            old(self).ok(),
        ensures
            final(self).ok(),
            final(self).pass() == on_rz(old(self).pass(), q, theta),
    {
        let i = find_held(&self.held, q);
        if i < self.held.len() {
            let before = self.held[i].1;
            self.held.set(i, (q, before.plus(theta)));
        } else {
            self.held.push((q, Binary64 { bits: 0 }.plus(theta)));
        }
        self.drop_rot(q);
    }

    fn rot(&mut self, q: usize, theta: Binary64)
        requires
            old(self).ok(),
        ensures
            final(self).ok(),
            final(self).pass() == on_rot(old(self).pass(), q, theta),
    {
        self.flush(q);
        let i = find_rot(&self.rot, q);
        if i < self.rot.len() {
            let at = self.rot[i].1;
            if let Some(BackendGate::Rot(p, last)) = &self.out[at] {
                let (p, both) = (*p, last.plus(theta));
                if is_identity_angle(both) {
                    self.out.set(at, Some(BackendGate::Rot(p, Binary64 { bits: 0 })));
                    self.drop_rot(q);
                } else {
                    self.out.set(at, Some(BackendGate::Rot(p, wrap_angle(both))));
                }
                return;
            }
        }
        let at: usize = self.out.len();
        self.drop_rot(q);
        self.out.push(Some(BackendGate::Rot(q, theta)));
        self.rot.push((q, at));
        self.drop_pairs(q);
    }

    fn enter(&mut self, a: usize, b: usize)
        requires
            old(self).ok(),
        ensures
            final(self).ok(),
            final(self).pass() == entered(old(self).pass(), a, b),
    {
        self.drop_rot(a);
        self.drop_rot(b);
        self.keep_other_pairs(a, b);
    }

    fn join(&mut self, a: usize, b: usize, g: BackendGate)
        requires
            old(self).ok(),
        ensures
            final(self).ok(),
            final(self).pass() == joined(old(self).pass(), a, b, g),
    {
        let i = find_pair(&self.pair, a, b);
        let lo: usize = if a < b { a } else { b };
        let hi: usize = if a < b { b } else { a };
        let entry = (lo, hi, self.out.len());
        self.out.push(Some(g));
        if i < self.pair.len() {
            self.pair.set(i, entry);
        } else {
            self.pair.push(entry);
        }
    }

    fn cancel(&mut self, a: usize, b: usize)
        requires
            old(self).ok(),
            pair_position(old(self).pair@, lower_of(a, b), upper_of(a, b), 0) < old(self).pair.len(),
        ensures
            final(self).ok(),
            final(self).pass() == cancelled(old(self).pass(), a, b),
    {
        let i = find_pair(&self.pair, a, b);
        let at = self.pair[i].2;
        self.out.set(at, None);
        let ghost before = self.pair@;
        self.pair.remove(i);
        assert forall|k: int| 0 <= k < self.pair.len() implies (#[trigger] self.pair@[k]).2
            < self.out.len() by {
            assert(self.pair@[k] == (if k < i {
                before[k]
            } else {
                before[k + 1]
            }));
        }
    }

    fn cx(&mut self, a: usize, b: usize)
        requires
            old(self).ok(),
        ensures
            final(self).ok(),
            final(self).pass() == on_cx(old(self).pass(), a, b),
    {
        self.flush(b);
        self.enter(a, b);
        let i = find_pair(&self.pair, a, b);
        let mut same = false;
        if i < self.pair.len() {
            if let Some(BackendGate::Cx(x, y)) = &self.out[self.pair[i].2] {
                same = *x == a && *y == b;
            }
        }
        if same {
            self.cancel(a, b);
        } else {
            self.join(a, b, BackendGate::Cx(a, b));
        }
    }

    fn cz(&mut self, a: usize, b: usize)
        requires
            old(self).ok(),
        ensures
            final(self).ok(),
            final(self).pass() == on_cz(old(self).pass(), a, b),
    {
        self.enter(a, b);
        let i = find_pair(&self.pair, a, b);
        let mut same = false;
        if i < self.pair.len() {
            if let Some(BackendGate::Cz(_, _)) = &self.out[self.pair[i].2] {
                same = true;
            }
        }
        if same {
            self.cancel(a, b);
        } else {
            self.join(a, b, BackendGate::Cz(a, b));
        }
    }

    fn rzz(&mut self, a: usize, b: usize, theta: Binary64)
        requires
            old(self).ok(),
        ensures
            final(self).ok(),
            final(self).pass() == on_rzz(old(self).pass(), a, b, theta),
    {
        self.enter(a, b);
        let i = find_pair(&self.pair, a, b);
        if i < self.pair.len() {
            let at = self.pair[i].2;
            if let Some(BackendGate::Rzz(x, y, t)) = &self.out[at] {
                let g = BackendGate::Rzz(*x, *y, wrap_angle(t.plus(theta)));
                self.out.set(at, Some(g));
                return;
            }
        }
        self.join(a, b, BackendGate::Rzz(a, b, theta));
    }

    fn end(&mut self, q: usize)
        requires
            old(self).ok(),
        ensures
            final(self).ok(),
            final(self).pass() == ended(old(self).pass(), q),
    {
        self.flush(q);
        self.drop_rot(q);
        self.drop_pairs(q);
    }

    fn classical(&mut self, g: &BackendGate)
        requires
            old(self).ok(),
        ensures
            final(self).ok(),
            final(self).pass() == on_classical(old(self).pass(), *g),
    {
        let wires = g.qubits();
        let ghost start = self.pass();
        let mut i: usize = 0;
        while i < wires.len()
            invariant
                self.ok(),
                wires@ == g.wires(),
                0 <= i <= wires.len(),
                self.pass() == ended_all(start, wires@, i as nat),
            decreases wires.len() - i,
        {
            self.end(wires[i]);
            i = i + 1;
        }
        self.out.push(Some(g.copy()));
    }

    fn gate(&mut self, g: &BackendGate)
        requires
            old(self).ok(),
        ensures
            final(self).ok(),
            final(self).pass() == on_gate(old(self).pass(), *g),
    {
        match g {
            BackendGate::Rz(q, t) => self.rz(*q, *t),
            BackendGate::Rot(q, t) => self.rot(*q, *t),
            BackendGate::Cx(a, b) => self.cx(*a, *b),
            BackendGate::Cz(a, b) => self.cz(*a, *b),
            BackendGate::Rzz(a, b, t) => self.rzz(*a, *b, *t),
            _ => self.classical(g),
        }
    }
}

fn does_act(g: &BackendGate) -> (r: bool)
    ensures
        r == acts(*g),
{
    match g {
        BackendGate::Rz(_, t) | BackendGate::Rot(_, t) | BackendGate::Rzz(_, _, t) => !is_identity_angle(
            *t,
        ),
        _ => true,
    }
}

/// Optimizes gates.
pub fn optimize_gates(gates: &Vec<BackendGate>) -> (r: Vec<BackendGate>)
    ensures
        r@ == optimized(gates@),
{
    let mut work = Work { held: Vec::new(), rot: Vec::new(), pair: Vec::new(), out: Vec::new() };
    let mut i: usize = 0;
    assert(work.pass() =~= passed(gates@, 0));
    while i < gates.len()
        invariant
            work.ok(),
            0 <= i <= gates.len(),
            work.pass() == passed(gates@, i as nat),
        decreases gates.len() - i,
    {
        work.gate(&gates[i]);
        i = i + 1;
    }
    let ghost end = drained(passed(gates@, gates@.len()));
    while work.held.len() > 0
        invariant
            work.ok(),
            drained(work.pass()) == end,
        decreases work.held.len(),
    {
        let q = work.held[0].0;
        assert(position(work.held@, q, 0) == 0);
        work.flush(q);
    }
    let ghost f = |g: BackendGate| acts(g);
    let mut kept: Vec<BackendGate> = Vec::new();
    let mut k: usize = 0;
    proof {
        reveal(Seq::filter);
        assert(live(work.out@.take(0)).filter(f) =~= Seq::empty());
    }
    while k < work.out.len()
        invariant
            0 <= k <= work.out.len(),
            f == (|g: BackendGate| acts(g)),
            kept@ == live(work.out@.take(k as int)).filter(f),
        decreases work.out.len() - k,
    {
        proof {
            reveal(Seq::filter);
            assert(work.out@.take(k + 1).drop_last() =~= work.out@.take(k as int));
        }
        if let Some(g) = &work.out[k] {
            proof {
                let before = live(work.out@.take(k as int));
                assert(before.push(*g).drop_last() =~= before);
            }
            if does_act(g) {
                kept.push(g.copy());
            }
        }
        k = k + 1;
    }
    assert(work.out@.take(k as int) =~= work.out@);
    kept
}

/// Optimizes a circuit in place.
pub fn optimize(bc: &mut BackendCircuit)
    ensures
        final(bc).backend == old(bc).backend,
        final(bc).num_qubits == old(bc).num_qubits,
        final(bc).num_clbits == old(bc).num_clbits,
        final(bc).gates@ == optimized(old(bc).gates@),
{
    let gates = optimize_gates(&bc.gates);
    bc.gates = gates;
}

} // verus!
