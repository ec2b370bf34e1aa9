//! What the peephole optimizer does is rewriting by local rules.
use super::peephole::{
    acts, beside, cancelled, centered, drained, ended, ended_all, entered, flushed, joined, last_on,
    live, lower_of, no_turn, off, off_pair, on_classical, on_cx, on_cz, on_gate, on_rot, on_rz,
    on_rzz, optimized, other_pairs, pair_position, pairs_without, passed, position, upper_of,
    without, Pass,
};
use super::BackendGate;
use crate::binary64::{sum, Binary64};
use crate::rewrite::{
    keeps, lemma_reaches_front, lemma_reaches_keeps, lemma_reaches_once, lemma_reaches_self,
    lemma_reaches_transitive, lemma_reaches_within, reaches, Rule,
};
use vstd::prelude::*;

verus! {

/// Whether a gate is a measurement or under a condition.
pub open spec fn classical(g: BackendGate) -> bool {
    g is Measure || g is If
}

/// Whether two gates share no qubit.
pub open spec fn apart(a: BackendGate, b: BackendGate) -> bool {
    forall|q: usize| #[trigger] a.wires().contains(q) ==> !b.wires().contains(q)
}

/// Whether a gate is diagonal.
pub open spec fn diagonal(g: BackendGate) -> bool {
    g is Rz || g is Cz || g is Rzz
}

/// Whether a rotation about Z is on the control of a `Cx`.
pub open spec fn on_control(a: BackendGate, b: BackendGate) -> bool {
    match (a, b) {
        (BackendGate::Rz(q, _), BackendGate::Cx(c, t)) => q == c && q != t,
        _ => false,
    }
}

/// Whether two gates may change places: at most one of them is classical,
/// and they are on different qubits, or both diagonal, or a rotation about Z
/// on the control of a `Cx`.
pub open spec fn commute(a: BackendGate, b: BackendGate) -> bool {
    &&& !(classical(a) && classical(b))
    &&& apart(a, b) || (diagonal(a) && diagonal(b)) || on_control(a, b) || on_control(b, a)
}

/// Whether two pairs of qubits are the same.
pub open spec fn same_pair(a: usize, b: usize, c: usize, d: usize) -> bool {
    (a == c && b == d) || (a == d && b == c)
}

/// What one gate may become.
pub open spec fn alone(g: BackendGate, h: BackendGate) -> bool {
    match (g, h) {
        (BackendGate::Rz(p, s), BackendGate::Rz(q, t)) => p == q && (t == centered(s) || t == sum(
            Binary64 { bits: 0 },
            s,
        )),
        _ => false,
    }
}

/// What two neighbors may become.
pub open spec fn merges(a: BackendGate, b: BackendGate, c: BackendGate) -> bool {
    match (a, b, c) {
        (BackendGate::Rz(p, s), BackendGate::Rz(q, t), BackendGate::Rz(r, u)) => p == q && q == r
            && u == sum(s, t),
        (BackendGate::Rot(p, s), BackendGate::Rot(q, t), BackendGate::Rot(r, u)) => p == q && q == r
            && (u == centered(sum(s, t)) || (no_turn(sum(s, t)) && u == (Binary64 { bits: 0 }))),
        (BackendGate::Rzz(p, q, s), BackendGate::Rzz(x, y, t), BackendGate::Rzz(v, w, u)) =>
            same_pair(p, q, x, y) && p == v && q == w && u == centered(sum(s, t)),
        _ => false,
    }
}

/// Which neighbors undo each other.
pub open spec fn undoes(a: BackendGate, b: BackendGate) -> bool {
    match (a, b) {
        (BackendGate::Cx(p, q), BackendGate::Cx(x, y)) => p == x && q == y,
        (BackendGate::Cz(p, q), BackendGate::Cz(x, y)) => same_pair(p, q, x, y),
        _ => false,
    }
}

pub open spec fn rewrites(l: Seq<BackendGate>, r: Seq<BackendGate>) -> bool {
    ||| l.len() == 2 && r == seq![l[1], l[0]] && commute(l[0], l[1])
    ||| l.len() == 2 && r.len() == 1 && merges(l[0], l[1], r[0])
    ||| l.len() == 2 && r == Seq::<BackendGate>::empty() && undoes(l[0], l[1])
    ||| l.len() == 1 && r.len() == 1 && alone(l[0], r[0])
    ||| l.len() == 1 && r == Seq::<BackendGate>::empty() && !acts(l[0])
}

/// What the optimizer may do: let commuting neighbors change places, merge
/// rotations, cancel pairs, drop rotations that do nothing.
pub open spec fn peephole_rule() -> Rule<BackendGate> {
    |l: Seq<BackendGate>, r: Seq<BackendGate>| rewrites(l, r)
}

/// What is held back, as gates.
spec fn held_gates(held: Seq<(usize, Binary64)>) -> Seq<BackendGate> {
    held.map_values(|x: (usize, Binary64)| BackendGate::Rz(x.0, x.1))
}

/// The gates that a state stands for.
spec fn meaning(p: Pass) -> Seq<BackendGate> {
    live(p.out) + held_gates(p.held)
}

/// Whether no gate from a place on touches a qubit.
spec fn untouched(out: Seq<Option<BackendGate>>, from: int, q: usize) -> bool {
    forall|j: int|
        from <= j < out.len() && (#[trigger] out[j]) is Some ==> !out[j]->0.wires().contains(q)
}

/// What the entry of a rotation says.
spec fn rot_ok(p: Pass, x: (usize, usize)) -> bool {
    &&& x.1 < p.out.len()
    &&& p.out[x.1 as int] matches Some(BackendGate::Rot(q, _)) ==> q == x.0
    &&& untouched(p.out, x.1 + 1, x.0)
}

/// Whether a gate is on a pair of qubits.
spec fn on_pair(g: BackendGate, lo: usize, hi: usize) -> bool {
    match g {
        BackendGate::Cx(a, b) | BackendGate::Cz(a, b) | BackendGate::Rzz(a, b, _) => lower_of(a, b)
            == lo && upper_of(a, b) == hi,
        _ => false,
    }
}

/// What the entry of a pair says.
spec fn pair_ok(p: Pass, x: (usize, usize, usize)) -> bool {
    &&& x.2 < p.out.len()
    &&& p.out[x.2 as int] matches Some(g) && on_pair(g, x.0, x.1)
    &&& untouched(p.out, x.2 + 1, x.0)
    &&& untouched(p.out, x.2 + 1, x.1)
}

/// What the pass keeps.
spec fn sound(p: Pass) -> bool {
    &&& p.out.len() <= usize::MAX
    &&& forall|i: int| 0 <= i < p.rot.len() ==> rot_ok(p, #[trigger] p.rot[i])
    &&& forall|i: int| 0 <= i < p.pair.len() ==> pair_ok(p, #[trigger] p.pair[i])
    &&& forall|i: int, j: int|
        0 <= i < j < p.pair.len() ==> !((#[trigger] p.pair[i]).0 == (#[trigger] p.pair[j]).0
            && p.pair[i].1 == p.pair[j].1)
    &&& forall|i: int, j: int|
        0 <= i < j < p.held.len() ==> (#[trigger] p.held[i]).0 != (#[trigger] p.held[j]).0
}

proof fn lemma_live_joined(a: Seq<Option<BackendGate>>, b: Seq<Option<BackendGate>>)
    ensures
        live(a + b) == live(a) + live(b),
    decreases b.len(),
{
    if b.len() == 0 {
        assert(a + b =~= a);
        assert(live(a) + live(b) =~= live(a));
    } else {
        lemma_live_joined(a, b.drop_last());
        assert((a + b).drop_last() =~= a + b.drop_last());
        assert((a + b).last() == b.last());
        assert(live(a + b) =~= live(a) + live(b));
    }
}

/// The gates before, at and behind a place.
proof fn lemma_live_at(out: Seq<Option<BackendGate>>, at: int)
    requires
        0 <= at < out.len(),
    ensures
        live(out) == live(out.take(at)) + live(seq![out[at]]) + live(out.skip(at + 1)),
        live(seq![out[at]]) == (match out[at] {
            Some(g) => seq![g],
            None => Seq::empty(),
        }),
{
    let one = seq![out[at]];
    assert(out =~= out.take(at) + one + out.skip(at + 1));
    lemma_live_joined(out.take(at) + one, out.skip(at + 1));
    lemma_live_joined(out.take(at), one);
    assert(one.drop_last() =~= Seq::empty());
    assert(live(Seq::<Option<BackendGate>>::empty()) =~= Seq::empty());
    match out[at] {
        Some(g) => {
            assert(live(one) =~= seq![g]);
        },
        None => {},
    }
}

proof fn lemma_live_push(out: Seq<Option<BackendGate>>, g: BackendGate)
    ensures
        live(out.push(Some(g))) == live(out).push(g),
{
    assert(out.push(Some(g)).drop_last() =~= out);
}

/// What is left stood somewhere.
proof fn lemma_live_from(out: Seq<Option<BackendGate>>, k: int) -> (j: int)
    requires
        0 <= k < live(out).len(),
    ensures
        0 <= j < out.len(),
        out[j] == Some(live(out)[k]),
    decreases out.len(),
{
    let front = out.drop_last();
    match out.last() {
        Some(g) => {
            if k < live(front).len() {
                let j = lemma_live_from(front, k);
                j
            } else {
                out.len() - 1
            }
        },
        None => lemma_live_from(front, k),
    }
}

/// A gate moves to the front of gates that it commutes with.
proof fn lemma_move(p: Seq<BackendGate>, b: Seq<BackendGate>, g: BackendGate)
    requires
        forall|k: int| 0 <= k < b.len() ==> commute(#[trigger] b[k], g),
    ensures
        reaches(peephole_rule(), p + b.push(g), p + (seq![g] + b)),
{
    let rule = peephole_rule();
    assert forall|k: int| 0 <= k < b.len() implies rule(seq![#[trigger] b[k], g], seq![g, b[k]]) by {
        let l = seq![b[k], g];
        assert(commute(l[0], l[1]));
        assert(seq![g, b[k]] =~= seq![l[1], l[0]]);
        assert(rewrites(l, seq![g, b[k]]));
    }
    lemma_reaches_front(rule, b, g);
    let none = Seq::<BackendGate>::empty();
    lemma_reaches_within(rule, p, b.push(g), seq![g] + b, none);
    assert(p + b.push(g) + none =~= p + b.push(g));
    assert(p + (seq![g] + b) + none =~= p + (seq![g] + b));
}

/// One rule, between other gates.
proof fn lemma_once(
    p: Seq<BackendGate>,
    l: Seq<BackendGate>,
    r: Seq<BackendGate>,
    s: Seq<BackendGate>,
)
    requires
        rewrites(l, r),
    ensures
        reaches(peephole_rule(), p + l + s, p + r + s),
{
    assert(peephole_rule()(l, r));
    lemma_reaches_once(peephole_rule(), p, l, r, s);
}

proof fn lemma_then(a: Seq<BackendGate>, b: Seq<BackendGate>, c: Seq<BackendGate>)
    requires
        reaches(peephole_rule(), a, b),
        reaches(peephole_rule(), b, c),
    ensures
        reaches(peephole_rule(), a, c),
{
    lemma_reaches_transitive(peephole_rule(), a, b, c);
}

proof fn lemma_position<T>(s: Seq<(usize, T)>, q: usize, i: int)
    requires
        0 <= i <= s.len(),
    ensures
        i <= position(s, q, i) <= s.len(),
        position(s, q, i) < s.len() ==> s[position(s, q, i)].0 == q,
        forall|k: int| i <= k < position(s, q, i) ==> (#[trigger] s[k]).0 != q,
    decreases s.len() - i,
{
    if i < s.len() && s[i].0 != q {
        lemma_position(s, q, i + 1);
    }
}

proof fn lemma_pair_position(s: Seq<(usize, usize, usize)>, lo: usize, hi: usize, i: int)
    requires
        0 <= i <= s.len(),
    ensures
        i <= pair_position(s, lo, hi, i) <= s.len(),
        pair_position(s, lo, hi, i) < s.len() ==> s[pair_position(s, lo, hi, i)].0 == lo
            && s[pair_position(s, lo, hi, i)].1 == hi,
        forall|k: int|
            i <= k < pair_position(s, lo, hi, i) ==> !((#[trigger] s[k]).0 == lo && s[k].1 == hi),
    decreases s.len() - i,
{
    if i < s.len() && !(s[i].0 == lo && s[i].1 == hi) {
        lemma_pair_position(s, lo, hi, i + 1);
    }
}

/// What filtering keeps, it takes from the sequence, in order.
proof fn lemma_filtered<T>(s: Seq<T>, f: spec_fn(T) -> bool) -> (at: Seq<int>)
    ensures
        at.len() == s.filter(f).len(),
        forall|i: int|
            0 <= i < at.len() ==> 0 <= #[trigger] at[i] < s.len() && s.filter(f)[i] == s[at[i]] && f(
                s[at[i]],
            ),
        forall|i: int, j: int| 0 <= i < j < at.len() ==> #[trigger] at[i] < #[trigger] at[j],
    decreases s.len(),
{
    reveal(Seq::filter);
    if s.len() == 0 {
        Seq::empty()
    } else {
        let front = lemma_filtered(s.drop_last(), f);
        if f(s.last()) {
            front.push(s.len() - 1)
        } else {
            front
        }
    }
}

/// Fewer entries say no more.
proof fn lemma_fewer(p: Pass, rot: Seq<(usize, usize)>, pair: Seq<(usize, usize, usize)>)
    requires
        sound(p),
        exists|f: spec_fn((usize, usize)) -> bool| rot == #[trigger] p.rot.filter(f),
        exists|f: spec_fn((usize, usize, usize)) -> bool| pair == #[trigger] p.pair.filter(f),
    ensures
        sound(Pass { rot, pair, ..p }),
{
    let n = Pass { rot, pair, ..p };
    let f = choose|f: spec_fn((usize, usize)) -> bool| rot == #[trigger] p.rot.filter(f);
    let g = choose|g: spec_fn((usize, usize, usize)) -> bool| pair == #[trigger] p.pair.filter(g);
    let at = lemma_filtered(p.rot, f);
    let to = lemma_filtered(p.pair, g);
    assert forall|i: int| 0 <= i < rot.len() implies rot_ok(n, #[trigger] rot[i]) by {
        assert(rot_ok(p, p.rot[at[i]]));
    }
    assert forall|i: int| 0 <= i < pair.len() implies pair_ok(n, #[trigger] pair[i]) by {
        assert(pair_ok(p, p.pair[to[i]]));
    }
    assert forall|i: int, j: int| 0 <= i < j < pair.len() implies !((#[trigger] pair[i]).0 == (
    #[trigger] pair[j]).0 && pair[i].1 == pair[j].1) by {
        assert(to[i] < to[j]);
        assert(pair[i] == p.pair[to[i]] && pair[j] == p.pair[to[j]]);
    }
}

proof fn lemma_filter_all<T>(s: Seq<T>) -> (f: spec_fn(T) -> bool)
    ensures
        s == s.filter(f),
    decreases s.len(),
{
    let f = |x: T| true;
    lemma_keep_all(s, f);
    f
}

proof fn lemma_keep_all<T>(s: Seq<T>, f: spec_fn(T) -> bool)
    requires
        forall|x: T| #[trigger] f(x),
    ensures
        s == s.filter(f),
    decreases s.len(),
{
    reveal(Seq::filter);
    if s.len() > 0 {
        lemma_keep_all(s.drop_last(), f);
        assert(s =~= s.drop_last().push(s.last()));
    } else {
        assert(s =~= s.filter(f));
    }
}

/// A gate at the end leaves alone what is said of other qubits.
proof fn lemma_pushed(p: Pass, g: BackendGate)
    requires
        sound(p),
        p.out.len() < usize::MAX,
        forall|i: int|
            0 <= i < p.rot.len() ==> !g.wires().contains((#[trigger] p.rot[i]).0),
        forall|i: int|
            0 <= i < p.pair.len() ==> !g.wires().contains((#[trigger] p.pair[i]).0)
                && !g.wires().contains(p.pair[i].1),
    ensures
        sound(Pass { out: p.out.push(Some(g)), ..p }),
{
    let n = Pass { out: p.out.push(Some(g)), ..p };
    assert forall|i: int| 0 <= i < n.rot.len() implies rot_ok(n, #[trigger] n.rot[i]) by {
        assert(rot_ok(p, p.rot[i]));
    }
    assert forall|i: int| 0 <= i < n.pair.len() implies pair_ok(n, #[trigger] n.pair[i]) by {
        assert(pair_ok(p, p.pair[i]));
    }
}

/// How many gates a state stands for at most.
spec fn size(p: Pass) -> nat {
    p.out.len() + p.held.len()
}

/// Forgets rotations on a qubit.
proof fn lemma_without(p: Pass, q: usize)
    requires
        sound(p),
    ensures
        sound(Pass { rot: without(p.rot, q), ..p }),
        forall|i: int|
            0 <= i < without(p.rot, q).len() ==> (#[trigger] without(p.rot, q)[i]).0 != q,
{
    let f = lemma_filter_all(p.pair);
    assert(without(p.rot, q) == p.rot.filter(off(q)));
    assert(p.pair == p.pair.filter(f));
    lemma_fewer(p, without(p.rot, q), p.pair);
    let at = lemma_filtered(p.rot, off(q));
    assert forall|i: int| 0 <= i < without(p.rot, q).len() implies (#[trigger] without(p.rot, q)[i]).0
        != q by {
        assert(off::<usize>(q)(p.rot[at[i]]));
    }
}

/// Forgets pairs with a qubit.
proof fn lemma_pairs_without(p: Pass, q: usize)
    requires
        sound(p),
    ensures
        sound(Pass { pair: pairs_without(p.pair, q), ..p }),
        forall|i: int|
            0 <= i < pairs_without(p.pair, q).len() ==> (#[trigger] pairs_without(p.pair, q)[i]).0
                != q && pairs_without(p.pair, q)[i].1 != q,
{
    let f = lemma_filter_all(p.rot);
    assert(pairs_without(p.pair, q) == p.pair.filter(off_pair(q)));
    assert(p.rot == p.rot.filter(f));
    lemma_fewer(p, p.rot, pairs_without(p.pair, q));
    let at = lemma_filtered(p.pair, off_pair(q));
    assert forall|i: int| 0 <= i < pairs_without(p.pair, q).len() implies (
    #[trigger] pairs_without(p.pair, q)[i]).0 != q && pairs_without(p.pair, q)[i].1 != q by {
        assert(off_pair(q)(p.pair[at[i]]));
    }
}

/// Held rotations split at a place.
proof fn lemma_held_at(held: Seq<(usize, Binary64)>, i: int)
    requires
        0 <= i < held.len(),
    ensures
        held_gates(held) == held_gates(held.take(i)).push(BackendGate::Rz(held[i].0, held[i].1))
            + held_gates(held.skip(i + 1)),
        held_gates(held.remove(i)) == held_gates(held.take(i)) + held_gates(held.skip(i + 1)),
{
    assert(held_gates(held) =~= held_gates(held.take(i)).push(
        BackendGate::Rz(held[i].0, held[i].1),
    ) + held_gates(held.skip(i + 1)));
    assert(held_gates(held.remove(i)) =~= held_gates(held.take(i)) + held_gates(held.skip(i + 1)));
}

/// Two rotations about Z may change places.
proof fn lemma_rz_commute(a: BackendGate, b: BackendGate)
    requires
        a is Rz,
        b is Rz,
    ensures
        commute(a, b),
{
}

/// Whether something is held back for a qubit.
spec fn holds(held: Seq<(usize, Binary64)>, q: usize) -> bool {
    exists|i: int| 0 <= i < held.len() && (#[trigger] held[i]).0 == q
}

/// Letting go of what is held back for a qubit.
proof fn lemma_flushed(p: Pass, q: usize)
    requires
        sound(p),
        size(p) <= usize::MAX,
    ensures
        sound(flushed(p, q)),
        reaches(peephole_rule(), meaning(p), meaning(flushed(p, q))),
        size(flushed(p, q)) <= size(p),
        !holds(flushed(p, q).held, q),
        forall|x: usize| #[trigger] holds(flushed(p, q).held, x) ==> holds(p.held, x),
{
    let i = position(p.held, q, 0);
    let n = flushed(p, q);
    let rule = peephole_rule();
    lemma_position(p.held, q, 0);
    if i >= p.held.len() {
        lemma_reaches_self(rule, meaning(p));
    } else {
        let theta = p.held[i].1;
        let g = BackendGate::Rz(q, theta);
        let l = live(p.out);
        let h1 = held_gates(p.held.take(i));
        let h2 = held_gates(p.held.skip(i + 1));
        let none = Seq::<BackendGate>::empty();
        lemma_held_at(p.held, i);
        assert forall|k: int| 0 <= k < h1.len() implies commute(#[trigger] h1[k], g) by {
            lemma_rz_commute(h1[k], g);
        }
        lemma_move(l, h1, g);
        lemma_reaches_within(rule, none, l + h1.push(g), l + (seq![g] + h1), h2);
        assert(meaning(p) =~= none + (l + h1.push(g)) + h2);
        let mid = none + (l + (seq![g] + h1)) + h2;
        assert(mid =~= l + seq![g] + (h1 + h2));
        assert forall|k: int| 0 <= k < n.held.len() implies (#[trigger] n.held[k]).0 != q by {
            if k < i {
                assert(n.held[k] == p.held[k]);
            } else {
                assert(n.held[k] == p.held[k + 1]);
                assert(p.held[i].0 != p.held[k + 1].0);
            }
        }
        assert forall|x: usize| #[trigger] holds(n.held, x) implies holds(p.held, x) by {
            let k = choose|k: int| 0 <= k < n.held.len() && (#[trigger] n.held[k]).0 == x;
            if k < i {
                assert(p.held[k].0 == x);
            } else {
                assert(p.held[k + 1].0 == x);
            }
        }
        let a = Pass { held: p.held.remove(i), ..p };
        assert(sound(a)) by {
            assert forall|x: int| 0 <= x < a.rot.len() implies rot_ok(a, #[trigger] a.rot[x]) by {
                assert(rot_ok(p, p.rot[x]));
            }
            assert forall|x: int| 0 <= x < a.pair.len() implies pair_ok(a, #[trigger] a.pair[x]) by {
                assert(pair_ok(p, p.pair[x]));
            }
            assert forall|x: int, y: int| 0 <= x < y < a.held.len() implies (#[trigger] a.held[x]).0
                != (#[trigger] a.held[y]).0 by {
                let u = if x < i {
                    x
                } else {
                    x + 1
                };
                let v = if y < i {
                    y
                } else {
                    y + 1
                };
                assert(a.held[x] == p.held[u] && a.held[y] == p.held[v]);
            }
        }
        lemma_without(a, q);
        let b = Pass { rot: without(a.rot, q), ..a };
        if no_turn(theta) {
            assert(!acts(g));
            assert(rewrites(seq![g], none));
            lemma_once(l, seq![g], none, h1 + h2);
            assert(l + none + (h1 + h2) =~= meaning(n));
            lemma_then(meaning(p), mid, meaning(n));
            assert(n == b);
        } else {
            let c = BackendGate::Rz(q, centered(theta));
            assert(alone(seq![g][0], seq![c][0]));
            assert(rewrites(seq![g], seq![c]));
            lemma_once(l, seq![g], seq![c], h1 + h2);
            lemma_live_push(p.out, c);
            assert(l + seq![c] + (h1 + h2) =~= meaning(n));
            lemma_then(meaning(p), mid, meaning(n));
            lemma_pairs_without(b, q);
            let d = Pass { pair: pairs_without(b.pair, q), ..b };
            assert(c.wires() == seq![q]);
            assert forall|x: int| 0 <= x < d.rot.len() implies !c.wires().contains(
                (#[trigger] d.rot[x]).0,
            ) by {
                assert(without(a.rot, q)[x].0 != q);
            }
            assert forall|x: int| 0 <= x < d.pair.len() implies !c.wires().contains(
                (#[trigger] d.pair[x]).0,
            ) && !c.wires().contains(d.pair[x].1) by {
                assert(pairs_without(b.pair, q)[x].0 != q);
            }
            lemma_pushed(d, c);
        }
    }
}

/// A gate moves past what is held back.
proof fn lemma_past_held(p: Pass, g: BackendGate)
    requires
        forall|k: int|
            0 <= k < p.held.len() ==> commute(
                BackendGate::Rz((#[trigger] p.held[k]).0, p.held[k].1),
                g,
            ),
    ensures
        reaches(
            peephole_rule(),
            meaning(p).push(g),
            live(p.out).push(g) + held_gates(p.held),
        ),
{
    let l = live(p.out);
    let h = held_gates(p.held);
    assert forall|k: int| 0 <= k < h.len() implies commute(#[trigger] h[k], g) by {
        assert(h[k] == BackendGate::Rz(p.held[k].0, p.held[k].1));
    }
    lemma_move(l, h, g);
    assert(meaning(p).push(g) =~= l + h.push(g));
    assert(l.push(g) + h =~= l + (seq![g] + h));
}

/// A rotation about Z is held back.
proof fn lemma_on_rz(p: Pass, q: usize, theta: Binary64)
    requires
        sound(p),
    ensures
        sound(on_rz(p, q, theta)),
        reaches(
            peephole_rule(),
            meaning(p).push(BackendGate::Rz(q, theta)),
            meaning(on_rz(p, q, theta)),
        ),
        size(on_rz(p, q, theta)) <= size(p) + 1,
{
    let i = position(p.held, q, 0);
    let n = on_rz(p, q, theta);
    let g = BackendGate::Rz(q, theta);
    let none = Seq::<BackendGate>::empty();
    let l = live(p.out);
    let h = held_gates(p.held);
    lemma_position(p.held, q, 0);
    lemma_without(p, q);
    let a = Pass { rot: without(p.rot, q), ..p };
    if i >= p.held.len() {
        let c = BackendGate::Rz(q, sum(Binary64 { bits: 0 }, theta));
        assert(alone(seq![g][0], seq![c][0]));
        assert(rewrites(seq![g], seq![c]));
        lemma_once(meaning(p), seq![g], seq![c], none);
        assert(meaning(p) + seq![g] + none =~= meaning(p).push(g));
        assert(held_gates(n.held) =~= h.push(c));
        assert(meaning(p) + seq![c] + none =~= meaning(n));
    } else {
        let x = BackendGate::Rz(q, p.held[i].1);
        let c = BackendGate::Rz(q, sum(p.held[i].1, theta));
        let h1 = held_gates(p.held.take(i));
        let h2 = held_gates(p.held.skip(i + 1));
        lemma_held_at(p.held, i);
        lemma_held_at(n.held, i);
        assert(n.held.take(i) =~= p.held.take(i));
        assert(n.held.skip(i + 1) =~= p.held.skip(i + 1));
        assert forall|k: int| 0 <= k < h2.len() implies commute(#[trigger] h2[k], g) by {
            lemma_rz_commute(h2[k], g);
        }
        lemma_move(l + h1.push(x), h2, g);
        assert(meaning(p).push(g) =~= (l + h1.push(x)) + h2.push(g));
        let mid = (l + h1.push(x)) + (seq![g] + h2);
        assert(mid =~= (l + h1) + seq![x, g] + h2);
        assert(merges(seq![x, g][0], seq![x, g][1], seq![c][0]));
        assert(rewrites(seq![x, g], seq![c]));
        lemma_once(l + h1, seq![x, g], seq![c], h2);
        assert((l + h1) + seq![c] + h2 =~= meaning(n));
        lemma_then(meaning(p).push(g), mid, meaning(n));
    }
    assert(sound(n)) by {
        assert forall|x: int| 0 <= x < n.rot.len() implies rot_ok(n, #[trigger] n.rot[x]) by {
            assert(rot_ok(a, a.rot[x]));
        }
        assert forall|x: int| 0 <= x < n.pair.len() implies pair_ok(n, #[trigger] n.pair[x]) by {
            assert(pair_ok(p, p.pair[x]));
        }
        assert forall|x: int, y: int| 0 <= x < y < n.held.len() implies (#[trigger] n.held[x]).0 != (
        #[trigger] n.held[y]).0 by {
            if y < p.held.len() {
                assert(p.held[x].0 != p.held[y].0);
            }
        }
    }
}

proof fn lemma_untouched_replaced(
    out: Seq<Option<BackendGate>>,
    at: int,
    x: BackendGate,
    y: Option<BackendGate>,
    from: int,
    q: usize,
)
    requires
        0 <= from,
        0 <= at < out.len(),
        out[at] == Some(x),
        y matches Some(g) ==> g.wires() == x.wires(),
        untouched(out, from, q),
    ensures
        untouched(out.update(at, y), from, q),
{
    let n = out.update(at, y);
    assert forall|j: int| from <= j < n.len() && (#[trigger] n[j]) is Some implies !n[j]->0.wires().contains(
        q,
    ) by {
        assert(out[j] is Some);
    }
}

/// A gate in place of one on the same qubits.
proof fn lemma_replaced(p: Pass, at: int, x: BackendGate, y: BackendGate)
    requires
        sound(p),
        0 <= at < p.out.len(),
        p.out[at] == Some(x),
        x.wires() == y.wires(),
        (x is Rot && y is Rot) || (x is Rzz && y is Rzz),
    ensures
        sound(Pass { out: p.out.update(at, Some(y)), ..p }),
{
    let n = Pass { out: p.out.update(at, Some(y)), ..p };
    assert(x.wires()[0] == y.wires()[0]);
    if x is Rzz {
        assert(x.wires()[1] == y.wires()[1]);
    }
    assert forall|i: int| 0 <= i < n.rot.len() implies rot_ok(n, #[trigger] n.rot[i]) by {
        let e = p.rot[i];
        assert(rot_ok(p, e));
        lemma_untouched_replaced(p.out, at, x, Some(y), e.1 + 1, e.0);
        if y is Rot {
            assert(x.wires() == seq![x->Rot_0] && y.wires() == seq![y->Rot_0]);
            assert(seq![x->Rot_0][0] == seq![y->Rot_0][0]);
        }
    }
    assert forall|i: int| 0 <= i < n.pair.len() implies pair_ok(n, #[trigger] n.pair[i]) by {
        let e = p.pair[i];
        assert(pair_ok(p, e));
        lemma_untouched_replaced(p.out, at, x, Some(y), e.2 + 1, e.0);
        lemma_untouched_replaced(p.out, at, x, Some(y), e.2 + 1, e.1);
    }
}

/// Gates that leave a qubit alone are apart from gates on it.
proof fn lemma_tail_apart(out: Seq<Option<BackendGate>>, at: int, g: BackendGate)
    requires
        0 <= at <= out.len(),
        !classical(g),
        forall|q: usize| g.wires().contains(q) ==> #[trigger] untouched(out, at, q),
    ensures
        forall|k: int|
            0 <= k < live(out.skip(at)).len() ==> commute(#[trigger] live(out.skip(at))[k], g),
{
    let b = out.skip(at);
    assert forall|k: int| 0 <= k < live(b).len() implies commute(#[trigger] live(b)[k], g) by {
        let j = lemma_live_from(b, k);
        let x = live(b)[k];
        assert(b[j] == out[at + j]);
        assert forall|q: usize| #[trigger] x.wires().contains(q) implies !g.wires().contains(q) by {
            if g.wires().contains(q) {
                assert(untouched(out, at, q));
                assert(out[at + j] is Some);
            }
        }
        assert(apart(x, g));
    }
}

/// A gate moves next to an earlier one and both become what a rule says.
proof fn lemma_meet(
    out: Seq<Option<BackendGate>>,
    at: int,
    x: BackendGate,
    g: BackendGate,
    r: Option<BackendGate>,
    h: Seq<BackendGate>,
)
    requires
        0 <= at < out.len(),
        out[at] == Some(x),
        !classical(g),
        forall|q: usize| g.wires().contains(q) ==> #[trigger] untouched(out, at + 1, q),
        match r {
            Some(y) => merges(x, g, y),
            None => undoes(x, g),
        },
    ensures
        reaches(peephole_rule(), live(out).push(g) + h, live(out.update(at, r)) + h),
{
    let none = Seq::<BackendGate>::empty();
    let a = live(out.take(at));
    let b = live(out.skip(at + 1));
    let n = out.update(at, r);
    lemma_live_at(out, at);
    lemma_live_at(n, at);
    assert(n.take(at) =~= out.take(at));
    assert(n.skip(at + 1) =~= out.skip(at + 1));
    lemma_tail_apart(out, at + 1, g);
    let left = a + seq![x];
    lemma_move(left, b, g);
    lemma_reaches_within(peephole_rule(), none, left + b.push(g), left + (seq![g] + b), h);
    assert(live(out).push(g) + h =~= none + (left + b.push(g)) + h);
    let mid = none + (left + (seq![g] + b)) + h;
    let l = seq![x, g];
    assert(mid =~= a + l + (b + h));
    match r {
        Some(y) => {
            assert(merges(l[0], l[1], seq![y][0]));
            assert(rewrites(l, seq![y]));
            lemma_once(a, l, seq![y], b + h);
            assert(a + seq![y] + (b + h) =~= live(n) + h);
        },
        None => {
            assert(undoes(l[0], l[1]));
            assert(rewrites(l, none));
            lemma_once(a, l, none, b + h);
            assert(a + none + (b + h) =~= live(n) + h);
        },
    }
    lemma_then(live(out).push(g) + h, mid, live(n) + h);
}

/// Another rotation merges with the one before on its qubit, or is added.
proof fn lemma_on_rot(before: Pass, q: usize, theta: Binary64)
    requires
        sound(before),
        size(before) < usize::MAX,
    ensures
        sound(on_rot(before, q, theta)),
        reaches(
            peephole_rule(),
            meaning(before).push(BackendGate::Rot(q, theta)),
            meaning(on_rot(before, q, theta)),
        ),
        size(on_rot(before, q, theta)) <= size(before) + 1,
{
    let p = flushed(before, q);
    let n = on_rot(before, q, theta);
    let g = BackendGate::Rot(q, theta);
    let none = Seq::<BackendGate>::empty();
    let i = position(p.rot, q, 0);
    lemma_flushed(before, q);
    lemma_reaches_within(peephole_rule(), none, meaning(before), meaning(p), seq![g]);
    assert(none + meaning(before) + seq![g] =~= meaning(before).push(g));
    assert(none + meaning(p) + seq![g] =~= meaning(p).push(g));
    assert(g.wires() == seq![q]);
    assert forall|k: int| 0 <= k < p.held.len() implies commute(
        BackendGate::Rz((#[trigger] p.held[k]).0, p.held[k].1),
        g,
    ) by {
        assert(p.held[k].0 != q);
        let x = BackendGate::Rz(p.held[k].0, p.held[k].1);
        assert(x.wires() == seq![p.held[k].0]);
        assert(apart(x, g));
    }
    lemma_past_held(p, g);
    let h = held_gates(p.held);
    let mid = live(p.out).push(g) + h;
    lemma_then(meaning(before).push(g), meaning(p).push(g), mid);
    lemma_position(p.rot, q, 0);
    if i < p.rot.len() && p.out[p.rot[i].1 as int] matches Some(BackendGate::Rot(_, last)) {
        let at = p.rot[i].1 as int;
        assert(rot_ok(p, p.rot[i]));
        let x = p.out[at]->0;
        let both = sum(x->Rot_1, theta);
        let y = if no_turn(both) {
            BackendGate::Rot(q, Binary64 { bits: 0 })
        } else {
            BackendGate::Rot(q, centered(both))
        };
        assert forall|w: usize| g.wires().contains(w) implies #[trigger] untouched(
            p.out,
            at + 1,
            w,
        ) by {
            assert(w == q);
        }
        lemma_meet(p.out, at, x, g, Some(y), h);
        lemma_replaced(p, at, x, y);
        let m = Pass { out: p.out.update(at, Some(y)), ..p };
        lemma_without(m, q);
        lemma_then(meaning(before).push(g), mid, meaning(m));
    } else {
        lemma_without(p, q);
        let a = Pass { rot: without(p.rot, q), ..p };
        lemma_pairs_without(a, q);
        let b = Pass { pair: pairs_without(a.pair, q), ..a };
        assert forall|x: int| 0 <= x < b.rot.len() implies !g.wires().contains(
            (#[trigger] b.rot[x]).0,
        ) by {
            assert(without(p.rot, q)[x].0 != q);
        }
        assert forall|x: int| 0 <= x < b.pair.len() implies !g.wires().contains(
            (#[trigger] b.pair[x]).0,
        ) && !g.wires().contains(b.pair[x].1) by {
            assert(pairs_without(a.pair, q)[x].0 != q);
        }
        lemma_pushed(b, g);
        let c = Pass { out: b.out.push(Some(g)), ..b };
        lemma_live_push(p.out, g);
        assert(meaning(n) == mid);
        assert(sound(n)) by {
            assert forall|x: int| 0 <= x < n.rot.len() implies rot_ok(n, #[trigger] n.rot[x]) by {
                if x < c.rot.len() {
                    assert(rot_ok(c, c.rot[x]));
                }
            }
            assert forall|x: int| 0 <= x < n.pair.len() implies pair_ok(n, #[trigger] n.pair[x]) by {
                assert(pair_ok(c, c.pair[x]));
            }
        }
    }
}

/// What is left of the entries when a two-qubit gate comes.
spec fn ready(p: Pass, a: usize, b: usize) -> bool {
    &&& forall|i: int|
        0 <= i < p.rot.len() ==> (#[trigger] p.rot[i]).0 != a && p.rot[i].0 != b
    &&& forall|i: int| 0 <= i < p.pair.len() ==> beside(a, b)(#[trigger] p.pair[i])
}

proof fn lemma_entered(p: Pass, a: usize, b: usize)
    requires
        sound(p),
    ensures
        sound(entered(p, a, b)),
        ready(entered(p, a, b), a, b),
        meaning(entered(p, a, b)) == meaning(p),
        size(entered(p, a, b)) == size(p),
{
    lemma_without(p, a);
    let x = Pass { rot: without(p.rot, a), ..p };
    lemma_without(x, b);
    let y = Pass { rot: without(x.rot, b), ..x };
    let f = lemma_filter_all(y.rot);
    assert(y.rot == y.rot.filter(f));
    assert(other_pairs(y.pair, a, b) == y.pair.filter(beside(a, b)));
    lemma_fewer(y, y.rot, other_pairs(y.pair, a, b));
    let n = entered(p, a, b);
    let at = lemma_filtered(x.rot, off::<usize>(b));
    assert forall|i: int| 0 <= i < n.rot.len() implies (#[trigger] n.rot[i]).0 != a && n.rot[i].0
        != b by {
        assert(without(x.rot, b)[i].0 != b);
        assert(n.rot[i] == x.rot[at[i]]);
        assert(without(p.rot, a)[at[i]].0 != a);
    }
    let to = lemma_filtered(y.pair, beside(a, b));
    assert forall|i: int| 0 <= i < n.pair.len() implies beside(a, b)(#[trigger] n.pair[i]) by {
        assert(n.pair[i] == y.pair[to[i]]);
    }
}

/// Whether a gate is the two-qubit gate on `a` and `b`.
spec fn two_qubit(g: BackendGate, a: usize, b: usize) -> bool {
    match g {
        BackendGate::Cx(x, y) | BackendGate::Cz(x, y) | BackendGate::Rzz(x, y, _) => x == a && y == b,
        _ => false,
    }
}

/// Adding a two-qubit gate.
proof fn lemma_joined(p: Pass, a: usize, b: usize, g: BackendGate)
    requires
        sound(p),
        ready(p, a, b),
        p.out.len() < usize::MAX,
        two_qubit(g, a, b),
    ensures
        sound(joined(p, a, b, g)),
        meaning(joined(p, a, b, g)) == live(p.out).push(g) + held_gates(p.held),
        size(joined(p, a, b, g)) == size(p) + 1,
{
    let n = joined(p, a, b, g);
    let lo = lower_of(a, b);
    let hi = upper_of(a, b);
    let i = pair_position(p.pair, lo, hi, 0);
    lemma_pair_position(p.pair, lo, hi, 0);
    lemma_live_push(p.out, g);
    assert(g.wires() == seq![a, b]);
    assert forall|x: int| 0 <= x < n.rot.len() implies rot_ok(n, #[trigger] n.rot[x]) by {
        assert(rot_ok(p, p.rot[x]));
    }
    assert forall|x: int| 0 <= x < n.pair.len() implies pair_ok(n, #[trigger] n.pair[x]) by {
        if x < p.pair.len() && x != i {
            let e = p.pair[x];
            assert(pair_ok(p, e));
            assert(beside(a, b)(e));
            if e.0 == lo && e.1 == hi {
                if i < p.pair.len() {
                    assert(p.pair[x].0 == p.pair[i].0 && p.pair[x].1 == p.pair[i].1);
                    if x < i {
                        assert(!(p.pair[x].0 == p.pair[i].0 && p.pair[x].1 == p.pair[i].1));
                    } else {
                        assert(!(p.pair[i].0 == p.pair[x].0 && p.pair[i].1 == p.pair[x].1));
                    }
                }
            }
        }
    }
    assert forall|x: int, y: int| 0 <= x < y < n.pair.len() implies !((#[trigger] n.pair[x]).0 == (
    #[trigger] n.pair[y]).0 && n.pair[x].1 == n.pair[y].1) by {
        if i < p.pair.len() {
            assert(!(p.pair[x].0 == p.pair[y].0 && p.pair[x].1 == p.pair[y].1));
        } else if y < p.pair.len() {
            assert(!(p.pair[x].0 == p.pair[y].0 && p.pair[x].1 == p.pair[y].1));
        }
    }
}

/// Taking out what stands last on a pair.
proof fn lemma_cancelled(p: Pass, a: usize, b: usize, g: BackendGate)
    requires
        sound(p),
        two_qubit(g, a, b),
        last_on(p, a, b) is Some,
        undoes(last_on(p, a, b)->0, g),
    ensures
        sound(cancelled(p, a, b)),
        reaches(
            peephole_rule(),
            live(p.out).push(g) + held_gates(p.held),
            meaning(cancelled(p, a, b)),
        ),
        size(cancelled(p, a, b)) == size(p),
{
    let lo = lower_of(a, b);
    let hi = upper_of(a, b);
    let i = pair_position(p.pair, lo, hi, 0);
    lemma_pair_position(p.pair, lo, hi, 0);
    let e = p.pair[i];
    let at = e.2 as int;
    assert(pair_ok(p, e));
    let x = p.out[at]->0;
    let n = cancelled(p, a, b);
    assert(g.wires() == seq![a, b]);
    assert forall|w: usize| g.wires().contains(w) implies #[trigger] untouched(
        p.out,
        at + 1,
        w,
    ) by {
        assert(w == a || w == b);
    }
    lemma_meet(p.out, at, x, g, None, held_gates(p.held));
    assert forall|k: int| 0 <= k < n.rot.len() implies rot_ok(n, #[trigger] n.rot[k]) by {
        assert(rot_ok(p, p.rot[k]));
        lemma_untouched_replaced(p.out, at, x, None, p.rot[k].1 + 1, p.rot[k].0);
    }
    assert forall|k: int| 0 <= k < n.pair.len() implies pair_ok(n, #[trigger] n.pair[k]) by {
        let m = if k < i {
            k
        } else {
            k + 1
        };
        let y = p.pair[m];
        assert(n.pair[k] == y);
        assert(pair_ok(p, y));
        if m < i {
            assert(!(p.pair[m].0 == p.pair[i].0 && p.pair[m].1 == p.pair[i].1));
        } else {
            assert(!(p.pair[i].0 == p.pair[m].0 && p.pair[i].1 == p.pair[m].1));
        }
        assert(y.2 != e.2);
        lemma_untouched_replaced(p.out, at, x, None, y.2 + 1, y.0);
        lemma_untouched_replaced(p.out, at, x, None, y.2 + 1, y.1);
    }
    assert forall|k: int, m: int| 0 <= k < m < n.pair.len() implies !((#[trigger] n.pair[k]).0 == (
    #[trigger] n.pair[m]).0 && n.pair[k].1 == n.pair[m].1) by {
        let u = if k < i {
            k
        } else {
            k + 1
        };
        let v = if m < i {
            m
        } else {
            m + 1
        };
        assert(n.pair[k] == p.pair[u] && n.pair[m] == p.pair[v]);
        assert(!(p.pair[u].0 == p.pair[v].0 && p.pair[u].1 == p.pair[v].1));
    }
}

proof fn lemma_on_cx(before: Pass, a: usize, b: usize)
    requires
        sound(before),
        size(before) < usize::MAX,
    ensures
        sound(on_cx(before, a, b)),
        reaches(
            peephole_rule(),
            meaning(before).push(BackendGate::Cx(a, b)),
            meaning(on_cx(before, a, b)),
        ),
        size(on_cx(before, a, b)) <= size(before) + 1,
{
    let f = flushed(before, b);
    let p = entered(f, a, b);
    let g = BackendGate::Cx(a, b);
    let none = Seq::<BackendGate>::empty();
    lemma_flushed(before, b);
    lemma_entered(f, a, b);
    lemma_reaches_within(peephole_rule(), none, meaning(before), meaning(f), seq![g]);
    assert(none + meaning(before) + seq![g] =~= meaning(before).push(g));
    assert(none + meaning(f) + seq![g] =~= meaning(p).push(g));
    assert forall|k: int| 0 <= k < p.held.len() implies commute(
        BackendGate::Rz((#[trigger] p.held[k]).0, p.held[k].1),
        g,
    ) by {
        assert(f.held[k].0 != b);
        let x = BackendGate::Rz(p.held[k].0, p.held[k].1);
        assert(x.wires() == seq![p.held[k].0]);
        assert(g.wires() == seq![a, b]);
        if p.held[k].0 != a {
            assert(apart(x, g));
        }
    }
    lemma_past_held(p, g);
    let mid = live(p.out).push(g) + held_gates(p.held);
    lemma_then(meaning(before).push(g), meaning(p).push(g), mid);
    if last_on(p, a, b) == Some(g) {
        lemma_cancelled(p, a, b, g);
        lemma_then(meaning(before).push(g), mid, meaning(cancelled(p, a, b)));
    } else {
        lemma_joined(p, a, b, g);
    }
}

/// A diagonal gate passes what is held back.
proof fn lemma_diagonal_past_held(p: Pass, g: BackendGate)
    requires
        g is Cz || g is Rzz,
    ensures
        reaches(
            peephole_rule(),
            meaning(p).push(g),
            live(p.out).push(g) + held_gates(p.held),
        ),
{
    assert forall|k: int| 0 <= k < p.held.len() implies commute(
        BackendGate::Rz((#[trigger] p.held[k]).0, p.held[k].1),
        g,
    ) by {
        let x = BackendGate::Rz(p.held[k].0, p.held[k].1);
        assert(diagonal(x) && diagonal(g));
    }
    lemma_past_held(p, g);
}

proof fn lemma_on_cz(before: Pass, a: usize, b: usize)
    requires
        sound(before),
        size(before) < usize::MAX,
    ensures
        sound(on_cz(before, a, b)),
        reaches(
            peephole_rule(),
            meaning(before).push(BackendGate::Cz(a, b)),
            meaning(on_cz(before, a, b)),
        ),
        size(on_cz(before, a, b)) <= size(before) + 1,
{
    let p = entered(before, a, b);
    let g = BackendGate::Cz(a, b);
    lemma_entered(before, a, b);
    lemma_diagonal_past_held(p, g);
    let mid = live(p.out).push(g) + held_gates(p.held);
    if last_on(p, a, b) matches Some(BackendGate::Cz(x, y)) {
        lemma_last_on(p, a, b);
        lemma_cancelled(p, a, b, g);
        lemma_then(meaning(before).push(g), mid, meaning(cancelled(p, a, b)));
    } else {
        lemma_joined(p, a, b, g);
    }
}

/// What stands last on a pair is on it.
proof fn lemma_last_on(p: Pass, a: usize, b: usize)
    requires
        sound(p),
    ensures
        last_on(p, a, b) matches Some(g) ==> on_pair(g, lower_of(a, b), upper_of(a, b)),
        last_on(p, a, b) is Some ==> pair_ok(
            p,
            p.pair[pair_position(p.pair, lower_of(a, b), upper_of(a, b), 0)],
        ) && pair_position(p.pair, lower_of(a, b), upper_of(a, b), 0) < p.pair.len()
            && p.pair[pair_position(p.pair, lower_of(a, b), upper_of(a, b), 0)].0 == lower_of(a, b)
            && p.pair[pair_position(p.pair, lower_of(a, b), upper_of(a, b), 0)].1 == upper_of(a, b),
{
    let i = pair_position(p.pair, lower_of(a, b), upper_of(a, b), 0);
    lemma_pair_position(p.pair, lower_of(a, b), upper_of(a, b), 0);
    if i < p.pair.len() {
        assert(pair_ok(p, p.pair[i]));
    }
}

proof fn lemma_on_rzz(before: Pass, a: usize, b: usize, theta: Binary64)
    requires
        sound(before),
        size(before) < usize::MAX,
    ensures
        sound(on_rzz(before, a, b, theta)),
        reaches(
            peephole_rule(),
            meaning(before).push(BackendGate::Rzz(a, b, theta)),
            meaning(on_rzz(before, a, b, theta)),
        ),
        size(on_rzz(before, a, b, theta)) <= size(before) + 1,
{
    let p = entered(before, a, b);
    let g = BackendGate::Rzz(a, b, theta);
    lemma_entered(before, a, b);
    lemma_diagonal_past_held(p, g);
    let mid = live(p.out).push(g) + held_gates(p.held);
    lemma_last_on(p, a, b);
    match last_on(p, a, b) {
        Some(BackendGate::Rzz(x, y, t)) => {
            let i = pair_position(p.pair, lower_of(a, b), upper_of(a, b), 0);
            let at = p.pair[i].2 as int;
            let old = BackendGate::Rzz(x, y, t);
            let new = BackendGate::Rzz(x, y, centered(sum(t, theta)));
            assert(g.wires() == seq![a, b]);
            assert forall|w: usize| g.wires().contains(w) implies #[trigger] untouched(
                p.out,
                at + 1,
                w,
            ) by {
                assert(w == a || w == b);
            }
            assert(same_pair(x, y, a, b));
            lemma_meet(p.out, at, old, g, Some(new), held_gates(p.held));
            assert(old.wires() == new.wires());
            lemma_replaced(p, at, old, new);
            lemma_then(meaning(before).push(g), mid, meaning(on_rzz(before, a, b, theta)));
        },
        _ => {
            lemma_joined(p, a, b, g);
        },
    }
}

/// Nothing is known or held back of a qubit.
spec fn clear(p: Pass, q: usize) -> bool {
    &&& !holds(p.held, q)
    &&& forall|i: int| 0 <= i < p.rot.len() ==> (#[trigger] p.rot[i]).0 != q
    &&& forall|i: int| 0 <= i < p.pair.len() ==> (#[trigger] p.pair[i]).0 != q && p.pair[i].1 != q
}

proof fn lemma_clear_kept(p: Pass, q: usize, r: usize)
    requires
        sound(p),
        size(p) <= usize::MAX,
        clear(p, r),
    ensures
        clear(ended(p, q), r),
{
    let f = flushed(p, q);
    lemma_flushed(p, q);
    let n = ended(p, q);
    assert(!holds(f.held, r)) by {
        if holds(f.held, r) {
            assert(holds(p.held, r));
        }
    }
    let a = lemma_filtered(p.rot, off::<usize>(q));
    let b = lemma_filtered(p.pair, off_pair(q));
    assert forall|i: int| 0 <= i < f.rot.len() implies (#[trigger] f.rot[i]).0 != r by {
        if f.rot != p.rot {
            assert(f.rot[i] == p.rot[a[i]]);
        }
    }
    assert forall|i: int| 0 <= i < f.pair.len() implies (#[trigger] f.pair[i]).0 != r
        && f.pair[i].1 != r by {
        if f.pair != p.pair {
            assert(f.pair[i] == p.pair[b[i]]);
        }
    }
    let c = lemma_filtered(f.rot, off::<usize>(q));
    let d = lemma_filtered(f.pair, off_pair(q));
    assert forall|i: int| 0 <= i < n.rot.len() implies (#[trigger] n.rot[i]).0 != r by {
        assert(n.rot[i] == f.rot[c[i]]);
    }
    assert forall|i: int| 0 <= i < n.pair.len() implies (#[trigger] n.pair[i]).0 != r
        && n.pair[i].1 != r by {
        assert(n.pair[i] == f.pair[d[i]]);
    }
}

proof fn lemma_ended(p: Pass, q: usize)
    requires
        sound(p),
        size(p) <= usize::MAX,
    ensures
        sound(ended(p, q)),
        clear(ended(p, q), q),
        reaches(peephole_rule(), meaning(p), meaning(ended(p, q))),
        size(ended(p, q)) <= size(p),
{
    let f = flushed(p, q);
    lemma_flushed(p, q);
    lemma_without(f, q);
    let a = Pass { rot: without(f.rot, q), ..f };
    lemma_pairs_without(a, q);
}

proof fn lemma_ended_all(p: Pass, wires: Seq<usize>, n: nat)
    requires
        sound(p),
        size(p) <= usize::MAX,
        n <= wires.len(),
    ensures
        sound(ended_all(p, wires, n)),
        forall|i: int| 0 <= i < n ==> clear(ended_all(p, wires, n), #[trigger] wires[i]),
        reaches(peephole_rule(), meaning(p), meaning(ended_all(p, wires, n))),
        size(ended_all(p, wires, n)) <= size(p),
    decreases n,
{
    if n == 0 {
        lemma_reaches_self(peephole_rule(), meaning(p));
    } else {
        lemma_ended_all(p, wires, (n - 1) as nat);
        let a = ended_all(p, wires, (n - 1) as nat);
        lemma_ended(a, wires[n - 1]);
        lemma_then(meaning(p), meaning(a), meaning(ended_all(p, wires, n)));
        assert forall|i: int| 0 <= i < n implies clear(
            ended_all(p, wires, n),
            #[trigger] wires[i],
        ) by {
            if i < n - 1 {
                lemma_clear_kept(a, wires[n - 1], wires[i]);
            }
        }
    }
}

proof fn lemma_on_classical(before: Pass, g: BackendGate)
    requires
        sound(before),
        size(before) < usize::MAX,
    ensures
        sound(on_classical(before, g)),
        reaches(peephole_rule(), meaning(before).push(g), meaning(on_classical(before, g))),
        size(on_classical(before, g)) <= size(before) + 1,
{
    let w = g.wires();
    let p = ended_all(before, w, w.len());
    let none = Seq::<BackendGate>::empty();
    lemma_ended_all(before, w, w.len());
    lemma_reaches_within(peephole_rule(), none, meaning(before), meaning(p), seq![g]);
    assert(none + meaning(before) + seq![g] =~= meaning(before).push(g));
    assert(none + meaning(p) + seq![g] =~= meaning(p).push(g));
    assert forall|q: usize| #[trigger] w.contains(q) implies clear(p, q) by {
        let i = choose|i: int| 0 <= i < w.len() && w[i] == q;
        assert(clear(p, w[i]));
    }
    assert forall|k: int| 0 <= k < p.held.len() implies commute(
        BackendGate::Rz((#[trigger] p.held[k]).0, p.held[k].1),
        g,
    ) by {
        let x = BackendGate::Rz(p.held[k].0, p.held[k].1);
        assert(x.wires() == seq![p.held[k].0]);
        assert(holds(p.held, p.held[k].0));
        assert(!w.contains(p.held[k].0));
        assert(apart(x, g));
    }
    lemma_past_held(p, g);
    assert forall|i: int| 0 <= i < p.rot.len() implies !g.wires().contains(
        (#[trigger] p.rot[i]).0,
    ) by {
        if w.contains(p.rot[i].0) {
            assert(clear(p, p.rot[i].0));
        }
    }
    assert forall|i: int| 0 <= i < p.pair.len() implies !g.wires().contains(
        (#[trigger] p.pair[i]).0,
    ) && !g.wires().contains(p.pair[i].1) by {
        if w.contains(p.pair[i].0) {
            assert(clear(p, p.pair[i].0));
        }
        if w.contains(p.pair[i].1) {
            assert(clear(p, p.pair[i].1));
        }
    }
    lemma_pushed(p, g);
    lemma_live_push(p.out, g);
    lemma_then(meaning(before).push(g), meaning(p).push(g), meaning(on_classical(before, g)));
}

proof fn lemma_on_gate(p: Pass, g: BackendGate)
    requires
        sound(p),
        size(p) < usize::MAX,
    ensures
        sound(on_gate(p, g)),
        reaches(peephole_rule(), meaning(p).push(g), meaning(on_gate(p, g))),
        size(on_gate(p, g)) <= size(p) + 1,
{
    match g {
        BackendGate::Rz(q, t) => lemma_on_rz(p, q, t),
        BackendGate::Rot(q, t) => lemma_on_rot(p, q, t),
        BackendGate::Cx(a, b) => lemma_on_cx(p, a, b),
        BackendGate::Cz(a, b) => lemma_on_cz(p, a, b),
        BackendGate::Rzz(a, b, t) => lemma_on_rzz(p, a, b, t),
        _ => lemma_on_classical(p, g),
    }
}

proof fn lemma_passed(gates: Seq<BackendGate>, n: nat)
    requires
        n <= gates.len() <= usize::MAX,
    ensures
        sound(passed(gates, n)),
        reaches(peephole_rule(), gates.take(n as int), meaning(passed(gates, n))),
        size(passed(gates, n)) <= n,
    decreases n,
{
    let none = Seq::<BackendGate>::empty();
    if n == 0 {
        assert(meaning(passed(gates, 0)) =~= gates.take(0));
        lemma_reaches_self(peephole_rule(), gates.take(0));
    } else {
        lemma_passed(gates, (n - 1) as nat);
        let p = passed(gates, (n - 1) as nat);
        let g = gates[n - 1];
        lemma_on_gate(p, g);
        lemma_reaches_within(peephole_rule(), none, gates.take(n - 1), meaning(p), seq![g]);
        assert(none + gates.take(n - 1) + seq![g] =~= gates.take(n as int));
        assert(none + meaning(p) + seq![g] =~= meaning(p).push(g));
        lemma_then(gates.take(n as int), meaning(p).push(g), meaning(passed(gates, n)));
    }
}

proof fn lemma_drained(p: Pass)
    requires
        sound(p),
        size(p) <= usize::MAX,
    ensures
        reaches(peephole_rule(), meaning(p), live(drained(p).out)),
        live(drained(p).out).len() <= size(p),
    decreases p.held.len(),
{
    if p.held.len() == 0 {
        lemma_reaches_self(peephole_rule(), meaning(p));
        assert(meaning(p) =~= live(p.out));
        lemma_live_len(p.out);
    } else {
        let q = p.held[0].0;
        let f = flushed(p, q);
        assert(position(p.held, q, 0) == 0);
        lemma_flushed(p, q);
        lemma_drained(f);
        lemma_then(meaning(p), meaning(f), live(drained(p).out));
    }
}

proof fn lemma_live_len(out: Seq<Option<BackendGate>>)
    ensures
        live(out).len() <= out.len(),
    decreases out.len(),
{
    if out.len() > 0 {
        lemma_live_len(out.drop_last());
    }
}

proof fn lemma_dropped(gates: Seq<BackendGate>)
    ensures
        reaches(peephole_rule(), gates, gates.filter(|g: BackendGate| acts(g))),
        gates.filter(|g: BackendGate| acts(g)).len() <= gates.len(),
    decreases gates.len(),
{
    let kind = |g: BackendGate| acts(g);
    let none = Seq::<BackendGate>::empty();
    let rule = peephole_rule();
    reveal(Seq::filter);
    if gates.len() == 0 {
        lemma_reaches_self(rule, gates);
        assert(gates.filter(kind) =~= gates);
    } else {
        let front = gates.drop_last();
        let g = gates.last();
        lemma_dropped(front);
        let kept = front.filter(kind);
        lemma_reaches_within(rule, none, front, kept, seq![g]);
        assert(none + front + seq![g] =~= gates);
        assert(none + kept + seq![g] =~= kept.push(g));
        if !acts(g) {
            assert(rewrites(seq![g], none));
            lemma_once(kept, seq![g], none, none);
            assert(kept + seq![g] + none =~= kept.push(g));
            assert(kept + none + none =~= kept);
            lemma_then(gates, kept.push(g), kept);
        }
    }
}

/// The optimizer only lets commuting neighbors change places, merges
/// rotations, cancels pairs and drops rotations that do nothing; and it
/// makes no circuit longer.
pub proof fn lemma_optimized(gates: Seq<BackendGate>)
    requires
        gates.len() <= usize::MAX,
    ensures
        reaches(peephole_rule(), gates, optimized(gates)),
        optimized(gates).len() <= gates.len(),
{
    let p = passed(gates, gates.len());
    let l = live(drained(p).out);
    lemma_passed(gates, gates.len());
    assert(gates.take(gates.len() as int) =~= gates);
    lemma_drained(p);
    lemma_dropped(l);
    lemma_then(gates, meaning(p), l);
    lemma_then(gates, l, optimized(gates));
}

/// Measurements and conditioned gates are neither dropped nor reordered.
pub proof fn lemma_optimized_keeps_classical(gates: Seq<BackendGate>)
    requires
        gates.len() <= usize::MAX,
    ensures
        optimized(gates).filter(|g: BackendGate| classical(g)) == gates.filter(
            |g: BackendGate| classical(g),
        ),
{
    let kind = |g: BackendGate| classical(g);
    assert(keeps(peephole_rule(), kind)) by {
        assert forall|l: Seq<BackendGate>, r: Seq<BackendGate>| #[trigger]
            peephole_rule()(l, r) implies l.filter(kind) == r.filter(kind) by {
            reveal_with_fuel(Seq::filter, 3);
            if l.len() == 2 {
                assert(l.drop_last().drop_last() =~= Seq::empty());
                if r.len() == 2 {
                    assert(r.drop_last().drop_last() =~= Seq::empty());
                    assert(r.drop_last()[0] == l[1]);
                    assert(r.last() == l[0]);
                } else if r.len() == 1 {
                    assert(r.drop_last() =~= Seq::empty());
                }
            } else {
                assert(l.drop_last() =~= Seq::empty());
                if r.len() == 1 {
                    assert(r.drop_last() =~= Seq::empty());
                }
            }
        }
    }
    lemma_optimized(gates);
    lemma_reaches_keeps(peephole_rule(), kind, gates, optimized(gates));
}

} // verus!
