//! Rewriting of gate sequences by local rules.
use vstd::prelude::*;

verus! {

/// Which sequences a rule replaces by which.
pub type Rule<G> = spec_fn(Seq<G>, Seq<G>) -> bool;

/// `a` becomes `b` where a rule replaces `l` by `r` between `p` and `s`.
pub open spec fn replaced<G>(
    rule: Rule<G>,
    a: Seq<G>,
    b: Seq<G>,
    p: Seq<G>,
    l: Seq<G>,
    r: Seq<G>,
    s: Seq<G>,
) -> bool {
    rule(l, r) && a == p + l + s && b == p + r + s
}

/// One application of a rule somewhere in the sequence.
pub open spec fn step<G>(rule: Rule<G>, a: Seq<G>, b: Seq<G>) -> bool {
    exists|p: Seq<G>, l: Seq<G>, r: Seq<G>, s: Seq<G>| replaced(rule, a, b, p, l, r, s)
}

/// A series of sequences, each one application away from the one before.
pub open spec fn is_chain<G>(rule: Rule<G>, c: Seq<Seq<G>>, a: Seq<G>, b: Seq<G>) -> bool {
    &&& c.len() > 0
    &&& c[0] == a
    &&& c.last() == b
    &&& forall|i: int, j: int|
        0 <= i < c.len() && j == i + 1 && j < c.len() ==> #[trigger] step(rule, c[i], c[j])
}

/// Any number of applications of a rule.
pub open spec fn reaches<G>(rule: Rule<G>, a: Seq<G>, b: Seq<G>) -> bool {
    exists|c: Seq<Seq<G>>| is_chain(rule, c, a, b)
}

pub proof fn lemma_reaches_self<G>(rule: Rule<G>, a: Seq<G>)
    ensures
        reaches(rule, a, a),
{
    assert(is_chain(rule, seq![a], a, a));
}

pub proof fn lemma_reaches_once<G>(rule: Rule<G>, p: Seq<G>, l: Seq<G>, r: Seq<G>, s: Seq<G>)
    requires
        rule(l, r),
    ensures
        reaches(rule, p + l + s, p + r + s),
{
    let a = p + l + s;
    let b = p + r + s;
    assert(replaced(rule, a, b, p, l, r, s));
    assert(is_chain(rule, seq![a, b], a, b));
}

pub proof fn lemma_reaches_transitive<G>(rule: Rule<G>, a: Seq<G>, b: Seq<G>, c: Seq<G>)
    requires
        reaches(rule, a, b),
        reaches(rule, b, c),
    ensures
        reaches(rule, a, c),
{
    let x = choose|x: Seq<Seq<G>>| is_chain(rule, x, a, b);
    let y = choose|y: Seq<Seq<G>>| is_chain(rule, y, b, c);
    let z = x + y.skip(1);
    assert forall|i: int, j: int|
        0 <= i < z.len() && j == i + 1 && j < z.len() implies #[trigger] step(rule, z[i], z[j]) by {
        if j < x.len() {
            assert(step(rule, x[i], x[j]));
        } else {
            let m = i - x.len() + 1;
            assert(step(rule, y[m], y[m + 1]));
            if i == x.len() - 1 {
                assert(z[i] == y[0]);
            }
        }
    }
    assert(z.last() == c) by {
        if y.len() == 1 {
            assert(z =~= x);
        }
    }
    assert(is_chain(rule, z, a, c));
}

/// What can be done to a part can be done in the whole.
pub proof fn lemma_reaches_within<G>(rule: Rule<G>, p: Seq<G>, a: Seq<G>, b: Seq<G>, s: Seq<G>)
    requires
        reaches(rule, a, b),
    ensures
        reaches(rule, p + a + s, p + b + s),
{
    let c = choose|c: Seq<Seq<G>>| is_chain(rule, c, a, b);
    let d = Seq::new(c.len(), |i: int| p + c[i] + s);
    assert forall|i: int, j: int|
        0 <= i < d.len() && j == i + 1 && j < d.len() implies #[trigger] step(rule, d[i], d[j]) by {
        assert(step(rule, c[i], c[j]));
        let (q, l, r, t) = choose|q: Seq<G>, l: Seq<G>, r: Seq<G>, t: Seq<G>|
            replaced(rule, c[i], c[j], q, l, r, t);
        assert(d[i] =~= (p + q) + l + (t + s));
        assert(d[j] =~= (p + q) + r + (t + s));
        assert(replaced(rule, d[i], d[j], p + q, l, r, t + s));
    }
    assert(is_chain(rule, d, p + a + s, p + b + s));
}

/// A gate moves to the front of gates that it may change places with.
pub proof fn lemma_reaches_front<G>(rule: Rule<G>, b: Seq<G>, g: G)
    requires
        forall|k: int| 0 <= k < b.len() ==> rule(seq![#[trigger] b[k], g], seq![g, b[k]]),
    ensures
        reaches(rule, b.push(g), seq![g] + b),
    decreases b.len(),
{
    if b.len() == 0 {
        lemma_reaches_self(rule, b.push(g));
        assert(seq![g] + b =~= b.push(g));
    } else {
        let p = b.drop_last();
        let x = b.last();
        let none = Seq::<G>::empty();
        assert forall|k: int| 0 <= k < p.len() implies rule(seq![#[trigger] p[k], g], seq![g, p[k]]) by {
            assert(p[k] == b[k]);
        }
        lemma_reaches_front(rule, p, g);
        assert(rule(seq![b[b.len() - 1], g], seq![g, b[b.len() - 1]]));
        lemma_reaches_once(rule, p, seq![x, g], seq![g, x], none);
        assert(p + seq![x, g] + none =~= b.push(g));
        assert(p + seq![g, x] + none =~= none + p.push(g) + seq![x]);
        lemma_reaches_within(rule, none, p.push(g), seq![g] + p, seq![x]);
        assert(none + (seq![g] + p) + seq![x] =~= seq![g] + b);
        lemma_reaches_transitive(rule, b.push(g), p + seq![g, x] + none, seq![g] + b);
    }
}

/// Gates move to the front of gates that they may change places with.
pub proof fn lemma_reaches_swapped<G>(rule: Rule<G>, b: Seq<G>, c: Seq<G>)
    requires
        forall|i: int, k: int|
            0 <= i < b.len() && 0 <= k < c.len() ==> rule(
                seq![#[trigger] b[i], #[trigger] c[k]],
                seq![c[k], b[i]],
            ),
    ensures
        reaches(rule, b + c, c + b),
    decreases c.len(),
{
    let none = Seq::<G>::empty();
    if c.len() == 0 {
        lemma_reaches_self(rule, b + c);
        assert(b + c =~= c + b);
    } else {
        let g = c[0];
        let d = c.skip(1);
        assert forall|k: int| 0 <= k < b.len() implies rule(
            seq![#[trigger] b[k], g],
            seq![g, b[k]],
        ) by {
            assert(rule(seq![b[k], c[0]], seq![c[0], b[k]]));
        }
        lemma_reaches_front(rule, b, g);
        lemma_reaches_within(rule, none, b.push(g), seq![g] + b, d);
        assert(none + b.push(g) + d =~= b + c);
        let mid = none + (seq![g] + b) + d;
        assert forall|i: int, k: int| 0 <= i < b.len() && 0 <= k < d.len() implies rule(
            seq![#[trigger] b[i], #[trigger] d[k]],
            seq![d[k], b[i]],
        ) by {
            assert(d[k] == c[k + 1]);
        }
        lemma_reaches_swapped(rule, b, d);
        lemma_reaches_within(rule, seq![g], b + d, d + b, none);
        assert(seq![g] + (b + d) + none =~= mid);
        assert(seq![g] + (d + b) + none =~= c + b);
        lemma_reaches_transitive(rule, b + c, mid, c + b);
    }
}

/// A rule keeps the gates of some kind and their order.
pub open spec fn keeps<G>(rule: Rule<G>, kind: spec_fn(G) -> bool) -> bool {
    forall|l: Seq<G>, r: Seq<G>| #[trigger] rule(l, r) ==> l.filter(kind) == r.filter(kind)
}

/// Then so does any number of applications.
pub proof fn lemma_reaches_keeps<G>(rule: Rule<G>, kind: spec_fn(G) -> bool, a: Seq<G>, b: Seq<G>)
    requires
        keeps(rule, kind),
        reaches(rule, a, b),
    ensures
        a.filter(kind) == b.filter(kind),
{
    let c = choose|c: Seq<Seq<G>>| is_chain(rule, c, a, b);
    lemma_chain_keeps(rule, kind, c, a, b, (c.len() - 1) as nat);
}

proof fn lemma_chain_keeps<G>(
    rule: Rule<G>,
    kind: spec_fn(G) -> bool,
    c: Seq<Seq<G>>,
    a: Seq<G>,
    b: Seq<G>,
    n: nat,
)
    requires
        keeps(rule, kind),
        is_chain(rule, c, a, b),
        n < c.len(),
    ensures
        a.filter(kind) == c[n as int].filter(kind),
    decreases n,
{
    if n > 0 {
        lemma_chain_keeps(rule, kind, c, a, b, (n - 1) as nat);
        let x = c[n - 1];
        let y = c[n as int];
        assert(step(rule, x, y));
        let (p, l, r, s) = choose|p: Seq<G>, l: Seq<G>, r: Seq<G>, s: Seq<G>|
            replaced(rule, x, y, p, l, r, s);
        Seq::filter_distributes_over_add(p + l, s, kind);
        Seq::filter_distributes_over_add(p, l, kind);
        Seq::filter_distributes_over_add(p + r, s, kind);
        Seq::filter_distributes_over_add(p, r, kind);
    }
}

/// Whether all gates are of some kind.
pub open spec fn all<G>(kind: spec_fn(G) -> bool, gates: Seq<G>) -> bool {
    forall|i: int| 0 <= i < gates.len() ==> kind(#[trigger] gates[i])
}

/// A rule makes only gates of some kind out of such gates.
pub open spec fn respects<G>(rule: Rule<G>, kind: spec_fn(G) -> bool) -> bool {
    forall|l: Seq<G>, r: Seq<G>| #[trigger] rule(l, r) && all(kind, l) ==> all(kind, r)
}

/// Then so does any number of applications.
pub proof fn lemma_reaches_respects<G>(rule: Rule<G>, kind: spec_fn(G) -> bool, a: Seq<G>, b: Seq<G>)
    requires
        respects(rule, kind),
        reaches(rule, a, b),
        all(kind, a),
    ensures
        all(kind, b),
{
    let c = choose|c: Seq<Seq<G>>| is_chain(rule, c, a, b);
    lemma_chain_respects(rule, kind, c, a, b, (c.len() - 1) as nat);
}

proof fn lemma_chain_respects<G>(
    rule: Rule<G>,
    kind: spec_fn(G) -> bool,
    c: Seq<Seq<G>>,
    a: Seq<G>,
    b: Seq<G>,
    n: nat,
)
    requires
        respects(rule, kind),
        is_chain(rule, c, a, b),
        all(kind, a),
        n < c.len(),
    ensures
        all(kind, c[n as int]),
    decreases n,
{
    if n > 0 {
        lemma_chain_respects(rule, kind, c, a, b, (n - 1) as nat);
        let x = c[n - 1];
        let y = c[n as int];
        assert(step(rule, x, y));
        let (p, l, r, s) = choose|p: Seq<G>, l: Seq<G>, r: Seq<G>, s: Seq<G>|
            replaced(rule, x, y, p, l, r, s);
        assert forall|i: int| 0 <= i < l.len() implies kind(#[trigger] l[i]) by {
            assert(x[p.len() + i] == l[i]);
        }
        assert(all(kind, r));
        assert forall|i: int| 0 <= i < y.len() implies kind(#[trigger] y[i]) by {
            if i < p.len() {
                assert(x[i] == y[i]);
            } else if i < p.len() + r.len() {
                assert(y[i] == r[i - p.len()]);
            } else {
                assert(y[i] == s[i - p.len() - r.len()]);
                assert(x[i - r.len() + l.len()] == y[i]);
            }
        }
    }
}

/// A rule does not raise a measure that adds up over parts.
pub open spec fn lowers<G>(rule: Rule<G>, f: spec_fn(Seq<G>) -> nat) -> bool {
    &&& forall|x: Seq<G>, y: Seq<G>| #[trigger] f(x + y) == f(x) + f(y)
    &&& forall|l: Seq<G>, r: Seq<G>| #[trigger] rule(l, r) ==> f(r) <= f(l)
}

/// Then neither does any number of applications.
pub proof fn lemma_reaches_lowers<G>(
    rule: Rule<G>,
    f: spec_fn(Seq<G>) -> nat,
    a: Seq<G>,
    b: Seq<G>,
)
    requires
        lowers(rule, f),
        reaches(rule, a, b),
    ensures
        f(b) <= f(a),
{
    let c = choose|c: Seq<Seq<G>>| is_chain(rule, c, a, b);
    lemma_chain_lowers(rule, f, c, a, b, (c.len() - 1) as nat);
}

proof fn lemma_chain_lowers<G>(
    rule: Rule<G>,
    f: spec_fn(Seq<G>) -> nat,
    c: Seq<Seq<G>>,
    a: Seq<G>,
    b: Seq<G>,
    n: nat,
)
    requires
        lowers(rule, f),
        is_chain(rule, c, a, b),
        n < c.len(),
    ensures
        f(c[n as int]) <= f(a),
    decreases n,
{
    if n > 0 {
        lemma_chain_lowers(rule, f, c, a, b, (n - 1) as nat);
        let x = c[n - 1];
        let y = c[n as int];
        assert(step(rule, x, y));
        let (p, l, r, s) = choose|p: Seq<G>, l: Seq<G>, r: Seq<G>, s: Seq<G>|
            replaced(rule, x, y, p, l, r, s);
        assert(f((p + l) + s) == f(p + l) + f(s) && f(p + l) == f(p) + f(l));
        assert(f((p + r) + s) == f(p + r) + f(s) && f(p + r) == f(p) + f(r));
    }
}

} // verus!
