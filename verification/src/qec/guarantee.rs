//! What the matching decoder of a repetition code guarantees.
use crate::binary64::{
    lemma_of_nat_distance, lemma_of_nat_order, lemma_of_nat_sum, of_nat, EXACT_LIMIT,
};
use crate::qec::decoder::{best, best_with, odd, odd_in_all, DecodingNode, Weights};
use crate::qec::repetition::{
    defects, flips, node_distance, node_weights, pair_paths, path, path_from, path_to, range,
};
use vstd::prelude::*;

verus! {

pub open spec fn is_check(d: int, n: DecodingNode) -> bool {
    n matches DecodingNode::Check(i) && i < d - 1
}

pub open spec fn checks_in(d: int, s: Seq<DecodingNode>) -> bool {
    forall|i: int| 0 <= i < s.len() ==> is_check(d, #[trigger] s[i])
}

/// Each pair joins two checks, or a check and the boundary.
pub open spec fn good_pairs(d: int, pairs: Seq<(DecodingNode, DecodingNode)>) -> bool {
    forall|i: int|
        0 <= i < pairs.len() ==> is_check(d, (#[trigger] pairs[i]).0) && (pairs[i].1
            == DecodingNode::Boundary || is_check(d, pairs[i].1))
}

/// How many data qubits lie between the nodes of a pair.
pub open spec fn pair_len(d: int, p: (DecodingNode, DecodingNode)) -> nat {
    path(d, p.0, p.1).len()
}

pub open spec fn total_len(d: int, pairs: Seq<(DecodingNode, DecodingNode)>) -> nat
    decreases pairs.len(),
{
    if pairs.len() == 0 {
        0
    } else {
        total_len(d, pairs.drop_last()) + pair_len(d, pairs.last())
    }
}

proof fn lemma_total_push(d: int, pairs: Seq<(DecodingNode, DecodingNode)>, p: (DecodingNode, DecodingNode))
    ensures
        total_len(d, pairs.push(p)) == total_len(d, pairs) + pair_len(d, p),
{
    assert(pairs.push(p).drop_last() =~= pairs);
}

/// The weight of a pair is the length of its path.
pub proof fn lemma_weight_is_length(d: int, a: DecodingNode, b: DecodingNode)
    requires
        3 <= d < EXACT_LIMIT,
        is_check(d, a),
        b == DecodingNode::Boundary || is_check(d, b),
    ensures
        node_distance(d, a, b) == of_nat(pair_len(d, (a, b))),
        pair_len(d, (a, b)) <= d,
{
    match (a, b) {
        (DecodingNode::Check(i), DecodingNode::Check(j)) => {
            lemma_of_nat_distance(i as nat, j as nat);
        },
        _ => {},
    }
}

proof fn lemma_checks_rest(d: int, s: Seq<DecodingNode>)
    requires
        checks_in(d, s),
        s.len() > 0,
    ensures
        checks_in(d, s.skip(1)),
        is_check(d, s[0]),
        forall|i: int| 0 <= i < s.skip(1).len() ==> checks_in(d, #[trigger] s.skip(1).remove(i)),
{
    let rest = s.skip(1);
    assert forall|i: int| 0 <= i < rest.len() implies checks_in(d, #[trigger] rest.remove(i)) by {
        assert forall|k: int| 0 <= k < rest.remove(i).len() implies is_check(
            d,
            #[trigger] rest.remove(i)[k],
        ) by {
            if k < i {
                assert(rest.remove(i)[k] == rest[k]);
            } else {
                assert(rest.remove(i)[k] == rest[k + 1]);
            }
        }
    }
}

proof fn lemma_good(d: int, rem: Seq<DecodingNode>, w: Weights)
    requires
        checks_in(d, rem),
    ensures
        good_pairs(d, best(rem, w).1),
    decreases rem.len(), 0nat,
{
    if rem.len() > 0 {
        lemma_checks_rest(d, rem);
        lemma_good_with(d, rem[0], rem.skip(1), rem.skip(1).len(), w);
    }
}

proof fn lemma_good_with(d: int, first: DecodingNode, rest: Seq<DecodingNode>, n: nat, w: Weights)
    requires
        checks_in(d, rest),
        is_check(d, first),
        n <= rest.len(),
    ensures
        good_pairs(d, best_with(first, rest, n, w).1),
    decreases rest.len(), n + 1,
{
    if n == 0 {
        lemma_good(d, rest, w);
    } else {
        lemma_good_with(d, first, rest, (n - 1) as nat, w);
        let others = rest.remove(n - 1);
        assert(checks_in(d, others)) by {
            assert forall|k: int| 0 <= k < others.len() implies is_check(d, #[trigger] others[k]) by {
                if k < n - 1 {
                    assert(others[k] == rest[k]);
                } else {
                    assert(others[k] == rest[k + 1]);
                }
            }
        }
        lemma_good(d, others, w);
    }
}

/// The cost of the best matching is the length of its paths.
proof fn lemma_cost(d: int, rem: Seq<DecodingNode>)
    requires
        3 <= d,
        checks_in(d, rem),
        rem.len() * d < EXACT_LIMIT,
        d < EXACT_LIMIT,
    ensures
        best(rem, node_weights(d)).0 == of_nat(total_len(d, best(rem, node_weights(d)).1)),
        total_len(d, best(rem, node_weights(d)).1) <= rem.len() * d,
    decreases rem.len(), 0nat,
{
    if rem.len() > 0 {
        lemma_checks_rest(d, rem);
        let n = rem.len();
        let rest = rem.skip(1);
        assert((rest.len() + 1) * d == rest.len() * d + d) by (nonlinear_arith);
        lemma_cost_with(d, rem[0], rest, rest.len());
    } else {
        assert(0 * d == 0);
    }
}

proof fn lemma_cost_with(d: int, first: DecodingNode, rest: Seq<DecodingNode>, n: nat)
    requires
        3 <= d,
        checks_in(d, rest),
        is_check(d, first),
        n <= rest.len(),
        rest.len() * d + d < EXACT_LIMIT,
        d < EXACT_LIMIT,
    ensures
        ({
            let r = best_with(first, rest, n, node_weights(d));
            &&& r.0 == of_nat(total_len(d, r.1))
            &&& total_len(d, r.1) <= rest.len() * d + d
            &&& total_len(d, r.1) <= pair_len(d, (first, DecodingNode::Boundary)) + total_len(
                d,
                best(rest, node_weights(d)).1,
            )
            &&& forall|i: int|
                0 <= i < n ==> total_len(d, r.1) <= pair_len(d, (first, #[trigger] rest[i]))
                    + total_len(d, best(rest.remove(i), node_weights(d)).1)
        }),
    decreases rest.len(), n + 1,
{
    let w = node_weights(d);
    assert(rest.len() * d >= 0) by (nonlinear_arith)
        requires
            d >= 3,
    ;
    if n == 0 {
        lemma_cost(d, rest);
        let alone = best(rest, w);
        lemma_weight_is_length(d, first, DecodingNode::Boundary);
        lemma_total_push(d, alone.1, (first, DecodingNode::Boundary));
        lemma_of_nat_sum(pair_len(d, (first, DecodingNode::Boundary)), total_len(d, alone.1));
    } else {
        lemma_cost_with(d, first, rest, (n - 1) as nat);
        let before = best_with(first, rest, (n - 1) as nat, w);
        let partner = rest[n - 1];
        let others = rest.remove(n - 1);
        assert(checks_in(d, others)) by {
            assert forall|k: int| 0 <= k < others.len() implies is_check(d, #[trigger] others[k]) by {
                if k < n - 1 {
                    assert(others[k] == rest[k]);
                } else {
                    assert(others[k] == rest[k + 1]);
                }
            }
        }
        assert(others.len() * d <= rest.len() * d) by (nonlinear_arith)
            requires
                others.len() <= rest.len(),
                d >= 3,
        ;
        lemma_cost(d, others);
        let sub = best(others, w);
        lemma_weight_is_length(d, first, partner);
        lemma_total_push(d, sub.1, (first, partner));
        let c = pair_len(d, (first, partner)) + total_len(d, sub.1);
        lemma_of_nat_sum(pair_len(d, (first, partner)), total_len(d, sub.1));
        lemma_of_nat_order(c, total_len(d, before.1));
        let r = best_with(first, rest, n, w);
        assert forall|i: int| 0 <= i < n implies total_len(d, r.1) <= pair_len(
            d,
            (first, #[trigger] rest[i]),
        ) + total_len(d, best(rest.remove(i), w).1) by {
            if i < n - 1 {
                assert(total_len(d, before.1) <= pair_len(d, (first, rest[i])) + total_len(
                    d,
                    best(rest.remove(i), w).1,
                ));
            }
        }
    }
}

/// An interval holds each of its numbers once.
proof fn lemma_odd_range(from: int, to: int, q: usize)
    requires
        0 <= from,
        to <= usize::MAX,
    ensures
        odd(range(from, to), q) <==> from <= q < to,
    decreases to - from,
{
    if from < to {
        lemma_odd_range(from, to - 1, q);
        assert(range(from, to).drop_last() =~= range(from, to - 1));
    }
}

spec fn covers(d: int, p: (DecodingNode, DecodingNode), q: int) -> bool {
    path_from(d, p.0, p.1) <= q < path_to(d, p.0, p.1)
}

proof fn lemma_paths_push(d: int, pairs: Seq<(DecodingNode, DecodingNode)>, p: (DecodingNode, DecodingNode), q: usize)
    requires
        is_check(d, p.0),
        p.1 == DecodingNode::Boundary || is_check(d, p.1),
        d <= usize::MAX,
    ensures
        odd_in_all(pair_paths(d, pairs.push(p)), q) == (odd_in_all(pair_paths(d, pairs), q) != covers(
            d,
            p,
            q as int,
        )),
{
    let a = pair_paths(d, pairs.push(p));
    assert(a.drop_last() =~= pair_paths(d, pairs));
    assert(a.last() == path(d, p.0, p.1));
    lemma_odd_range(path_from(d, p.0, p.1), path_to(d, p.0, p.1), q);
}

/// A path changes the parity of a check exactly at its ends.
proof fn lemma_path_ends(d: int, p: (DecodingNode, DecodingNode), c: int)
    requires
        is_check(d, p.0),
        p.1 == DecodingNode::Boundary || is_check(d, p.1),
        p.0 != p.1,
        0 <= c < d - 1,
        d <= usize::MAX,
    ensures
        (covers(d, p, c) != covers(d, p, c + 1)) == (p.0 == DecodingNode::Check(c as usize) || p.1
            == DecodingNode::Check(c as usize)),
{
}

/// The corrections of the best matching produce the defects that it matches.
proof fn lemma_explains(d: int, rem: Seq<DecodingNode>, w: Weights, c: usize)
    requires
        checks_in(d, rem),
        rem.no_duplicates(),
        c < d - 1,
        d <= usize::MAX,
    ensures
        ({
            let paths = pair_paths(d, best(rem, w).1);
            (odd_in_all(paths, c) != odd_in_all(paths, (c + 1) as usize)) == rem.contains(
                DecodingNode::Check(c),
            )
        }),
    decreases rem.len(), 0nat,
{
    if rem.len() > 0 {
        lemma_checks_rest(d, rem);
        let rest = rem.skip(1);
        assert(rest.no_duplicates());
        assert(!rest.contains(rem[0])) by {
            if rest.contains(rem[0]) {
                let k = choose|k: int| 0 <= k < rest.len() && rest[k] == rem[0];
                assert(rem[k + 1] == rem[0]);
            }
        }
        lemma_explains_with(d, rem[0], rest, rest.len(), w, c);
        let node = DecodingNode::Check(c);
        assert(rem.contains(node) <==> rem[0] == node || rest.contains(node)) by {
            if rem.contains(node) {
                let k = choose|k: int| 0 <= k < rem.len() && rem[k] == node;
                if k > 0 {
                    assert(rest[k - 1] == node);
                }
            }
            if rest.contains(node) {
                let k = choose|k: int| 0 <= k < rest.len() && rest[k] == node;
                assert(rem[k + 1] == node);
            }
        }
    } else {
        assert(pair_paths(d, best(rem, w).1) =~= Seq::empty());
    }
}

proof fn lemma_explains_with(
    d: int,
    first: DecodingNode,
    rest: Seq<DecodingNode>,
    n: nat,
    w: Weights,
    c: usize,
)
    requires
        checks_in(d, rest),
        is_check(d, first),
        rest.no_duplicates(),
        !rest.contains(first),
        n <= rest.len(),
        c < d - 1,
        d <= usize::MAX,
    ensures
        ({
            let paths = pair_paths(d, best_with(first, rest, n, w).1);
            (odd_in_all(paths, c) != odd_in_all(paths, (c + 1) as usize)) == (first
                == DecodingNode::Check(c) || rest.contains(DecodingNode::Check(c)))
        }),
    decreases rest.len(), n + 1,
{
    let node = DecodingNode::Check(c);
    let next = (c + 1) as usize;
    if n == 0 {
        lemma_explains(d, rest, w, c);
        let alone = best(rest, w).1;
        let p = (first, DecodingNode::Boundary);
        lemma_paths_push(d, alone, p, c);
        lemma_paths_push(d, alone, p, next);
        lemma_path_ends(d, p, c as int);
    } else {
        lemma_explains_with(d, first, rest, (n - 1) as nat, w, c);
        let partner = rest[n - 1];
        let others = rest.remove(n - 1);
        assert forall|k: int| 0 <= k < others.len() implies is_check(d, #[trigger] others[k])
            && others[k] != partner && rest.contains(others[k]) by {
            if k < n - 1 {
                assert(others[k] == rest[k]);
            } else {
                assert(others[k] == rest[k + 1]);
            }
        }
        assert(others.no_duplicates()) by {
            assert forall|i: int, j: int| 0 <= i < others.len() && 0 <= j < others.len() && i
                != j implies others[i] != others[j] by {
                let x = if i < n - 1 { i } else { i + 1 };
                let y = if j < n - 1 { j } else { j + 1 };
                assert(others[i] == rest[x] && others[j] == rest[y]);
            }
        }
        lemma_explains(d, others, w, c);
        let sub = best(others, w).1;
        let p = (first, partner);
        assert(first != partner) by {
            assert(rest.contains(rest[n - 1]));
        }
        lemma_paths_push(d, sub, p, c);
        lemma_paths_push(d, sub, p, next);
        lemma_path_ends(d, p, c as int);
        assert(rest.contains(node) <==> partner == node || others.contains(node)) by {
            if rest.contains(node) {
                let k = choose|k: int| 0 <= k < rest.len() && rest[k] == node;
                if k < n - 1 {
                    assert(others[k] == node);
                } else if k > n - 1 {
                    assert(others[k - 1] == node);
                }
            }
            if others.contains(node) {
                let k = choose|k: int| 0 <= k < others.len() && others[k] == node;
                assert(rest.contains(others[k]));
            }
            if partner == node {
                assert(rest[n - 1] == node);
            }
        }
        assert(others.contains(node) ==> partner != node) by {
            if others.contains(node) {
                let k = choose|k: int| 0 <= k < others.len() && others[k] == node;
                assert(others[k] != partner);
            }
        }
        assert(first == node ==> !others.contains(node)) by {
            if others.contains(node) {
                let k = choose|k: int| 0 <= k < others.len() && others[k] == node;
                assert(rest.contains(others[k]));
            }
        }
    }
}

/// Corrections beyond the data qubits do not occur.
proof fn lemma_paths_in_range(d: int, pairs: Seq<(DecodingNode, DecodingNode)>, q: usize)
    requires
        good_pairs(d, pairs),
        d <= usize::MAX,
        q >= d,
    ensures
        !odd_in_all(pair_paths(d, pairs), q),
    decreases pairs.len(),
{
    if pairs.len() > 0 {
        let front = pairs.drop_last();
        assert(good_pairs(d, front)) by {
            assert forall|i: int| 0 <= i < front.len() implies is_check(d, (#[trigger] front[i]).0) && (
            front[i].1 == DecodingNode::Boundary || is_check(d, front[i].1)) by {
                assert(front[i] == pairs[i]);
            }
        }
        lemma_paths_in_range(d, front, q);
        assert(is_check(d, pairs[pairs.len() - 1].0));
        assert(front.push(pairs.last()) =~= pairs);
        lemma_paths_push(d, front, pairs.last(), q);
    }
}

proof fn lemma_defects(d: int, s: Seq<u8>, n: nat)
    requires
        n <= s.len(),
        s.len() == d - 1,
        d <= usize::MAX,
    ensures
        checks_in(d, defects(s, n)),
        forall|i: int|
            0 <= i < defects(s, n).len() ==> (#[trigger] defects(s, n)[i] matches DecodingNode::Check(
                c,
            ) && c < n),
        defects(s, n).no_duplicates(),
        forall|i: int, j: int|
            0 <= i < j < defects(s, n).len() ==> (#[trigger] defects(s, n)[i])->Check_0 < (
            #[trigger] defects(s, n)[j])->Check_0,
        forall|c: usize|
            #[trigger] defects(s, n).contains(DecodingNode::Check(c)) <==> c < n && s[c as int] != 0,
        defects(s, n).len() <= n,
    decreases n,
{
    if n > 0 {
        lemma_defects(d, s, (n - 1) as nat);
        let before = defects(s, (n - 1) as nat);
        let all = defects(s, n);
        if s[n - 1] != 0 {
            assert forall|c: usize| #[trigger] all.contains(DecodingNode::Check(c)) <==> c < n && s[c as int]
                != 0 by {
                if c == n - 1 {
                    assert(all[before.len() as int] == DecodingNode::Check(c));
                } else if before.contains(DecodingNode::Check(c)) {
                    let k = choose|k: int| 0 <= k < before.len() && before[k] == DecodingNode::Check(c);
                    assert(all[k] == DecodingNode::Check(c));
                } else if all.contains(DecodingNode::Check(c)) {
                    let k = choose|k: int| 0 <= k < all.len() && all[k] == DecodingNode::Check(c);
                    assert(k < before.len() ==> before[k] == DecodingNode::Check(c));
                }
            }
        } else {
            assert forall|c: usize| #[trigger] all.contains(DecodingNode::Check(c)) <==> c < n && s[c as int]
                != 0 by {
                if c == n - 1 {
                    assert(!before.contains(DecodingNode::Check(c)));
                }
            }
        }
    }
}

pub proof fn lemma_flips_in_range(d: int, syndrome: Seq<u8>)
    requires
        syndrome.len() == d - 1,
        d <= usize::MAX,
    ensures
        forall|q: usize| q >= d ==> !#[trigger] flips(d, syndrome, q),
{
    lemma_defects(d, syndrome, syndrome.len());
    let rem = defects(syndrome, syndrome.len());
    lemma_good(d, rem, node_weights(d));
    assert forall|q: usize| q >= d implies !#[trigger] flips(d, syndrome, q) by {
        lemma_paths_in_range(d, best(rem, node_weights(d)).1, q);
    }
}

/// The number of errors among the data qubits `from..to`.
pub open spec fn ones(e: Seq<bool>, from: int, to: int) -> nat
    decreases to - from,
{
    if from >= to {
        0
    } else {
        ones(e, from, to - 1) + (if e[to - 1] {
            1nat
        } else {
            0
        })
    }
}

proof fn lemma_ones_split(e: Seq<bool>, from: int, mid: int, to: int)
    requires
        from <= mid <= to,
    ensures
        ones(e, from, to) == ones(e, from, mid) + ones(e, mid, to),
    decreases to - mid,
{
    if mid < to {
        lemma_ones_split(e, from, mid, to - 1);
    }
}

proof fn lemma_ones_all(e: Seq<bool>, from: int, to: int)
    requires
        from <= to,
        forall|i: int| from <= i < to ==> #[trigger] e[i],
    ensures
        ones(e, from, to) == to - from,
    decreases to - from,
{
    if from < to {
        lemma_ones_all(e, from, to - 1);
    }
}

/// Errors and the syndrome that they produce.
pub open spec fn produces(e: Seq<bool>, s: Seq<u8>) -> bool {
    &&& e.len() == s.len() + 1
    &&& forall|i: int| 0 <= i < s.len() ==> ((#[trigger] s[i]) != 0 <==> e[i] != e[i + 1])
}

/// Between defects errors do not change.
proof fn lemma_run(d: int, e: Seq<bool>, s: Seq<u8>, from: int, to: int)
    requires
        produces(e, s),
        s.len() == d - 1,
        0 <= from <= to < d,
        forall|i: int| from <= i < to ==> #[trigger] s[i] == 0,
    ensures
        forall|i: int| from <= i <= to ==> #[trigger] e[i] == e[from],
    decreases to - from,
{
    if from < to {
        lemma_run(d, e, s, from, to - 1);
        assert(s[to - 1] == 0);
    }
}

spec fn at(n: DecodingNode) -> int {
    n->Check_0 as int
}

/// No defect lies between two neighbors of the list.
proof fn lemma_gap(d: int, s: Seq<u8>, k: int, from: int, to: int)
    requires
        s.len() == d - 1,
        d <= usize::MAX,
        0 <= from <= to <= d - 1,
        0 <= k <= defects(s, s.len()).len(),
        k > 0 ==> from > at(defects(s, s.len())[k - 1]),
        k < defects(s, s.len()).len() ==> to <= at(defects(s, s.len())[k]),
    ensures
        forall|i: int| from <= i < to ==> #[trigger] s[i] == 0,
{
    let all = defects(s, s.len());
    lemma_defects(d, s, s.len());
    assert forall|i: int| from <= i < to implies #[trigger] s[i] == 0 by {
        if s[i] != 0 {
            assert(all.contains(DecodingNode::Check(i as usize)));
            let m = choose|m: int| 0 <= m < all.len() && all[m] == DecodingNode::Check(i as usize);
            if m < k {
                if m < k - 1 {
                    assert(all[m]->Check_0 < all[k - 1]->Check_0);
                }
            } else {
                if m > k {
                    assert(all[k]->Check_0 < all[m]->Check_0);
                }
            }
        }
    }
}

/// The best matching of the defects from the `k`-th on is no longer than the
/// errors from there on, where those start behind a defect with no error.
#[verifier::rlimit(80)]
#[verifier::spinoff_prover]
proof fn lemma_cheap(d: int, e: Seq<bool>, s: Seq<u8>, k: int, p: int)
    requires
        3 <= d,
        d * d < EXACT_LIMIT,
        d <= usize::MAX,
        s.len() == d - 1,
        produces(e, s),
        0 <= k <= defects(s, s.len()).len(),
        0 <= p < d,
        !e[p],
        k > 0 ==> p == at(defects(s, s.len())[k - 1]) + 1,
        k == 0 ==> p == 0,
    ensures
        total_len(d, best(defects(s, s.len()).skip(k), node_weights(d)).1) <= ones(e, p, d),
    decreases defects(s, s.len()).len() - k,
{
    let all = defects(s, s.len());
    let w = node_weights(d);
    let rem = all.skip(k);
    lemma_defects(d, s, s.len());
    if k < all.len() {
        let i1 = at(all[k]);
        assert(is_check(d, all[k]));
        assert(all.contains(all[k]));
        assert(s[i1] != 0);
        if k > 0 {
            assert(all[k - 1]->Check_0 < all[k]->Check_0);
        }
        lemma_gap(d, s, k, p, i1);
        lemma_run(d, e, s, p, i1);
        assert(e[i1] == e[p]);
        assert(e[i1 + 1]);
        assert(checks_in(d, rem)) by {
            assert forall|m: int| 0 <= m < rem.len() implies is_check(d, #[trigger] rem[m]) by {
                assert(rem[m] == all[k + m]);
            }
        }
        let rest = rem.skip(1);
        lemma_checks_rest(d, rem);
        assert(rest.len() * d + d < EXACT_LIMIT) by (nonlinear_arith)
            requires
                rest.len() + 1 <= d - 1,
                d * d < EXACT_LIMIT,
                d >= 3,
        ;
        assert(d < EXACT_LIMIT) by (nonlinear_arith)
            requires
                d * d < EXACT_LIMIT,
                d >= 3,
        ;
        lemma_cost_with(d, rem[0], rest, rest.len());
        lemma_ones_split(e, p, i1 + 1, d);
        if k + 1 < all.len() {
            let i2 = at(all[k + 1]);
            assert(all[k]->Check_0 < all[k + 1]->Check_0);
            assert(is_check(d, all[k + 1]));
            assert(all.contains(all[k + 1]));
            assert(s[i2] != 0);
            lemma_gap(d, s, k + 1, i1 + 1, i2);
            lemma_run(d, e, s, i1 + 1, i2);
            assert(e[i2] == e[i1 + 1]);
            assert(!e[i2 + 1]);
            assert(rest.remove(0) =~= all.skip(k + 2));
            lemma_cheap(d, e, s, k + 2, i2 + 1);
            lemma_ones_split(e, i1 + 1, i2 + 1, d);
            lemma_ones_all(e, i1 + 1, i2 + 1);
            assert(rest[0] == all[k + 1]);
            assert(pair_len(d, (rem[0], rest[0])) == i2 - i1);
        } else {
            lemma_gap(d, s, k + 1, i1 + 1, d - 1);
            lemma_run(d, e, s, i1 + 1, d - 1);
            lemma_ones_all(e, i1 + 1, d);
            assert(rest =~= Seq::empty());
            assert(best(rest, w).1 =~= Seq::empty());
            assert(pair_len(d, (rem[0], DecodingNode::Boundary)) <= d - 1 - i1);
        }
    } else {
        assert(rem =~= Seq::empty());
    }
}

spec fn corrected(d: int, pairs: Seq<(DecodingNode, DecodingNode)>) -> Seq<bool> {
    Seq::new(d as nat, |q: int| odd_in_all(pair_paths(d, pairs), q as usize))
}

spec fn covered_by(d: int, p: (DecodingNode, DecodingNode)) -> Seq<bool> {
    Seq::new(d as nat, |q: int| covers(d, p, q))
}

proof fn lemma_ones_xor(a: Seq<bool>, b: Seq<bool>, c: Seq<bool>, n: int)
    requires
        0 <= n <= a.len(),
        a.len() == b.len(),
        a.len() == c.len(),
        forall|i: int| 0 <= i < a.len() ==> #[trigger] c[i] == (a[i] != b[i]),
    ensures
        ones(c, 0, n) <= ones(a, 0, n) + ones(b, 0, n),
    decreases n,
{
    if n > 0 {
        lemma_ones_xor(a, b, c, n - 1);
        assert(c[n - 1] == (a[n - 1] != b[n - 1]));
    }
}

proof fn lemma_ones_covered(d: int, p: (DecodingNode, DecodingNode), n: int)
    requires
        0 <= n <= d,
        is_check(d, p.0),
        p.1 == DecodingNode::Boundary || is_check(d, p.1),
    ensures
        ones(covered_by(d, p), 0, n) <= (if n < path_to(d, p.0, p.1) {
            n
        } else {
            path_to(d, p.0, p.1)
        }) - (if n < path_from(d, p.0, p.1) {
            n
        } else {
            path_from(d, p.0, p.1)
        }),
    decreases n,
{
    if n > 0 {
        lemma_ones_covered(d, p, n - 1);
    }
}

/// No more qubits are corrected than lie on the paths.
proof fn lemma_few_corrections(d: int, pairs: Seq<(DecodingNode, DecodingNode)>)
    requires
        good_pairs(d, pairs),
        0 < d <= usize::MAX,
    ensures
        ones(corrected(d, pairs), 0, d) <= total_len(d, pairs),
    decreases pairs.len(),
{
    if pairs.len() == 0 {
        lemma_ones_none(corrected(d, pairs), d);
    } else {
        let front = pairs.drop_last();
        let p = pairs.last();
        assert forall|i: int| 0 <= i < front.len() implies is_check(d, (#[trigger] front[i]).0) && (
        front[i].1 == DecodingNode::Boundary || is_check(d, front[i].1)) by {
            assert(front[i] == pairs[i]);
        }
        lemma_few_corrections(d, front);
        assert(is_check(d, pairs[pairs.len() - 1].0));
        assert(front.push(p) =~= pairs);
        let a = corrected(d, front);
        let b = covered_by(d, p);
        let c = corrected(d, pairs);
        assert forall|i: int| 0 <= i < a.len() implies #[trigger] c[i] == (a[i] != b[i]) by {
            lemma_paths_push(d, front, p, i as usize);
        }
        lemma_ones_xor(a, b, c, d);
        lemma_ones_covered(d, p, d);
    }
}

proof fn lemma_ones_none(e: Seq<bool>, n: int)
    requires
        0 <= n <= e.len(),
        forall|i: int| 0 <= i < n ==> !#[trigger] e[i],
    ensures
        ones(e, 0, n) == 0,
    decreases n,
{
    if n > 0 {
        lemma_ones_none(e, n - 1);
    }
}

/// Two patterns that differ everywhere have an error at each place together.
proof fn lemma_ones_opposite(a: Seq<bool>, b: Seq<bool>, n: int)
    requires
        0 <= n <= a.len(),
        a.len() == b.len(),
        forall|i: int| 0 <= i < n ==> (#[trigger] a[i]) != b[i],
    ensures
        ones(a, 0, n) + ones(b, 0, n) == n,
    decreases n,
{
    if n > 0 {
        lemma_ones_opposite(a, b, n - 1);
    }
}

/// The cheapest matching is no longer than the errors.
proof fn lemma_matching_bound(d: int, e: Seq<bool>, s: Seq<u8>)
    requires
        3 <= d,
        d * d < EXACT_LIMIT,
        d <= usize::MAX,
        s.len() == d - 1,
        produces(e, s),
        2 * ones(e, 0, d) < d,
    ensures
        total_len(d, best(defects(s, s.len()), node_weights(d)).1) <= ones(e, 0, d),
{
    let all = defects(s, s.len());
    lemma_defects(d, s, s.len());
    assert(all.skip(0) =~= all);
    if !e[0] {
        lemma_cheap(d, e, s, 0, 0);
    } else if all.len() == 0 {
        lemma_gap(d, s, 0, 0, d - 1);
        lemma_run(d, e, s, 0, d - 1);
        lemma_ones_all(e, 0, d);
    } else {
        let i1 = at(all[0]);
        assert(is_check(d, all[0]));
        assert(all.contains(all[0]));
        assert(s[i1] != 0);
        lemma_gap(d, s, 0, 0, i1);
        lemma_run(d, e, s, 0, i1);
        assert(e[i1] == e[0]);
        lemma_cheap(d, e, s, 1, i1 + 1);
        lemma_checks_rest(d, all);
        let rest = all.skip(1);
        assert(rest.len() * d + d < EXACT_LIMIT) by (nonlinear_arith)
            requires
                rest.len() + 1 <= d - 1,
                d * d < EXACT_LIMIT,
                d >= 3,
        ;
        assert(d < EXACT_LIMIT) by (nonlinear_arith)
            requires
                d * d < EXACT_LIMIT,
                d >= 3,
        ;
        lemma_cost_with(d, all[0], rest, rest.len());
        lemma_ones_split(e, 0, i1 + 1, d);
        lemma_ones_all(e, 0, i1 + 1);
        assert(pair_len(d, (all[0], DecodingNode::Boundary)) <= i1 + 1);
    }
}

/// A repetition code corrects every error pattern that touches fewer than
/// half of its data qubits: from the syndrome that the errors produce, the
/// decoder finds exactly the qubits in error.
pub proof fn lemma_corrects_minority(d: int, e: Seq<bool>, s: Seq<u8>)
    requires
        3 <= d,
        d * d < EXACT_LIMIT,
        d <= usize::MAX,
        s.len() == d - 1,
        produces(e, s),
        2 * ones(e, 0, d) < d,
    ensures
        forall|q: usize| q < d ==> #[trigger] flips(d, s, q) == e[q as int],
        forall|q: usize| q >= d ==> !#[trigger] flips(d, s, q),
{
    let all = defects(s, s.len());
    let w = node_weights(d);
    let pairs = best(all, w).1;
    let f = corrected(d, pairs);
    lemma_defects(d, s, s.len());
    lemma_good(d, all, w);
    lemma_flips_in_range(d, s);
    lemma_matching_bound(d, e, s);
    lemma_few_corrections(d, pairs);
    assert forall|c: int| 0 <= c < d - 1 implies (f[c] != #[trigger] e[c]) == (f[c + 1] != e[c + 1]) by {
        lemma_explains(d, all, w, c as usize);
        assert(all.contains(DecodingNode::Check(c as usize)) <==> s[c] != 0);
        assert(s[c] != 0 <==> e[c] != e[c + 1]);
    }
    lemma_constant(f, e, d - 1);
    if f[0] != e[0] {
        lemma_ones_opposite(f, e, d);
    }
    assert forall|q: usize| q < d implies #[trigger] flips(d, s, q) == e[q as int] by {
        assert(f[q as int] == flips(d, s, q));
        assert(e[q as int] == e[q as int]);
    }
}

proof fn lemma_constant(f: Seq<bool>, e: Seq<bool>, n: int)
    requires
        0 <= n < f.len(),
        f.len() == e.len(),
        forall|c: int| 0 <= c < n ==> (f[c] != #[trigger] e[c]) == (f[c + 1] != e[c + 1]),
    ensures
        forall|c: int| 0 <= c <= n ==> ((#[trigger] f[c]) != e[c]) == (f[0] != e[0]),
    decreases n,
{
    if n > 0 {
        lemma_constant(f, e, n - 1);
        let m = n - 1;
        assert((f[m] != e[m]) == (f[m + 1] != e[m + 1]));
    }
}

} // verus!
