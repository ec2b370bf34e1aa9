//! Minimum-weight perfect matching of syndrome defects.
use crate::binary64::{below, of_nat, sum, Binary64};
use vstd::prelude::*;

verus! {

/// A node of a decoding graph: a syndrome check, or the boundary, where any
/// number of error chains can end.
#[derive(Debug, Clone, Copy, PartialEq, Eq, Hash, Structural)]
pub enum DecodingNode {
    Check(usize),
    Boundary,
}

/// Weights of pairs of nodes.
pub type Weights = spec_fn(DecodingNode, DecodingNode) -> Binary64;

/// A function gives these weights.
pub open spec fn computes<F: Fn(DecodingNode, DecodingNode) -> Binary64>(f: F, w: Weights) -> bool {
    forall|a: DecodingNode, b: DecodingNode, x: Binary64| #[trigger]
        call_ensures(f, (a, b), x) ==> x == w(a, b)
}

/// A cheapest matching of the remaining defects with its cost: the first
/// defect goes to the boundary, or to a partner that makes it cheaper.
pub open spec fn best(remaining: Seq<DecodingNode>, w: Weights) -> (Binary64, Seq<
    (DecodingNode, DecodingNode),
>)
    decreases remaining.len(), 0nat,
{
    if remaining.len() == 0 {
        (of_nat(0), Seq::empty())
    } else {
        let first = remaining[0];
        let rest = remaining.skip(1);
        best_with(first, rest, rest.len(), w)
    }
}

/// The same where only the first `n` of the rest are considered as partners.
pub open spec fn best_with(
    first: DecodingNode,
    rest: Seq<DecodingNode>,
    n: nat,
    w: Weights,
) -> (Binary64, Seq<(DecodingNode, DecodingNode)>)
    decreases rest.len(), n + 1,
{
    if n == 0 || n > rest.len() {
        let alone = best(rest, w);
        (sum(w(first, DecodingNode::Boundary), alone.0), alone.1.push((first, DecodingNode::Boundary)))
    } else {
        let before = best_with(first, rest, (n - 1) as nat, w);
        let partner = rest[n - 1];
        let others = best(rest.remove(n - 1), w);
        let cost = sum(w(first, partner), others.0);
        if below(cost, before.0) {
            (cost, others.1.push((first, partner)))
        } else {
            before
        }
    }
}

/// Every defect stands in exactly one pair, and a pair joins two defects or
/// a defect and the boundary.
pub open spec fn is_matching(defects: Seq<DecodingNode>, pairs: Seq<(DecodingNode, DecodingNode)>) -> bool {
    &&& endpoints(pairs) == defects.to_multiset()
    &&& forall|i: int| 0 <= i < pairs.len() ==> (#[trigger] pairs[i]).0 != DecodingNode::Boundary
}

/// The defects that pairs join.
pub open spec fn endpoints(pairs: Seq<(DecodingNode, DecodingNode)>) -> vstd::multiset::Multiset<
    DecodingNode,
>
    decreases pairs.len(),
{
    if pairs.len() == 0 {
        vstd::multiset::Multiset::empty()
    } else {
        let rest = endpoints(pairs.drop_last()).insert(pairs.last().0);
        if pairs.last().1 == DecodingNode::Boundary {
            rest
        } else {
            rest.insert(pairs.last().1)
        }
    }
}

pub open spec fn all_checks(s: Seq<DecodingNode>) -> bool {
    forall|i: int| 0 <= i < s.len() ==> (#[trigger] s[i]) is Check
}

pub proof fn lemma_endpoints_push(pairs: Seq<(DecodingNode, DecodingNode)>, p: (DecodingNode, DecodingNode))
    ensures
        endpoints(pairs.push(p)) == (if p.1 == DecodingNode::Boundary {
            endpoints(pairs).insert(p.0)
        } else {
            endpoints(pairs).insert(p.0).insert(p.1)
        }),
{
    assert(pairs.push(p).drop_last() =~= pairs);
}

/// Splitting the first element off a list of defects.
pub proof fn lemma_multiset_first(s: Seq<DecodingNode>)
    requires
        s.len() > 0,
    ensures
        s.to_multiset() == s.skip(1).to_multiset().insert(s[0]),
{
    broadcast use vstd::seq_lib::group_to_multiset_ensures;

    assert(s =~= seq![s[0]] + s.skip(1));
    vstd::seq_lib::lemma_multiset_commutative(seq![s[0]], s.skip(1));
    assert(seq![s[0]] =~= Seq::empty().push(s[0]));
    assert(seq![s[0]].to_multiset() =~= vstd::multiset::Multiset::empty().insert(s[0]));
    assert(s.to_multiset() =~= s.skip(1).to_multiset().insert(s[0]));
}

pub proof fn lemma_multiset_remove(s: Seq<DecodingNode>, i: int)
    requires
        0 <= i < s.len(),
    ensures
        s.to_multiset() == s.remove(i).to_multiset().insert(s[i]),
{
    broadcast use vstd::seq_lib::group_to_multiset_ensures;

    assert(s.to_multiset().count(s[i]) > 0) by {
        assert(s.contains(s[i]));
    }
    assert(s.remove(i).to_multiset() =~= s.to_multiset().remove(s[i]));
    assert(s.to_multiset() =~= s.remove(i).to_multiset().insert(s[i]));
}

fn best_matching<F: Fn(DecodingNode, DecodingNode) -> Binary64>(
    remaining: &Vec<DecodingNode>,
    distance: &F,
) -> (r: (Binary64, Vec<(DecodingNode, DecodingNode)>))
    requires
        forall|a: DecodingNode, b: DecodingNode| call_requires(*distance, (a, b)),
    ensures
        forall|w: Weights| #[trigger] computes(*distance, w) ==> (r.0, r.1@) == best(remaining@, w),
        all_checks(remaining@) ==> is_matching(remaining@, r.1@),
    decreases remaining.len(),
{
    broadcast use vstd::seq_lib::group_to_multiset_ensures;

    if remaining.len() == 0 {
        assert(remaining@.to_multiset() =~= vstd::multiset::Multiset::empty());
        return (Binary64::from_u64(0), Vec::new());
    }
    let first = remaining[0];
    let mut rest: Vec<DecodingNode> = Vec::new();
    let mut k: usize = 1;
    while k < remaining.len()
        invariant
            1 <= k <= remaining.len(),
            rest@ == remaining@.subrange(1, k as int),
        decreases remaining.len() - k,
    {
        rest.push(remaining[k]);
        k = k + 1;
    }
    assert(rest@ =~= remaining@.skip(1));
    assert(all_checks(remaining@) ==> all_checks(rest@));
    let (alone_cost, alone) = best_matching(&rest, distance);
    let mut best_cost = distance(first, DecodingNode::Boundary).plus(alone_cost);
    let mut best_pairs = alone;
    proof {
        lemma_multiset_first(remaining@);
        lemma_endpoints_push(best_pairs@, (first, DecodingNode::Boundary));
    }
    best_pairs.push((first, DecodingNode::Boundary));
    let mut i: usize = 0;
    while i < rest.len()
        invariant
            forall|a: DecodingNode, b: DecodingNode| call_requires(*distance, (a, b)),
            remaining.len() > 0,
            first == remaining@[0],
            rest@ == remaining@.skip(1),
            rest.len() == remaining.len() - 1,
            0 <= i <= rest.len(),
            forall|w: Weights| #[trigger]
                computes(*distance, w) ==> (best_cost, best_pairs@) == best_with(
                    first,
                    rest@,
                    i as nat,
                    w,
                ),
            all_checks(remaining@) ==> is_matching(remaining@, best_pairs@),
            all_checks(remaining@) ==> all_checks(rest@),
        decreases rest.len() - i,
    {
        let partner = rest[i];
        let mut others: Vec<DecodingNode> = Vec::new();
        let mut m: usize = 0;
        while m < rest.len()
            invariant
                0 <= m <= rest.len(),
                i < rest.len(),
                others.len() == (if m <= i { m as int } else { m - 1 }),
                forall|x: int| 0 <= x < others.len() ==> #[trigger] others@[x] == rest@.remove(i as int)[x],
            decreases rest.len() - m,
        {
            if m != i {
                others.push(rest[m]);
            }
            m = m + 1;
        }
        assert(others@ =~= rest@.remove(i as int));
        assert(all_checks(rest@) ==> all_checks(others@));
        let (sub_cost, sub) = best_matching(&others, distance);
        let cost = distance(first, partner).plus(sub_cost);
        if cost.lt(best_cost) {
            best_cost = cost;
            let mut pairs = sub;
            proof {
                lemma_multiset_first(remaining@);
                lemma_multiset_remove(rest@, i as int);
                lemma_endpoints_push(pairs@, (first, partner));
                if all_checks(remaining@) {
                    assert(rest@[i as int] is Check);
                    assert(remaining@[0] is Check);
                    assert(endpoints(pairs@).insert(first).insert(partner) =~= endpoints(
                        pairs@,
                    ).insert(partner).insert(first));
                }
            }
            pairs.push((first, partner));
            best_pairs = pairs;
        }
        i = i + 1;
    }
    (best_cost, best_pairs)
}

/// A perfect matching of the defects of minimum weight, by exhaustive
/// search. A defect is paired with another defect, once, or with the
/// boundary.
pub fn minimum_weight_perfect_matching(
    defects: &[DecodingNode],
    distance: impl Fn(DecodingNode, DecodingNode) -> Binary64,
) -> (r: Vec<(DecodingNode, DecodingNode)>)
    requires
        forall|a: DecodingNode, b: DecodingNode| call_requires(distance, (a, b)),
    ensures
        forall|w: Weights| #[trigger] computes(distance, w) ==> r@ == best(defects@, w).1,
        all_checks(defects@) ==> is_matching(defects@, r@),
{
    let mut list: Vec<DecodingNode> = Vec::new();
    let mut i: usize = 0;
    while i < defects.len()
        invariant
            0 <= i <= defects.len(),
            list@ == defects@.take(i as int),
        decreases defects.len() - i,
    {
        list.push(defects[i]);
        i = i + 1;
    }
    assert(list@ =~= defects@);
    let (_cost, pairs) = best_matching(&list, &distance);
    pairs
}

/// Whether `q` occurs an odd number of times.
pub open spec fn odd(s: Seq<usize>, q: usize) -> bool
    decreases s.len(),
{
    if s.len() == 0 {
        false
    } else {
        odd(s.drop_last(), q) != (s.last() == q)
    }
}

/// Whether `q` occurs an odd number of times in all paths together.
pub open spec fn odd_in_all(paths: Seq<Seq<usize>>, q: usize) -> bool
    decreases paths.len(),
{
    if paths.len() == 0 {
        false
    } else {
        odd_in_all(paths.drop_last(), q) != odd(paths.last(), q)
    }
}

/// `path` is a path that a function gives for a pair.
pub open spec fn path_for<F: Fn(DecodingNode, DecodingNode) -> Vec<usize>>(
    f: F,
    pair: (DecodingNode, DecodingNode),
    path: Seq<usize>,
) -> bool {
    exists|v: Vec<usize>| #[trigger] call_ensures(f, pair, v) && v@ == path
}

/// `paths` are paths that a function gives for the pairs.
pub open spec fn paths_for<F: Fn(DecodingNode, DecodingNode) -> Vec<usize>>(
    f: F,
    pairs: Seq<(DecodingNode, DecodingNode)>,
    paths: Seq<Seq<usize>>,
) -> bool {
    &&& paths.len() == pairs.len()
    &&& forall|i: int|
        0 <= i < pairs.len() ==> #[trigger] path_for(f, pairs[i], paths[i])
}

/// In strictly ascending order.
pub open spec fn rising(s: Seq<usize>) -> bool {
    forall|i: int, j: int| 0 <= i < j < s.len() ==> #[trigger] s[i] < #[trigger] s[j]
}

/// Puts `q` into a rising list, or takes it out if it is there.
fn toggle(list: &mut Vec<usize>, q: usize)
    requires
        rising(old(list)@),
    ensures
        rising(final(list)@),
        forall|x: usize| #[trigger] final(list)@.contains(x) <==> (old(list)@.contains(x) != (x == q)),
{
    let ghost before = list@;
    let mut i: usize = 0;
    while i < list.len() && list[i] < q
        invariant
            before == list@,
            rising(before),
            0 <= i <= list.len(),
            forall|k: int| 0 <= k < i ==> #[trigger] before[k] < q,
        decreases list.len() - i,
    {
        i = i + 1;
    }
    if i < list.len() && list[i] == q {
        list.remove(i);
        proof {
            assert forall|x: usize| #[trigger] list@.contains(x) <==> (before.contains(x) != (x == q)) by {
                if list@.contains(x) {
                    let k = choose|k: int| 0 <= k < list@.len() && list@[k] == x;
                    if k < i {
                        assert(before[k] == x);
                    } else {
                        assert(before[k + 1] == x);
                        assert(before[i as int] < before[k + 1]);
                    }
                }
                if before.contains(x) && x != q {
                    let k = choose|k: int| 0 <= k < before.len() && before[k] == x;
                    if k < i {
                        assert(list@[k] == x);
                    } else {
                        assert(list@[k - 1] == x);
                    }
                }
                if x == q {
                    assert(before[i as int] == x);
                }
            }
        }
    } else {
        list.insert(i, q);
        proof {
            assert(list@ =~= before.insert(i as int, q));
            assert forall|x: usize| #[trigger] list@.contains(x) <==> (before.contains(x) != (x == q)) by {
                if list@.contains(x) {
                    let k = choose|k: int| 0 <= k < list@.len() && list@[k] == x;
                    if k < i {
                        assert(before[k] == x);
                    } else if k > i {
                        assert(before[k - 1] == x);
                    }
                }
                if before.contains(x) {
                    let k = choose|k: int| 0 <= k < before.len() && before[k] == x;
                    if k < i {
                        assert(list@[k] == x);
                    } else {
                        assert(list@[k + 1] == x);
                        assert(k > i ==> before[i as int] < before[k]);
                    }
                }
                if x == q {
                    assert(list@[i as int] == x);
                }
            }
            assert forall|a: int, b: int| 0 <= a < b < list@.len() implies #[trigger] list@[a]
                < #[trigger] list@[b] by {
                let x = if a < i { a } else { a - 1 };
                let y = if b < i { b } else { b - 1 };
                if a != i && b != i {
                    assert(list@[a] == before[x] && list@[b] == before[y]);
                } else if b == i {
                    assert(list@[a] == before[a]);
                } else {
                    assert(list@[b] == before[b - 1]);
                    assert(b - 1 > i ==> before[i as int] < before[b - 1]);
                }
            }
        }
    }
}

/// The qubits on the paths of the matched pairs, in ascending order. A qubit
/// on an even number of paths is left out: its corrections cancel.
pub fn corrections_from_matching(
    matching: &[(DecodingNode, DecodingNode)],
    path_qubits: impl Fn(DecodingNode, DecodingNode) -> Vec<usize>,
) -> (r: Vec<usize>)
    requires
        forall|a: DecodingNode, b: DecodingNode| call_requires(path_qubits, (a, b)),
    ensures
        rising(r@),
        exists|paths: Seq<Seq<usize>>|
            {
                &&& #[trigger] paths_for(path_qubits, matching@, paths)
                &&& forall|q: usize| #[trigger] r@.contains(q) <==> odd_in_all(paths, q)
            },
{
    let mut flipped: Vec<usize> = Vec::new();
    let mut i: usize = 0;
    let ghost mut paths: Seq<Seq<usize>> = Seq::empty();
    while i < matching.len()
        invariant
            forall|a: DecodingNode, b: DecodingNode| call_requires(path_qubits, (a, b)),
            0 <= i <= matching.len(),
            rising(flipped@),
            paths_for(path_qubits, matching@.take(i as int), paths),
            forall|q: usize| #[trigger] flipped@.contains(q) <==> odd_in_all(paths, q),
        decreases matching.len() - i,
    {
        let (a, b) = matching[i];
        let path = path_qubits(a, b);
        let mut k: usize = 0;
        assert(path@.take(0) =~= Seq::empty());
        while k < path.len()
            invariant
                0 <= k <= path.len(),
                rising(flipped@),
                forall|q: usize| #[trigger]
                    flipped@.contains(q) <==> (odd_in_all(paths, q) != odd(path@.take(k as int), q)),
            decreases path.len() - k,
        {
            toggle(&mut flipped, path[k]);
            assert(path@.take(k + 1).drop_last() =~= path@.take(k as int));
            k = k + 1;
        }
        proof {
            assert(path@.take(k as int) =~= path@);
            let more = paths.push(path@);
            assert(more.drop_last() =~= paths);
            assert forall|j: int| 0 <= j < i + 1 implies #[trigger] path_for(
                path_qubits,
                matching@.take(i + 1)[j],
                more[j],
            ) by {
                if j < i {
                    assert(path_for(path_qubits, matching@.take(i as int)[j], paths[j]));
                } else {
                    assert(call_ensures(path_qubits, (a, b), path));
                }
            }
            paths = more;
        }
        i = i + 1;
    }
    assert(matching@.take(i as int) =~= matching@);
    flipped
}

} // verus!
