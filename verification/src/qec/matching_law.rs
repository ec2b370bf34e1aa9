//! The matching decoder finds a matching of minimum weight.
use crate::binary64::{
    below, lemma_of_nat, lemma_of_nat_order, lemma_of_nat_sum, lemma_rounded_bounded, lemma_sum_monotone, of_nat, rank, sum, Binary64,
    EXACT_LIMIT,
};
use crate::qec::decoder::{
    all_checks, best, best_with, endpoints, is_matching, lemma_endpoints_push, lemma_multiset_first,
    lemma_multiset_remove, DecodingNode, Weights,
};
use vstd::multiset::Multiset;
use vstd::prelude::*;

verus! {

pub type Pair = (DecodingNode, DecodingNode);

/// The weights can be added up: they are finite, or none is negative.
pub open spec fn addable(w: Weights) -> bool {
    ||| forall|a: DecodingNode, b: DecodingNode| (#[trigger] w(a, b)).finite()
    ||| forall|a: DecodingNode, b: DecodingNode|
        !(#[trigger] w(a, b)).nan() && !w(a, b).negative()
}

/// A matching written down from the last defect to the first: the last pair
/// holds the first defect, and the others match what remains.
pub open spec fn listed(defects: Seq<DecodingNode>, pairs: Seq<Pair>) -> bool
    decreases defects.len(),
{
    if defects.len() == 0 {
        pairs.len() == 0
    } else {
        let rest = defects.skip(1);
        &&& pairs.len() > 0
        &&& pairs.last().0 == defects[0]
        &&& {
            ||| pairs.last().1 == DecodingNode::Boundary && listed(rest, pairs.drop_last())
            ||| exists|i: int|
                0 <= i < rest.len() && pairs.last().1 == #[trigger] rest[i] && listed(
                    rest.remove(i),
                    pairs.drop_last(),
                )
        }
    }
}

/// The weights of pairs, added up in order.
pub open spec fn weight(pairs: Seq<Pair>, w: Weights) -> Binary64
    decreases pairs.len(),
{
    if pairs.len() == 0 {
        of_nat(0)
    } else {
        sum(w(pairs.last().0, pairs.last().1), weight(pairs.drop_last(), w))
    }
}

/// A weight added to a weight is a number.
proof fn lemma_addable(w: Weights, a: DecodingNode, b: DecodingNode, x: Binary64)
    requires
        addable(w),
        !x.nan(),
        x.negative() ==> forall|c: DecodingNode, d: DecodingNode| (#[trigger] w(c, d)).finite(),
    ensures
        !sum(w(a, b), x).nan(),
        sum(w(a, b), x).negative() ==> forall|c: DecodingNode, d: DecodingNode|
            (#[trigger] w(c, d)).finite(),
{
    let y = w(a, b);
    if y.finite() && x.finite() {
        lemma_rounded_bounded(y.value() + x.value(), y.negative() && x.negative());
    }
}

/// The weight of pairs is a number.
proof fn lemma_weight(pairs: Seq<Pair>, w: Weights)
    requires
        addable(w),
    ensures
        !weight(pairs, w).nan(),
        weight(pairs, w).negative() ==> forall|a: DecodingNode, b: DecodingNode|
            (#[trigger] w(a, b)).finite(),
    decreases pairs.len(),
{
    if pairs.len() == 0 {
        lemma_of_nat(0);
    } else {
        lemma_weight(pairs.drop_last(), w);
        lemma_addable(w, pairs.last().0, pairs.last().1, weight(pairs.drop_last(), w));
    }
}

/// A first defect with one of its first `n` possible partners or the
/// boundary, and a listing of what remains.
spec fn listed_with(first: DecodingNode, rest: Seq<DecodingNode>, n: nat, pairs: Seq<Pair>) -> bool {
    &&& pairs.len() > 0
    &&& pairs.last().0 == first
    &&& {
        ||| pairs.last().1 == DecodingNode::Boundary && listed(rest, pairs.drop_last())
        ||| exists|i: int|
            0 <= i < n && pairs.last().1 == #[trigger] rest[i] && listed(
                rest.remove(i),
                pairs.drop_last(),
            )
    }
}

proof fn lemma_best_with(first: DecodingNode, rest: Seq<DecodingNode>, n: nat, w: Weights)
    requires
        addable(w),
        n <= rest.len(),
    ensures
        listed_with(first, rest, n, best_with(first, rest, n, w).1),
        best_with(first, rest, n, w).0 == weight(best_with(first, rest, n, w).1, w),
        rank(best_with(first, rest, n, w).0) <= rank(
            sum(w(first, DecodingNode::Boundary), best(rest, w).0),
        ),
        forall|i: int|
            0 <= i < n ==> rank(best_with(first, rest, n, w).0) <= rank(
                sum(w(first, #[trigger] rest[i]), best(rest.remove(i), w).0),
            ),
    decreases rest.len(), n + 1,
{
    if n == 0 {
        lemma_minimum(rest, w);
        let alone = best(rest, w).1;
        let pair = (first, DecodingNode::Boundary);
        assert(alone.push(pair).drop_last() =~= alone);
    } else {
        let m = (n - 1) as nat;
        let before = best_with(first, rest, m, w);
        lemma_best_with(first, rest, m, w);
        lemma_minimum(rest.remove(n - 1), w);
        let others = best(rest.remove(n - 1), w).1;
        let pair = (first, rest[n - 1]);
        assert(others.push(pair).drop_last() =~= others);
        lemma_weight(others.push(pair), w);
        lemma_weight(before.1, w);
    }
}

/// The search finds a matching whose weight no other one is below.
pub proof fn lemma_minimum(defects: Seq<DecodingNode>, w: Weights)
    requires
        addable(w),
    ensures
        listed(defects, best(defects, w).1),
        best(defects, w).0 == weight(best(defects, w).1, w),
        forall|pairs: Seq<Pair>| #[trigger]
            listed(defects, pairs) ==> !below(weight(pairs, w), weight(best(defects, w).1, w)),
    decreases defects.len(), 0nat,
{
    if defects.len() > 0 {
        let first = defects[0];
        let rest = defects.skip(1);
        lemma_best_with(first, rest, rest.len(), w);
        let found = best(defects, w);
        assert forall|pairs: Seq<Pair>| #[trigger] listed(defects, pairs) implies !below(
            weight(pairs, w),
            found.0,
        ) by {
            let others = pairs.drop_last();
            let partner = pairs.last().1;
            lemma_weight(others, w);
            lemma_weight(pairs, w);
            if partner == DecodingNode::Boundary && listed(rest, others) {
                lemma_minimum(rest, w);
                lemma_weight(best(rest, w).1, w);
                lemma_addable(w, first, partner, best(rest, w).0);
                lemma_sum_monotone(w(first, partner), best(rest, w).0, weight(others, w));
            } else {
                let i = choose|i: int|
                    0 <= i < rest.len() && partner == #[trigger] rest[i] && listed(
                        rest.remove(i),
                        others,
                    );
                let left = rest.remove(i);
                lemma_minimum(left, w);
                lemma_weight(best(left, w).1, w);
                lemma_addable(w, first, partner, best(left, w).0);
                lemma_sum_monotone(w(first, partner), best(left, w).0, weight(others, w));
                assert(rest[i] == partner);
            }
        }
    }
}

/// Lengths of pairs of nodes.
pub type Lengths = spec_fn(DecodingNode, DecodingNode) -> nat;

pub open spec fn symmetric(n: Lengths) -> bool {
    forall|a: DecodingNode, b: DecodingNode| #[trigger] n(a, b) == n(b, a)
}

/// The weights are whole numbers, none above `most`.
pub open spec fn whole(w: Weights, n: Lengths, most: nat) -> bool {
    forall|a: DecodingNode, b: DecodingNode|
        (#[trigger] w(a, b)) == of_nat(n(a, b)) && n(a, b) <= most
}

/// The lengths of pairs together.
pub open spec fn total(pairs: Seq<Pair>, n: Lengths) -> nat
    decreases pairs.len(),
{
    if pairs.len() == 0 {
        0
    } else {
        total(pairs.drop_last(), n) + n(pairs.last().0, pairs.last().1)
    }
}

/// What one pair contributes, wherever it stands.
proof fn lemma_without(pairs: Seq<Pair>, j: int, n: Lengths)
    requires
        0 <= j < pairs.len(),
    ensures
        total(pairs, n) == total(pairs.remove(j), n) + n(pairs[j].0, pairs[j].1),
        endpoints(pairs) == endpoints(pairs.remove(j).push(pairs[j])),
    decreases pairs.len(),
{
    let less = pairs.remove(j);
    lemma_endpoints_push(less, pairs[j]);
    if j == pairs.len() - 1 {
        assert(less =~= pairs.drop_last());
        assert(less.push(pairs[j]) =~= pairs);
    } else {
        let front = pairs.drop_last();
        lemma_without(front, j, n);
        lemma_endpoints_push(front.remove(j), front[j]);
        assert(less.drop_last() =~= front.remove(j));
        assert(less.last() == pairs.last());
        assert(endpoints(pairs) =~= endpoints(less.push(pairs[j])));
    }
}

proof fn lemma_same_insert(a: Multiset<DecodingNode>, b: Multiset<DecodingNode>, x: DecodingNode)
    requires
        a.insert(x) == b.insert(x),
    ensures
        a == b,
{
    assert(a.insert(x).remove(x) =~= a);
    assert(b.insert(x).remove(x) =~= b);
}

/// Some pair holds each defect.
proof fn lemma_has_pair(pairs: Seq<Pair>, x: DecodingNode) -> (j: int)
    requires
        endpoints(pairs).count(x) > 0,
    ensures
        0 <= j < pairs.len(),
        pairs[j].0 == x || pairs[j].1 == x && x != DecodingNode::Boundary,
    decreases pairs.len(),
{
    let p = pairs.last();
    if p.0 == x || p.1 == x && x != DecodingNode::Boundary {
        pairs.len() - 1
    } else {
        lemma_has_pair(pairs.drop_last(), x)
    }
}

/// Every matching can be written down as a listing, by turning pairs round
/// and putting them in order.
pub proof fn lemma_listing(defects: Seq<DecodingNode>, pairs: Seq<Pair>, n: Lengths) -> (r: Seq<Pair>)
    requires
        all_checks(defects),
        is_matching(defects, pairs),
        symmetric(n),
    ensures
        listed(defects, r),
        total(r, n) == total(pairs, n),
    decreases defects.len(),
{
    broadcast use vstd::seq_lib::group_to_multiset_ensures;

    if defects.len() == 0 {
        if pairs.len() > 0 {
            let x = pairs.last().0;
            assert(endpoints(pairs).count(x) > 0);
            assert(defects.to_multiset().len() == 0);
        }
        pairs
    } else {
        let first = defects[0];
        let rest = defects.skip(1);
        lemma_multiset_first(defects);
        assert(defects[0] is Check);
        let j = lemma_has_pair(pairs, first);
        let less = pairs.remove(j);
        lemma_without(pairs, j, n);
        lemma_endpoints_push(less, pairs[j]);
        let partner = if pairs[j].0 == first {
            pairs[j].1
        } else {
            pairs[j].0
        };
        assert(forall|i: int| 0 <= i < rest.len() ==> #[trigger] rest[i] == defects[i + 1]);
        if partner == DecodingNode::Boundary {
            lemma_same_insert(endpoints(less), rest.to_multiset(), first);
            let others = lemma_listing(rest, less, n);
            let r = others.push((first, partner));
            assert(r.drop_last() =~= others);
            r
        } else {
            assert(endpoints(less).insert(first).insert(partner) =~= endpoints(less).insert(
                partner,
            ).insert(first));
            lemma_same_insert(endpoints(less).insert(partner), rest.to_multiset(), first);
            assert(rest.to_multiset().count(partner) > 0);
            assert(rest.contains(partner));
            let i = choose|i: int| 0 <= i < rest.len() && rest[i] == partner;
            lemma_multiset_remove(rest, i);
            lemma_same_insert(endpoints(less), rest.remove(i).to_multiset(), partner);
            let others = lemma_listing(rest.remove(i), less, n);
            let r = others.push((first, partner));
            assert(r.drop_last() =~= others);
            r
        }
    }
}

/// Whole lengths add up without rounding.
proof fn lemma_exact(defects: Seq<DecodingNode>, pairs: Seq<Pair>, w: Weights, n: Lengths, most: nat)
    requires
        listed(defects, pairs),
        whole(w, n, most),
        most * defects.len() < EXACT_LIMIT,
    ensures
        weight(pairs, w) == of_nat(total(pairs, n)),
        total(pairs, n) <= most * defects.len(),
    decreases defects.len(),
{
    if defects.len() == 0 {
        assert(most * 0 == 0);
    } else {
        let p = pairs.last();
        let rest = defects.skip(1);
        let left = if p.1 == DecodingNode::Boundary && listed(rest, pairs.drop_last()) {
            rest
        } else {
            let i = choose|i: int|
                0 <= i < rest.len() && p.1 == #[trigger] rest[i] && listed(
                    rest.remove(i),
                    pairs.drop_last(),
                );
            rest.remove(i)
        };
        assert(most * left.len() + most <= most * defects.len()) by (nonlinear_arith)
            requires
                left.len() + 1 <= defects.len(),
        ;
        lemma_exact(left, pairs.drop_last(), w, n, most);
        assert(w(p.0, p.1) == of_nat(n(p.0, p.1)));
        lemma_of_nat_sum(n(p.0, p.1), total(pairs.drop_last(), n));
    }
}

/// Where the weights are whole numbers and their sums are exact, no matching
/// of the defects at all is shorter than the one that the search finds.
pub proof fn lemma_shortest_of_all(
    defects: Seq<DecodingNode>,
    pairs: Seq<Pair>,
    w: Weights,
    n: Lengths,
    most: nat,
)
    requires
        all_checks(defects),
        is_matching(defects, pairs),
        symmetric(n),
        whole(w, n, most),
        most * defects.len() < EXACT_LIMIT,
    ensures
        total(best(defects, w).1, n) <= total(pairs, n),
{
    if defects.len() > 0 {
        assert(most <= most * defects.len()) by (nonlinear_arith)
            requires
                defects.len() > 0,
        ;
        assert forall|a: DecodingNode, b: DecodingNode| (#[trigger] w(a, b)).finite() by {
            assert(w(a, b) == of_nat(n(a, b)));
            lemma_of_nat(n(a, b));
        }
        lemma_minimum(defects, w);
        let r = lemma_listing(defects, pairs, n);
        lemma_exact(defects, r, w, n, most);
        lemma_exact(defects, best(defects, w).1, w, n, most);
        lemma_of_nat_order(total(r, n), total(best(defects, w).1, n));
        assert(listed(defects, r));
    }
}

} // verus!
