//! Outcomes of repeated runs as text.
use crate::text::{chars_of, decimal, push_chars, push_decimal};
use vstd::prelude::*;

verus! {

/// The character of a classical bit.
pub open spec fn bit_char(b: u8) -> char {
    if b == 0 {
        '0'
    } else {
        '1'
    }
}

/// The classical bits as digits, the last one first.
pub fn outcome_text(clbits: &Vec<u8>) -> (r: String)
    ensures
        r@ == Seq::new(clbits@.len(), |i: int| bit_char(clbits@[clbits@.len() - 1 - i])),
{
    let mut out = String::from_str("");
    proof {
        reveal_strlit("");
    }
    let mut i: usize = clbits.len();
    while i > 0
        invariant
            i <= clbits.len(),
            out@.len() == clbits.len() - i,
            forall|k: int|
                0 <= k < out@.len() ==> #[trigger] out@[k] == bit_char(
                    clbits@[clbits@.len() - 1 - k],
                ),
        decreases i,
    {
        i = i - 1;
        if clbits[i] == 0 {
            out.push('0');
        } else {
            out.push('1');
        }
    }
    assert(out@ =~= Seq::new(clbits@.len(), |i: int| bit_char(clbits@[clbits@.len() - 1 - i])));
    out
}

/// Whether a text does not come behind another, by the order of characters.
pub open spec fn not_behind(a: Seq<char>, b: Seq<char>) -> bool
    decreases a.len(),
{
    if a.len() == 0 {
        true
    } else if b.len() == 0 {
        false
    } else if a[0] == b[0] {
        not_behind(a.skip(1), b.skip(1))
    } else {
        a[0] < b[0]
    }
}

/// Of two texts at least one does not come behind the other.
proof fn lemma_order_total(a: Seq<char>, b: Seq<char>)
    ensures
        not_behind(a, b) || not_behind(b, a),
    decreases a.len(),
{
    if a.len() > 0 && b.len() > 0 {
        if a[0] == b[0] {
            lemma_order_total(a.skip(1), b.skip(1));
        }
    }
}

proof fn lemma_order_transitive(a: Seq<char>, b: Seq<char>, c: Seq<char>)
    requires
        not_behind(a, b),
        not_behind(b, c),
    ensures
        not_behind(a, c),
    decreases a.len(),
{
    if a.len() > 0 && b.len() > 0 && c.len() > 0 {
        if a[0] == b[0] && b[0] == c[0] {
            lemma_order_transitive(a.skip(1), b.skip(1), c.skip(1));
        }
    }
}

fn is_not_behind(a: &Vec<char>, b: &Vec<char>) -> (r: bool)
    ensures
        r == not_behind(a@, b@),
{
    let mut i: usize = 0;
    assert(a@.skip(0) =~= a@);
    assert(b@.skip(0) =~= b@);
    while i < a.len() && i < b.len()
        invariant
            i <= a.len(),
            i <= b.len(),
            not_behind(a@, b@) == not_behind(a@.skip(i as int), b@.skip(i as int)),
        decreases a.len() - i,
    {
        if a[i] != b[i] {
            return a[i] < b[i];
        }
        assert(a@.skip(i as int).skip(1) =~= a@.skip(i + 1));
        assert(b@.skip(i as int).skip(1) =~= b@.skip(i + 1));
        i = i + 1;
    }
    i == a.len()
}

/// Whether texts are in order.
pub open spec fn ascending(v: Seq<Seq<char>>) -> bool {
    forall|i: int, j: int| 0 <= i < j < v.len() ==> not_behind(#[trigger] v[i], #[trigger] v[j])
}

/// The entry of an outcome and its count.
pub open spec fn entry_text(outcome: Seq<char>, count: u64) -> Seq<char> {
    "  \""@ + outcome + "\": "@ + decimal(count as nat)
}

/// The first `n` texts with commas and line ends between them.
pub open spec fn joined(entries: Seq<Seq<char>>, n: nat) -> Seq<char>
    decreases n,
{
    if n == 0 {
        Seq::empty()
    } else if n == 1 {
        entries[0]
    } else {
        joined(entries, (n - 1) as nat) + ",\n"@ + entries[n - 1]
    }
}

/// The entries of all outcomes.
pub open spec fn entries(counts: Seq<(String, u64)>) -> Seq<Seq<char>> {
    counts.map_values(|e: (String, u64)| entry_text(e.0@, e.1))
}

spec fn texts(v: Seq<Vec<char>>) -> Seq<Seq<char>> {
    v.map_values(|r: Vec<char>| r@)
}

/// Puts a text in its place.
fn insert_in_order(v: &mut Vec<Vec<char>>, t: Vec<char>)
    requires
        ascending(texts(old(v)@)),
    ensures
        ascending(texts(final(v)@)),
        texts(final(v)@).to_multiset() == texts(old(v)@).to_multiset().insert(t@),
{
    let ghost before = texts(v@);
    let mut at: usize = v.len();
    while at > 0 && !is_not_behind(&v[at - 1], &t)
        invariant
            before == texts(v@),
            ascending(before),
            at <= v.len(),
            forall|i: int| at <= i < before.len() ==> not_behind(t@, #[trigger] before[i]),
        decreases at,
    {
        proof {
            lemma_order_total(before[at - 1], t@);
            assert(before[at - 1] == v@[at - 1]@);
        }
        at = at - 1;
    }
    let ghost was = v@;
    v.insert(at, t);
    proof {
        let now = texts(v@);
        assert(now =~= before.insert(at as int, t@));
        before.to_multiset_ensures();
        vstd::seq_lib::to_multiset_insert(before, at as int, t@);
        if at > 0 {
            assert(before[at - 1] == was[at - 1]@);
        }
        assert forall|i: int, j: int| 0 <= i < j < now.len() implies not_behind(
            #[trigger] now[i],
            #[trigger] now[j],
        ) by {
            let a = if i < at {
                i
            } else {
                i - 1
            };
            let b = if j < at {
                j
            } else {
                j - 1
            };
            if j < at {
                assert(not_behind(before[i], before[j]));
            } else if i == at {
                assert(not_behind(t@, before[j - 1]));
            } else if j == at {
                if i < at - 1 {
                    assert(not_behind(before[i], before[at - 1]));
                    lemma_order_transitive(before[i], before[at - 1], t@);
                }
            } else {
                assert(not_behind(before[a], before[b]));
            }
        }
    }
}

/// The counts of outcomes as a JSON object, whatever their order: one entry
/// to a line, in the order of their texts.
pub fn counts_to_json(counts: &Vec<(String, u64)>) -> (r: String)
    ensures
        exists|v: Seq<Seq<char>>| #[trigger]
            ascending(v) && v.to_multiset() == entries(counts@).to_multiset() && r@ == "{\n"@ + joined(
                v,
                v.len(),
            ) + "\n}\n"@,
{
    let mut v: Vec<Vec<char>> = Vec::new();
    let mut i: usize = 0;
    assert(texts(v@) =~= entries(counts@).take(0));
    while i < counts.len()
        invariant
            i <= counts.len(),
            ascending(texts(v@)),
            texts(v@).to_multiset() == entries(counts@).take(i as int).to_multiset(),
        decreases counts.len() - i,
    {
        let mut s = String::from_str("  \"");
        s.append(counts[i].0.as_str());
        s.append("\": ");
        push_decimal(&mut s, counts[i].1 as u128);
        let ghost t = entries(counts@)[i as int];
        assert(s@ =~= t);
        insert_in_order(&mut v, chars_of(s.as_str()));
        proof {
            let front = entries(counts@).take(i as int);
            front.to_multiset_ensures();
            assert(entries(counts@).take(i + 1) =~= front.push(t));
        }
        i = i + 1;
    }
    assert(entries(counts@).take(i as int) =~= entries(counts@));
    let ghost all = texts(v@);
    let mut out = String::from_str("{\n");
    let ghost head = out@;
    let mut k: usize = 0;
    assert(head + joined(all, 0) =~= head);
    while k < v.len()
        invariant
            all == texts(v@),
            k <= v.len(),
            out@ == head + joined(all, k as nat),
        decreases v.len() - k,
    {
        if k > 0 {
            out.append(",\n");
        }
        push_chars(&mut out, &v[k]);
        k = k + 1;
        assert(out@ =~= head + joined(all, k as nat));
    }
    out.append("\n}\n");
    out
}

/// The order of the outcomes does not matter to the text.
pub proof fn lemma_order_does_not_matter(a: Seq<Seq<char>>, b: Seq<Seq<char>>)
    requires
        ascending(a),
        ascending(b),
        a.to_multiset() == b.to_multiset(),
    ensures
        a == b,
    decreases a.len(),
{
    a.to_multiset_ensures();
    b.to_multiset_ensures();
    assert(a.len() == b.len());
    if a.len() > 0 {
        let n = a.len() - 1;
        let x = a.last();
        let y = b.last();
        assert(b.to_multiset().count(x) > 0);
        assert(b.contains(x));
        let i = choose|i: int| 0 <= i < b.len() && b[i] == x;
        assert(a.to_multiset().count(y) > 0);
        assert(a.contains(y));
        let j = choose|j: int| 0 <= j < a.len() && a[j] == y;
        if i < n {
            assert(not_behind(b[i], b[n]));
        }
        if j < n {
            assert(not_behind(a[j], a[n]));
        }
        if x != y {
            lemma_order_strict(x, y);
        }
        let c = a.drop_last();
        let d = b.drop_last();
        assert(a =~= c.push(x));
        assert(b =~= d.push(x));
        c.to_multiset_ensures();
        d.to_multiset_ensures();
        assert(c.to_multiset() =~= a.to_multiset().remove(x));
        assert(d.to_multiset() =~= b.to_multiset().remove(x));
        lemma_order_does_not_matter(c, d);
    } else {
        assert(a =~= b);
    }
}

/// Texts that do not come behind each other are equal.
proof fn lemma_order_strict(a: Seq<char>, b: Seq<char>)
    requires
        not_behind(a, b),
        not_behind(b, a),
    ensures
        a == b,
    decreases a.len(),
{
    if a.len() > 0 && b.len() > 0 {
        lemma_order_strict(a.skip(1), b.skip(1));
        assert(a =~= seq![a[0]] + a.skip(1));
        assert(b =~= seq![b[0]] + b.skip(1));
    } else {
        assert(a =~= b);
    }
}

} // verus!
