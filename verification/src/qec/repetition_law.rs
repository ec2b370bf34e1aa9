//! A round of a repetition code, from errors to corrections.
use super::frame::{lemma_through_joined, Frame};
use super::guarantee::{lemma_corrects_minority, ones, produces};
use super::repetition::{all_checks_gates, check_gates, flips, gather, spread, turned, RepetitionCode};
use super::{DecodableCode, PauliCorrection};
use crate::binary64::EXACT_LIMIT;
use crate::ir::Gate;
use vstd::prelude::*;

verus! {

/// Data qubits, ancillas and classical bits of a code, all different.
pub open spec fn apart(data: Seq<usize>, ancillas: Seq<usize>, bits: Seq<usize>) -> bool {
    &&& data.len() == ancillas.len() + 1
    &&& bits.len() == ancillas.len()
    &&& forall|i: int, j: int| 0 <= i < j < data.len() ==> #[trigger] data[i] != #[trigger] data[j]
    &&& forall|i: int, j: int|
        0 <= i < j < ancillas.len() ==> #[trigger] ancillas[i] != #[trigger] ancillas[j]
    &&& forall|i: int, j: int| 0 <= i < j < bits.len() ==> #[trigger] bits[i] != #[trigger] bits[j]
    &&& forall|i: int, j: int|
        0 <= i < data.len() && 0 <= j < ancillas.len() ==> #[trigger] data[i]
            != #[trigger] ancillas[j]
}

/// Whether a data qubit carries a flip of the kind that the code corrects.
pub open spec fn flipped(f: Frame, p: PauliCorrection, q: usize) -> bool {
    if p == PauliCorrection::X {
        f.x.contains(q)
    } else {
        f.z.contains(q)
    }
}

/// Whether no ancilla from `n` on carries a flip.
pub open spec fn fresh(f: Frame, ancillas: Seq<usize>, n: int) -> bool {
    forall|j: int|
        n <= j < ancillas.len() ==> !f.x.contains(#[trigger] ancillas[j]) && !f.z.contains(ancillas[j])
}

/// Whether two frames are the same on the data qubits.
pub open spec fn same_data(f: Frame, g: Frame, data: Seq<usize>) -> bool {
    forall|i: int|
        0 <= i < data.len() ==> f.x.contains(#[trigger] data[i]) == g.x.contains(data[i])
            && f.z.contains(data[i]) == g.z.contains(data[i])
}

/// One check measures whether two neighbors differ.
proof fn lemma_check(
    p: PauliCorrection,
    f: Frame,
    data: Seq<usize>,
    ancillas: Seq<usize>,
    bits: Seq<usize>,
    i: int,
)
    requires
        apart(data, ancillas, bits),
        0 <= i < ancillas.len(),
        fresh(f, ancillas, i),
    ensures
        ({
            let c = check_gates(p, data, ancillas, bits, i);
            let g = f.through(c, c.len());
            &&& same_data(f, g, data)
            &&& fresh(g, ancillas, i + 1)
            &&& g.bits.contains(bits[i]) == (flipped(f, p, data[i]) != flipped(f, p, data[i + 1]))
            &&& forall|j: int|
                0 <= j < bits.len() && j != i ==> g.bits.contains(#[trigger] bits[j])
                    == f.bits.contains(bits[j])
        }),
{
    let c = check_gates(p, data, ancillas, bits, i);
    let a = ancillas[i];
    let d = data[i];
    let e = data[i + 1];
    assert(d != a && e != a && d != e);
    assert(!f.x.contains(a) && !f.z.contains(a));
    let f1 = f.after(c[0]);
    let f2 = f1.after(c[1]);
    let f3 = f2.after(c[2]);
    assert(f.through(c, 0) == f);
    assert(f.through(c, 1) == f1);
    assert(f.through(c, 2) == f2);
    assert(f.through(c, 3) == f3);
    let g = f.through(c, c.len());
    if p != PauliCorrection::X {
        let f4 = f3.after(c[3]);
        let f5 = f4.after(c[4]);
        assert(f.through(c, 4) == f4);
        assert(f.through(c, 5) == f5);
    }
    assert forall|k: int| 0 <= k < data.len() implies f.x.contains(#[trigger] data[k])
        == g.x.contains(data[k]) && f.z.contains(data[k]) == g.z.contains(data[k]) by {
        assert(data[k] != a);
    }
    assert forall|j: int| i + 1 <= j < ancillas.len() implies !g.x.contains(#[trigger] ancillas[j])
        && !g.z.contains(ancillas[j]) by {
        assert(ancillas[i] != ancillas[j]);
        assert(d != ancillas[j] && e != ancillas[j]);
        assert(!f.x.contains(ancillas[j]) && !f.z.contains(ancillas[j]));
    }
    assert forall|j: int| 0 <= j < bits.len() && j != i implies g.bits.contains(#[trigger] bits[j])
        == f.bits.contains(bits[j]) by {
        if j < i {
            assert(bits[j] != bits[i]);
        } else {
            assert(bits[i] != bits[j]);
        }
    }
}

/// The checks measure which neighbors differ, and leave the data alone.
pub proof fn lemma_syndrome(
    p: PauliCorrection,
    f: Frame,
    data: Seq<usize>,
    ancillas: Seq<usize>,
    bits: Seq<usize>,
    n: nat,
)
    requires
        apart(data, ancillas, bits),
        n <= ancillas.len(),
        fresh(f, ancillas, 0),
    ensures
        ({
            let c = all_checks_gates(p, data, ancillas, bits, n);
            let g = f.through(c, c.len());
            &&& same_data(f, g, data)
            &&& fresh(g, ancillas, n as int)
            &&& forall|i: int|
                0 <= i < n ==> g.bits.contains(#[trigger] bits[i]) == (flipped(f, p, data[i])
                    != flipped(f, p, data[i + 1]))
        }),
    decreases n,
{
    if n > 0 {
        lemma_syndrome(p, f, data, ancillas, bits, (n - 1) as nat);
        let a = all_checks_gates(p, data, ancillas, bits, (n - 1) as nat);
        let b = check_gates(p, data, ancillas, bits, n - 1);
        let c = all_checks_gates(p, data, ancillas, bits, n);
        let h = f.through(a, a.len());
        let g = f.through(c, c.len());
        lemma_through_joined(f, a, b, b.len());
        lemma_check(p, h, data, ancillas, bits, n - 1);
        assert forall|i: int| 0 <= i < data.len() implies f.x.contains(#[trigger] data[i])
            == g.x.contains(data[i]) && f.z.contains(data[i]) == g.z.contains(data[i]) by {
            assert(f.x.contains(data[i]) == h.x.contains(data[i]));
        }
        assert forall|i: int| 0 <= i < n implies g.bits.contains(#[trigger] bits[i]) == (flipped(
            f,
            p,
            data[i],
        ) != flipped(f, p, data[i + 1])) by {
            assert(f.x.contains(data[i]) == h.x.contains(data[i]));
            assert(f.x.contains(data[i + 1]) == h.x.contains(data[i + 1]));
            if i < n - 1 {
                assert(h.bits.contains(bits[i]) == (flipped(f, p, data[i]) != flipped(
                    f,
                    p,
                    data[i + 1],
                )));
            }
        }
    }
}

/// The flips on the data qubits, one by one.
pub open spec fn pattern(f: Frame, p: PauliCorrection, data: Seq<usize>) -> Seq<bool> {
    Seq::new(data.len(), |i: int| flipped(f, p, data[i]))
}

/// In a round of a repetition code, errors on fewer than half of the data
/// qubits are found: from the bits that the checks measure, the decoder
/// gives exactly the qubits in error.
pub proof fn lemma_round_corrects(
    p: PauliCorrection,
    f: Frame,
    data: Seq<usize>,
    ancillas: Seq<usize>,
    bits: Seq<usize>,
    s: Seq<u8>,
)
    requires
        apart(data, ancillas, bits),
        fresh(f, ancillas, 0),
        3 <= data.len() <= usize::MAX,
        data.len() * data.len() < EXACT_LIMIT,
        2 * ones(pattern(f, p, data), 0, data.len() as int) < data.len(),
        s.len() == ancillas.len(),
        ({
            let c = all_checks_gates(p, data, ancillas, bits, bits.len());
            let g = f.through(c, c.len());
            forall|i: int| 0 <= i < s.len() ==> ((#[trigger] s[i]) != 0) == g.bits.contains(bits[i])
        }),
    ensures
        forall|q: usize|
            q < data.len() ==> #[trigger] flips(data.len() as int, s, q) == flipped(
                f,
                p,
                data[q as int],
            ),
{
    let e = pattern(f, p, data);
    lemma_syndrome(p, f, data, ancillas, bits, bits.len());
    assert(produces(e, s)) by {
        assert forall|i: int| 0 <= i < s.len() implies ((#[trigger] s[i]) != 0 <==> e[i] != e[i + 1]) by {
            assert(bits[i] == bits[i]);
        }
    }
    lemma_corrects_minority(data.len() as int, e, s);
    assert forall|q: usize| q < data.len() implies #[trigger] flips(data.len() as int, s, q)
        == flipped(f, p, data[q as int]) by {
        assert(e[q as int] == flipped(f, p, data[q as int]));
    }
}

/// The gates that gather undo those that spread.
pub proof fn lemma_gather_undoes_spread(f: Frame, data: Seq<usize>, n: nat)
    requires
        1 <= n <= data.len(),
        forall|i: int, j: int| 0 <= i < j < data.len() ==> #[trigger] data[i] != #[trigger] data[j],
    ensures
        ({
            let a = spread(data, n);
            let b = gather(data.take(n as int), 1);
            f.through(a + b, (a.len() + b.len()) as nat) == f
        }),
    decreases n,
{
    let a = spread(data, n);
    let b = gather(data.take(n as int), 1);
    lemma_through_joined(f, a, b, b.len());
    if n == 1 {
        assert(f.through(a, 0) == f);
        assert(f.through(b, 0) == f);
    } else {
        // The last gate of the one undoes the first of the other.
        let m = (n - 1) as nat;
        let a1 = spread(data, m);
        let b1 = gather(data.take(m as int), 1);
        let g = Gate::Cx(data[0], data[n - 1]);
        lemma_gather_front(data, n);
        assert(b =~= seq![g] + b1);
        assert(a =~= a1 + seq![g]);
        let h = f.through(a1, a1.len());
        lemma_through_joined(f, a1, seq![g], 1);
        assert(h.through(seq![g], 0) == h);
        assert(h.through(seq![g], 1) == h.after(g));
        let k = h.after(g);
        lemma_through_joined(k, seq![g], b1, b1.len());
        assert(k.through(seq![g], 0) == k);
        assert(k.through(seq![g], 1) == k.after(g));
        assert(data[0] != data[n - 1]);
        assert(k.after(g).x =~= h.x);
        assert(k.after(g).z =~= h.z);
        lemma_through_joined(f, a1, b1, b1.len());
        lemma_gather_undoes_spread(f, data, m);
    }
}

/// The first gate that gathers is on the last qubit.
proof fn lemma_gather_front(data: Seq<usize>, n: nat)
    requires
        2 <= n <= data.len(),
    ensures
        gather(data.take(n as int), 1) == seq![Gate::Cx(data[0], data[n - 1])] + gather(
            data.take(n - 1),
            1,
        ),
{
    lemma_gather_front_from(data, n, 1);
}

proof fn lemma_gather_front_from(data: Seq<usize>, n: nat, k: int)
    requires
        2 <= n <= data.len(),
        1 <= k <= n - 1,
    ensures
        gather(data.take(n as int), k) == seq![Gate::Cx(data[0], data[n - 1])] + gather(
            data.take(n - 1),
            k,
        ),
    decreases n - k,
{
    let all = data.take(n as int);
    let front = data.take(n - 1);
    let g = Gate::Cx(data[0], data[n - 1]);
    if k == n - 1 {
        assert(gather(all, n as int) =~= Seq::empty());
        assert(gather(all, k) =~= seq![g]);
        assert(gather(front, k) =~= Seq::empty());
        assert(seq![g] + gather(front, k) =~= seq![g]);
    } else {
        lemma_gather_front_from(data, n, k + 1);
        let x = Gate::Cx(data[0], data[k]);
        assert(gather(all, k) == gather(all, k + 1).push(x));
        assert(gather(front, k) == gather(front, k + 1).push(x));
        assert(gather(all, k) =~= seq![g] + gather(front, k));
    }
}

/// Whether a qubit is among the first `n` of a list.
spec fn listed(data: Seq<usize>, n: int, q: usize) -> bool {
    exists|i: int| 0 <= i < n && #[trigger] data[i] == q
}

/// A turn of each qubit exchanges its flips.
proof fn lemma_turned(f: Frame, data: Seq<usize>, n: nat)
    requires
        n <= data.len(),
        forall|i: int, j: int| 0 <= i < j < data.len() ==> #[trigger] data[i] != #[trigger] data[j],
    ensures
        forall|q: usize|
            f.through(turned(data), n).x.contains(q) == (if #[trigger] listed(data, n as int, q) {
                f.z.contains(q)
            } else {
                f.x.contains(q)
            }),
        forall|q: usize|
            f.through(turned(data), n).z.contains(q) == (if #[trigger] listed(data, n as int, q) {
                f.x.contains(q)
            } else {
                f.z.contains(q)
            }),
        f.through(turned(data), n).bits == f.bits,
    decreases n,
{
    if n > 0 {
        lemma_turned(f, data, (n - 1) as nat);
        let g = f.through(turned(data), (n - 1) as nat);
        let h = f.through(turned(data), n);
        let d = data[n - 1];
        assert(turned(data)[n - 1] == Gate::H(d));
        assert(!listed(data, n - 1, d));
        assert forall|q: usize|
            h.x.contains(q) == (if #[trigger] listed(data, n as int, q) {
                f.z.contains(q)
            } else {
                f.x.contains(q)
            }) && h.z.contains(q) == (if listed(data, n as int, q) {
                f.x.contains(q)
            } else {
                f.z.contains(q)
            }) by {
            if q == d {
                assert(data[n - 1] == q);
            } else {
                assert(listed(data, n as int, q) == listed(data, n - 1, q)) by {
                    if listed(data, n as int, q) {
                        let i = choose|i: int| 0 <= i < n && #[trigger] data[i] == q;
                        assert(i < n - 1);
                    }
                }
            }
        }
    }
}

/// Decoding a repetition code undoes encoding it: every flip comes out as it
/// went in.
pub proof fn lemma_decoding_undoes_encoding(code: RepetitionCode, f: Frame, data: Seq<usize>)
    requires
        data.len() >= 1,
        forall|i: int, j: int| 0 <= i < j < data.len() ==> #[trigger] data[i] != #[trigger] data[j],
    ensures
        ({
            let a = code.encoding(data);
            let b = code.decoding(data);
            f.through(a, a.len()).through(b, b.len()) == f
        }),
{
    let n = data.len();
    let a = spread(data, n);
    let b = gather(data, 1);
    let none = Seq::<Gate>::empty();
    assert(data.take(n as int) =~= data);
    lemma_gather_undoes_spread(f, data, n);
    lemma_through_joined(f, a, b, b.len());
    let g = f.through(a, a.len());
    if code.spec_corrects() == PauliCorrection::Z {
        let t = turned(data);
        let h = g.through(t, n);
        lemma_through_joined(f, a, t, n);
        lemma_through_joined(h, t, b, b.len());
        let k = h.through(t, n);
        lemma_turned(g, data, n);
        lemma_turned(h, data, n);
        assert forall|q: usize| k.x.contains(q) == g.x.contains(q) && k.z.contains(q)
            == g.z.contains(q) by {
            if listed(data, n as int, q) {
                assert(h.x.contains(q) == g.z.contains(q));
            } else {
                assert(h.x.contains(q) == g.x.contains(q));
            }
        }
        assert(k.x =~= g.x);
        assert(k.z =~= g.z);
    } else {
        assert(a + none =~= a);
        assert(none + b =~= b);
    }
}

} // verus!
