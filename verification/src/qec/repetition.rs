//! Repetition codes of any odd distance.
//!
//! A code of distance `d` has `d` data qubits and `d - 1` checks; check `i`
//! compares the data qubits `i` and `i + 1`. The decoding graph is a path:
//! the boundary, the checks in order, the boundary. Each data qubit is one of
//! its edges.
use crate::binary64::{absolute, difference, of_nat, Binary64};
use crate::ir::{Circuit, Gate};
use crate::qec::decoder::{
    best, computes, corrections_from_matching, minimum_weight_perfect_matching, odd_in_all,
    path_for, paths_for, rising, DecodingNode, Weights,
};
use crate::qec::{appended, DecodableCode, PauliCorrection};
use vstd::prelude::*;

verus! {

/// How many data qubits lie between a check and the nearer end.
pub open spec fn boundary_distance(d: int, i: int) -> nat {
    if i + 1 <= d - 1 - i {
        (i + 1) as nat
    } else if i < d - 1 {
        (d - 1 - i) as nat
    } else {
        0
    }
}

/// The weight of a pair of nodes: how many data qubits lie between them.
pub open spec fn node_distance(d: int, a: DecodingNode, b: DecodingNode) -> Binary64 {
    match (a, b) {
        (DecodingNode::Check(i), DecodingNode::Check(j)) => absolute(
            difference(of_nat(i as nat), of_nat(j as nat)),
        ),
        (DecodingNode::Check(i), DecodingNode::Boundary) => of_nat(boundary_distance(d, i as int)),
        (DecodingNode::Boundary, DecodingNode::Check(i)) => of_nat(boundary_distance(d, i as int)),
        (DecodingNode::Boundary, DecodingNode::Boundary) => of_nat(0),
    }
}

/// The numbers `from..to`.
pub open spec fn range(from: int, to: int) -> Seq<usize> {
    Seq::new(
        (if from < to {
            to - from
        } else {
            0
        }) as nat,
        |k: int| (from + k) as usize,
    )
}

/// The first data qubit on the way between two nodes.
pub open spec fn path_from(d: int, a: DecodingNode, b: DecodingNode) -> int {
    match (a, b) {
        (DecodingNode::Check(i), DecodingNode::Check(j)) => if i < j {
            i + 1
        } else {
            j + 1
        },
        (DecodingNode::Check(i), DecodingNode::Boundary) => if i + 1 <= d - 1 - i {
            0
        } else {
            i + 1
        },
        (DecodingNode::Boundary, DecodingNode::Check(i)) => if i + 1 <= d - 1 - i {
            0
        } else {
            i + 1
        },
        (DecodingNode::Boundary, DecodingNode::Boundary) => 0,
    }
}

/// One more than the last one.
pub open spec fn path_to(d: int, a: DecodingNode, b: DecodingNode) -> int {
    match (a, b) {
        (DecodingNode::Check(i), DecodingNode::Check(j)) => if i < j {
            j + 1
        } else {
            i + 1
        },
        (DecodingNode::Check(i), DecodingNode::Boundary) => if i + 1 <= d - 1 - i {
            i + 1
        } else {
            d
        },
        (DecodingNode::Boundary, DecodingNode::Check(i)) => if i + 1 <= d - 1 - i {
            i + 1
        } else {
            d
        },
        (DecodingNode::Boundary, DecodingNode::Boundary) => 0,
    }
}

/// The data qubits on the way between two nodes. To the boundary it is the
/// shorter way.
pub open spec fn path(d: int, a: DecodingNode, b: DecodingNode) -> Seq<usize> {
    range(path_from(d, a, b), path_to(d, a, b))
}

pub open spec fn node_weights(d: int) -> Weights {
    |a: DecodingNode, b: DecodingNode| node_distance(d, a, b)
}

/// The checks below `n` that fired.
pub open spec fn defects(syndrome: Seq<u8>, n: nat) -> Seq<DecodingNode>
    decreases n,
{
    if n == 0 {
        Seq::empty()
    } else if syndrome[n - 1] != 0 {
        defects(syndrome, (n - 1) as nat).push(DecodingNode::Check((n - 1) as usize))
    } else {
        defects(syndrome, (n - 1) as nat)
    }
}

pub open spec fn pair_paths(d: int, pairs: Seq<(DecodingNode, DecodingNode)>) -> Seq<Seq<usize>> {
    pairs.map_values(|p: (DecodingNode, DecodingNode)| path(d, p.0, p.1))
}

/// Whether the data qubit `q` is corrected: it lies on an odd number of
/// paths of the cheapest matching of the fired checks.
pub open spec fn flips(d: int, syndrome: Seq<u8>, q: usize) -> bool {
    odd_in_all(
        pair_paths(d, best(defects(syndrome, syndrome.len()), node_weights(d)).1),
        q,
    )
}

/// The corrected data qubits below `n`, in ascending order.
pub open spec fn flipped_below(d: int, syndrome: Seq<u8>, n: nat, p: PauliCorrection) -> Seq<
    (usize, PauliCorrection),
>
    decreases n,
{
    if n == 0 {
        Seq::empty()
    } else if flips(d, syndrome, (n - 1) as usize) {
        flipped_below(d, syndrome, (n - 1) as nat, p).push(((n - 1) as usize, p))
    } else {
        flipped_below(d, syndrome, (n - 1) as nat, p)
    }
}

/// A repetition code that corrects bit flips or phase flips.
pub struct RepetitionCode {
    distance: usize,
    corrects: PauliCorrection,
}

fn graph_distance(d: usize, a: DecodingNode, b: DecodingNode) -> (r: Binary64)
    requires
        d >= 1,
    ensures
        r == node_distance(d as int, a, b),
{
    match (a, b) {
        (DecodingNode::Check(i), DecodingNode::Check(j)) => Binary64::from_u64(i as u64).minus(
            Binary64::from_u64(j as u64),
        ).abs(),
        (DecodingNode::Check(i), DecodingNode::Boundary) => Binary64::from_u64(nearest_end(d, i) as u64),
        (DecodingNode::Boundary, DecodingNode::Check(i)) => Binary64::from_u64(nearest_end(d, i) as u64),
        (DecodingNode::Boundary, DecodingNode::Boundary) => Binary64::from_u64(0),
    }
}

fn nearest_end(d: usize, i: usize) -> (r: usize)
    requires
        d >= 1,
    ensures
        r == boundary_distance(d as int, i as int),
{
    if i >= d - 1 {
        0
    } else if i < d - 1 - i {
        i + 1
    } else {
        d - 1 - i
    }
}

fn numbers(from: usize, to: usize) -> (r: Vec<usize>)
    ensures
        r@ == range(from as int, to as int),
{
    let mut out: Vec<usize> = Vec::new();
    let mut k: usize = from;
    while k < to
        invariant
            from <= k,
            from <= to ==> k <= to,
            out@ == range(from as int, k as int),
            from > to ==> k == from,
        decreases to - k,
    {
        out.push(k);
        k = k + 1;
        assert(out@ =~= range(from as int, k as int));
    }
    assert(out@ =~= range(from as int, to as int));
    out
}

fn path_qubits(d: usize, a: DecodingNode, b: DecodingNode) -> (r: Vec<usize>)
    requires
        d >= 1,
    ensures
        r@ == path(d as int, a, b),
{
    match (a, b) {
        (DecodingNode::Check(i), DecodingNode::Check(j)) => if i < j {
            after(i, j)
        } else {
            after(j, i)
        },
        (DecodingNode::Check(i), DecodingNode::Boundary) => way_out(d, i),
        (DecodingNode::Boundary, DecodingNode::Check(i)) => way_out(d, i),
        (DecodingNode::Boundary, DecodingNode::Boundary) => Vec::new(),
    }
}

/// The numbers above `i` up to `j`.
fn after(i: usize, j: usize) -> (r: Vec<usize>)
    requires
        i <= j,
    ensures
        r@ == range(i + 1, j + 1),
{
    let mut out: Vec<usize> = Vec::new();
    let mut k: usize = i;
    assert(out@ =~= range(i + 1, i + 1));
    while k < j
        invariant
            i <= k <= j,
            out@ == range(i + 1, k + 1),
        decreases j - k,
    {
        k = k + 1;
        out.push(k);
        assert(out@ =~= range(i + 1, k + 1));
    }
    out
}

fn way_out(d: usize, i: usize) -> (r: Vec<usize>)
    requires
        d >= 1,
    ensures
        r@ == path(d as int, DecodingNode::Check(i), DecodingNode::Boundary),
        r@ == path(d as int, DecodingNode::Boundary, DecodingNode::Check(i)),
{
    if i >= d - 1 {
        let none: Vec<usize> = Vec::new();
        assert(none@ =~= path(d as int, DecodingNode::Check(i), DecodingNode::Boundary));
        none
    } else if i < d - 1 - i {
        numbers(0, i + 1)
    } else {
        numbers(i + 1, d)
    }
}

/// A rising list of the corrected qubits holds each of them.
proof fn lemma_listed(d: int, syndrome: Seq<u8>, n: nat, p: PauliCorrection, list: Seq<usize>)
    requires
        rising(list),
        forall|q: usize| #[trigger] list.contains(q) <==> q < n && flips(d, syndrome, q),
        n <= usize::MAX,
    ensures
        flipped_below(d, syndrome, n, p).len() == list.len(),
        forall|i: int|
            0 <= i < list.len() ==> #[trigger] flipped_below(d, syndrome, n, p)[i] == (list[i], p),
    decreases n,
{
    if n == 0 {
        if list.len() > 0 {
            assert(list.contains(list[0]));
        }
    } else {
        let top = (n - 1) as usize;
        if flips(d, syndrome, top) {
            assert(list.contains(top));
            let k = choose|k: int| 0 <= k < list.len() && list[k] == top;
            assert(k == list.len() - 1) by {
                if k < list.len() - 1 {
                    assert(list[k] < list[list.len() - 1]);
                    assert(list.contains(list[list.len() - 1]));
                }
            }
            let rest = list.drop_last();
            assert forall|q: usize| #[trigger] rest.contains(q) <==> q < n - 1 && flips(d, syndrome, q) by {
                if rest.contains(q) {
                    let j = choose|j: int| 0 <= j < rest.len() && rest[j] == q;
                    assert(list[j] == q);
                    assert(list.contains(q));
                    assert(list[j] < list[k]);
                }
                if q < n - 1 && flips(d, syndrome, q) {
                    assert(list.contains(q));
                    let j = choose|j: int| 0 <= j < list.len() && list[j] == q;
                    assert(rest[j] == q);
                }
            }
            lemma_listed(d, syndrome, (n - 1) as nat, p, rest);
        } else {
            assert forall|q: usize| #[trigger] list.contains(q) <==> q < n - 1 && flips(d, syndrome, q) by {}
            lemma_listed(d, syndrome, (n - 1) as nat, p, list);
        }
    }
}

impl RepetitionCode {
    #[verifier::type_invariant]
    spec fn inv(self) -> bool {
        self.distance >= 3 && self.distance % 2 == 1 && self.corrects != PauliCorrection::Y
    }

    pub closed spec fn spec_distance(self) -> usize {
        self.distance
    }

    pub closed spec fn spec_corrects(self) -> PauliCorrection {
        self.corrects
    }

    /// A code of an odd distance from three up that corrects `X` or `Z`
    /// errors.
    pub fn new(d: usize, corrects: PauliCorrection) -> (r: Self)
        requires
            d >= 3,
            d % 2 == 1,
            corrects != PauliCorrection::Y,
        ensures
            r.spec_distance() == d,
            r.spec_corrects() == corrects,
    {
        RepetitionCode { distance: d, corrects }
    }
}

/// `Cx` from the first data qubit to each of the first `n` others.
pub open spec fn spread(data: Seq<usize>, n: nat) -> Seq<Gate>
    decreases n,
{
    if n <= 1 {
        Seq::empty()
    } else {
        spread(data, (n - 1) as nat).push(Gate::Cx(data[0], data[n - 1]))
    }
}

/// `Cx` from the first data qubit to the others, from the last down to `n`.
pub open spec fn gather(data: Seq<usize>, n: int) -> Seq<Gate>
    decreases data.len() - n,
{
    if n >= data.len() {
        Seq::empty()
    } else {
        gather(data, n + 1).push(Gate::Cx(data[0], data[n]))
    }
}

pub open spec fn turned(data: Seq<usize>) -> Seq<Gate> {
    data.map_values(|q: usize| Gate::H(q))
}

/// The measurement of check `i`.
pub open spec fn check_gates(
    p: PauliCorrection,
    data: Seq<usize>,
    ancillas: Seq<usize>,
    clbits: Seq<usize>,
    i: int,
) -> Seq<Gate> {
    if p == PauliCorrection::X {
        seq![
            Gate::Cx(data[i], ancillas[i]),
            Gate::Cx(data[i + 1], ancillas[i]),
            Gate::Measure(ancillas[i], clbits[i]),
        ]
    } else {
        seq![
            Gate::H(ancillas[i]),
            Gate::Cx(ancillas[i], data[i]),
            Gate::Cx(ancillas[i], data[i + 1]),
            Gate::H(ancillas[i]),
            Gate::Measure(ancillas[i], clbits[i]),
        ]
    }
}

/// The measurements of the first `n` checks.
pub open spec fn all_checks_gates(
    p: PauliCorrection,
    data: Seq<usize>,
    ancillas: Seq<usize>,
    clbits: Seq<usize>,
    n: nat,
) -> Seq<Gate>
    decreases n,
{
    if n == 0 {
        Seq::empty()
    } else {
        all_checks_gates(p, data, ancillas, clbits, (n - 1) as nat) + check_gates(
            p,
            data,
            ancillas,
            clbits,
            n - 1,
        )
    }
}

fn push_turned(circuit: &mut Circuit, data: &[usize])
    ensures
        appended(*old(circuit), *final(circuit), turned(data@)),
{
    let ghost before = circuit.gates@;
    let mut i: usize = 0;
    assert(circuit.gates@ =~= before + turned(data@.take(0)));
    while i < data.len()
        invariant
            0 <= i <= data.len(),
            circuit.num_qubits == old(circuit).num_qubits,
            circuit.num_clbits == old(circuit).num_clbits,
            circuit.gates@ == before + turned(data@.take(i as int)),
        decreases data.len() - i,
    {
        circuit.gates.push(Gate::H(data[i]));
        i = i + 1;
        assert(circuit.gates@ =~= before + turned(data@.take(i as int)));
    }
    assert(data@.take(i as int) =~= data@);
}

impl DecodableCode for RepetitionCode {
    open spec fn data_count(&self) -> nat {
        self.spec_distance() as nat
    }

    open spec fn syndrome_count(&self) -> nat {
        (self.spec_distance() - 1) as nat
    }

    open spec fn encoding(&self, data: Seq<usize>) -> Seq<Gate> {
        spread(data, data.len()) + (if self.spec_corrects() == PauliCorrection::Z {
            turned(data)
        } else {
            Seq::empty()
        })
    }

    open spec fn extraction(&self, data: Seq<usize>, ancillas: Seq<usize>, clbits: Seq<usize>) -> Seq<
        Gate,
    > {
        all_checks_gates(self.spec_corrects(), data, ancillas, clbits, clbits.len())
    }

    open spec fn decoding(&self, data: Seq<usize>) -> Seq<Gate> {
        (if self.spec_corrects() == PauliCorrection::Z {
            turned(data)
        } else {
            Seq::empty()
        }) + gather(data, 1)
    }

    open spec fn corrections(&self, syndrome: Seq<u8>) -> Seq<(usize, PauliCorrection)> {
        flipped_below(
            self.spec_distance() as int,
            syndrome,
            self.spec_distance() as nat,
            self.spec_corrects(),
        )
    }

    open spec fn name(&self) -> Seq<char> {
        "RepetitionCode"@
    }

    fn id(&self) -> (r: &'static str) {
        "RepetitionCode"
    }

    fn num_data_qubits(&self) -> (r: usize) {
        self.distance
    }

    fn num_syndrome_bits(&self) -> (r: usize) {
        proof {
            use_type_invariant(self);
        }
        self.distance - 1
    }

    fn encode(&self, circuit: &mut Circuit, data_qubits: &[usize]) {
        proof {
            use_type_invariant(self);
        }
        let ghost before = circuit.gates@;
        let ghost data = data_qubits@;
        let q0 = data_qubits[0];
        let mut i: usize = 1;
        assert(circuit.gates@ =~= before + spread(data, 1));
        while i < data_qubits.len()
            invariant
                1 <= i <= data_qubits.len(),
                data == data_qubits@,
                q0 == data[0],
                circuit.num_qubits == old(circuit).num_qubits,
                circuit.num_clbits == old(circuit).num_clbits,
                circuit.gates@ == before + spread(data, i as nat),
            decreases data_qubits.len() - i,
        {
            circuit.gates.push(Gate::Cx(q0, data_qubits[i]));
            i = i + 1;
            assert(circuit.gates@ =~= before + spread(data, i as nat));
        }
        if self.corrects == PauliCorrection::Z {
            push_turned(circuit, data_qubits);
        }
        assert(circuit.gates@ =~= before + self.encoding(data));
    }

    fn extract_syndrome(
        &self,
        circuit: &mut Circuit,
        data_qubits: &[usize],
        ancilla_qubits: &[usize],
        syndrome_clbits: &[usize],
    ) {
        proof {
            use_type_invariant(self);
        }
        let ghost before = circuit.gates@;
        let ghost (d, a, c) = (data_qubits@, ancilla_qubits@, syndrome_clbits@);
        let mut i: usize = 0;
        assert(circuit.gates@ =~= before + all_checks_gates(self.corrects, d, a, c, 0));
        while i < syndrome_clbits.len()
            invariant
                self.corrects != PauliCorrection::Y,
                d == data_qubits@,
                a == ancilla_qubits@,
                c == syndrome_clbits@,
                d.len() == c.len() + 1,
                a.len() == c.len(),
                0 <= i <= syndrome_clbits.len(),
                circuit.num_qubits == old(circuit).num_qubits,
                circuit.num_clbits == old(circuit).num_clbits,
                circuit.gates@ == before + all_checks_gates(self.corrects, d, a, c, i as nat),
            decreases syndrome_clbits.len() - i,
        {
            let (qi, qj, an) = (data_qubits[i], data_qubits[i + 1], ancilla_qubits[i]);
            if self.corrects == PauliCorrection::X {
                circuit.gates.push(Gate::Cx(qi, an));
                circuit.gates.push(Gate::Cx(qj, an));
            } else {
                circuit.gates.push(Gate::H(an));
                circuit.gates.push(Gate::Cx(an, qi));
                circuit.gates.push(Gate::Cx(an, qj));
                circuit.gates.push(Gate::H(an));
            }
            circuit.gates.push(Gate::Measure(an, syndrome_clbits[i]));
            i = i + 1;
            assert(circuit.gates@ =~= before + all_checks_gates(self.corrects, d, a, c, i as nat));
        }
    }

    fn decode(&self, circuit: &mut Circuit, data_qubits: &[usize]) {
        proof {
            use_type_invariant(self);
        }
        let ghost before = circuit.gates@;
        let ghost data = data_qubits@;
        if self.corrects == PauliCorrection::Z {
            push_turned(circuit, data_qubits);
        }
        let ghost middle = circuit.gates@;
        let q0 = data_qubits[0];
        let mut i: usize = data_qubits.len();
        assert(circuit.gates@ =~= middle + gather(data, data.len() as int));
        while i > 1
            invariant
                1 <= i <= data_qubits.len(),
                data == data_qubits@,
                q0 == data[0],
                circuit.num_qubits == old(circuit).num_qubits,
                circuit.num_clbits == old(circuit).num_clbits,
                circuit.gates@ == middle + gather(data, i as int),
            decreases i,
        {
            i = i - 1;
            circuit.gates.push(Gate::Cx(q0, data_qubits[i]));
            assert(circuit.gates@ =~= middle + gather(data, i as int));
        }
        assert(circuit.gates@ =~= before + self.decoding(data));
    }

    fn decode_syndrome(&self, syndrome: &[u8]) -> (r: Vec<(usize, PauliCorrection)>) {
        proof {
            use_type_invariant(self);
        }
        let d = self.distance;
        let mut fired: Vec<DecodingNode> = Vec::new();
        let mut i: usize = 0;
        while i < syndrome.len()
            invariant
                0 <= i <= syndrome.len(),
                fired@ == defects(syndrome@, i as nat),
            decreases syndrome.len() - i,
        {
            if syndrome[i] != 0 {
                fired.push(DecodingNode::Check(i));
            }
            i = i + 1;
        }
        let distance = |a: DecodingNode, b: DecodingNode| -> (w: Binary64)
            ensures
                w == node_distance(d as int, a, b),
            { graph_distance(d, a, b) };
        let pairs = minimum_weight_perfect_matching(fired.as_slice(), distance);
        assert(computes(distance, node_weights(d as int)));
        assert(pairs@ == best(fired@, node_weights(d as int)).1);
        let way = |a: DecodingNode, b: DecodingNode| -> (v: Vec<usize>)
            ensures
                v@ == path(d as int, a, b),
            { path_qubits(d, a, b) };
        let qubits = corrections_from_matching(pairs.as_slice(), way);
        proof {
            let paths = choose|paths: Seq<Seq<usize>>|
                {
                    &&& #[trigger] paths_for(way, pairs@, paths)
                    &&& forall|q: usize| #[trigger] qubits@.contains(q) <==> odd_in_all(paths, q)
                };
            assert(paths =~= pair_paths(d as int, pairs@)) by {
                assert forall|k: int| 0 <= k < pairs.len() implies paths[k] == pair_paths(
                    d as int,
                    pairs@,
                )[k] by {
                    assert(path_for(way, pairs@[k], paths[k]));
                }
            }
            crate::qec::guarantee::lemma_flips_in_range(d as int, syndrome@);
            assert(pairs@ == best(defects(syndrome@, syndrome@.len()), node_weights(d as int)).1);
            assert forall|q: usize| #[trigger] qubits@.contains(q) <==> q < d && flips(
                d as int,
                syndrome@,
                q,
            ) by {
                assert(flips(d as int, syndrome@, q) == odd_in_all(paths, q));
            }
            lemma_listed(d as int, syndrome@, d as nat, self.corrects, qubits@);
        }
        let mut out: Vec<(usize, PauliCorrection)> = Vec::new();
        let mut k: usize = 0;
        while k < qubits.len()
            invariant
                0 <= k <= qubits.len(),
                out.len() == k,
                forall|j: int| 0 <= j < k ==> #[trigger] out@[j] == (qubits@[j], self.corrects),
            decreases qubits.len() - k,
        {
            out.push((qubits[k], self.corrects));
            k = k + 1;
        }
        assert(out@ =~= self.corrections(syndrome@));
        out
    }
}

} // verus!
