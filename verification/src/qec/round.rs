//! One round of error correction with a code whose corrections are computed
//! from the measured syndrome.
use crate::angle::{synthesizes, total, Euler, EulerOf, Turn};
use crate::emit::Operation;
use crate::ir::{Circuit, Gate};
use crate::ir_optimize::{optimize, optimized};
use crate::native::{all_native_gates, decompose, NativeCircuit};
use crate::qec::{DecodableCode, PauliCorrection};
use vstd::prelude::*;

verus! {

/// Numbers in a row.
pub open spec fn counting(from: nat, n: nat) -> Seq<usize> {
    Seq::new(n, |i: int| (from + i) as usize)
}

fn count_from(from: usize, n: usize) -> (r: Vec<usize>)
    requires
        from + n <= usize::MAX,
    ensures
        r@ == counting(from as nat, n as nat),
{
    let mut out: Vec<usize> = Vec::new();
    while out.len() < n
        invariant
            out.len() <= n,
            from + n <= usize::MAX,
            forall|i: int| 0 <= i < out.len() ==> #[trigger] out@[i] == from + i,
        decreases n - out.len(),
    {
        let next: usize = from + out.len();
        out.push(next);
    }
    assert(out@ =~= counting(from as nat, n as nat));
    out
}

/// The gates of an error, if there is one.
pub open spec fn injected_gates(error: Option<Gate>) -> Seq<Gate> {
    match error {
        Some(g) => seq![g],
        None => Seq::empty(),
    }
}

/// The gates up to the measured syndrome: the state of the first data qubit
/// is prepared and encoded, an error happens, the syndrome is measured. The
/// data qubits come first, then the ancillas.
pub open spec fn syndrome_gates<C: DecodableCode>(code: C, prep: Seq<Gate>, error: Option<Gate>) -> Seq<
    Gate,
> {
    let n = code.data_count();
    let s = code.syndrome_count();
    prep + code.encoding(counting(0, n)) + injected_gates(error) + code.extraction(
        counting(0, n),
        counting(n, s),
        counting(0, s),
    )
}

/// The first circuit of a round.
pub fn syndrome_circuit<C: DecodableCode>(code: &C, prep: &Vec<Gate>, error: &Option<Gate>) -> (r:
    Circuit)
    requires
        code.data_count() + code.syndrome_count() <= usize::MAX,
    ensures
        r.num_qubits == code.data_count() + code.syndrome_count(),
        r.num_clbits == code.syndrome_count(),
        r.gates@ == syndrome_gates(*code, prep@, *error),
{
    let n: usize = code.num_data_qubits();
    let s: usize = code.num_syndrome_bits();
    let data = count_from(0, n);
    let ancillas = count_from(n, s);
    let bits = count_from(0, s);
    let mut c = Circuit::new(n + s);
    c.num_clbits = s;
    let mut i: usize = 0;
    while i < prep.len()
        invariant
            i <= prep.len(),
            c.num_qubits == n + s,
            c.num_clbits == s,
            c.gates@ == prep@.take(i as int),
        decreases prep.len() - i,
    {
        c.gates.push(prep[i].copy());
        i = i + 1;
        assert(c.gates@ =~= prep@.take(i as int));
    }
    assert(c.gates@ =~= prep@);
    code.encode(&mut c, data.as_slice());
    let ghost encoded = c.gates@;
    if let Some(g) = error {
        c.gates.push(g.copy());
    }
    assert(c.gates@ =~= encoded + injected_gates(*error));
    code.extract_syndrome(&mut c, data.as_slice(), ancillas.as_slice(), bits.as_slice());
    c
}

/// The second circuit of a round, which undoes the encoding.
pub fn decoding_circuit<C: DecodableCode>(code: &C) -> (r: Circuit)
    requires
        code.data_count() + code.syndrome_count() <= usize::MAX,
    ensures
        r.num_qubits == code.data_count() + code.syndrome_count(),
        r.num_clbits == 0,
        r.gates@ == code.decoding(counting(0, code.data_count())),
{
    let n: usize = code.num_data_qubits();
    let s: usize = code.num_syndrome_bits();
    let data = count_from(0, n);
    let mut c = Circuit::new(n + s);
    code.decode(&mut c, data.as_slice());
    assert(c.gates@ =~= code.decoding(counting(0, code.data_count())));
    c
}

/// A circuit of a round as the register runs it: optimized, then in native
/// gates.
pub fn compiled<F: Fn(&Vec<Turn>) -> Euler>(circuit: &Circuit, euler: &F) -> (r: NativeCircuit)
    requires
        total(*euler),
    ensures
        r.num_qubits == circuit.num_qubits,
        r.num_clbits == circuit.num_clbits,
        forall|e: EulerOf| #[trigger]
            synthesizes(*euler, e) ==> r.gates@ == all_native_gates(
                optimized(circuit.gates@),
                optimized(circuit.gates@).len(),
                e,
            ),
{
    decompose(&optimize(circuit), euler)
}

/// The operation that a correction is.
pub open spec fn correcting(c: (usize, PauliCorrection)) -> Operation {
    match c.1 {
        PauliCorrection::X => Operation::X(c.0),
        PauliCorrection::Y => Operation::Y(c.0),
        PauliCorrection::Z => Operation::Z(c.0),
    }
}

/// What the register does between the two circuits.
pub fn correction_operations<C: DecodableCode>(code: &C, syndrome: &[u8]) -> (r: Vec<Operation>)
    requires
        syndrome@.len() == code.syndrome_count(),
    ensures
        r@ == code.corrections(syndrome@).map_values(|c: (usize, PauliCorrection)| correcting(c)),
{
    let corrections = code.decode_syndrome(syndrome);
    let mut out: Vec<Operation> = Vec::new();
    while out.len() < corrections.len()
        invariant
            corrections@ == code.corrections(syndrome@),
            out.len() <= corrections.len(),
            forall|i: int| 0 <= i < out.len() ==> #[trigger] out@[i] == correcting(corrections@[i]),
        decreases corrections.len() - out.len(),
    {
        let (q, c) = corrections[out.len()];
        out.push(
            match c {
                PauliCorrection::X => Operation::X(q),
                PauliCorrection::Y => Operation::Y(q),
                PauliCorrection::Z => Operation::Z(q),
            },
        );
    }
    assert(out@ =~= code.corrections(syndrome@).map_values(
        |c: (usize, PauliCorrection)| correcting(c),
    ));
    out
}

} // verus!
