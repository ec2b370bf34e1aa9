//! The three-qubit bit-flip code.
use crate::ir::{Circuit, Conditions, Gate};
use crate::qec::StabilizerCode;
use vstd::prelude::*;

verus! {

/// Corrects one bit flip on any of three qubits.
pub struct ThreeQubitBitFlipCode;

/// The conditions that two classical bits have given values.
pub open spec fn both(c: usize, v: bool, d: usize, w: bool) -> Conditions {
    Conditions::When(c, v, Box::new(Conditions::When(d, w, Box::new(Conditions::Always))))
}

impl StabilizerCode for ThreeQubitBitFlipCode {
    open spec fn data_count(&self) -> nat {
        3
    }

    open spec fn syndrome_count(&self) -> nat {
        2
    }

    open spec fn encoding(&self, data: Seq<usize>) -> Seq<Gate> {
        seq![Gate::Cx(data[0], data[1]), Gate::Cx(data[0], data[2])]
    }

    /// The parities of the first two and of the last two data qubits.
    open spec fn extraction(&self, data: Seq<usize>, ancillas: Seq<usize>, clbits: Seq<usize>) -> Seq<
        Gate,
    > {
        seq![
            Gate::Cx(data[0], ancillas[0]),
            Gate::Cx(data[1], ancillas[0]),
            Gate::Cx(data[1], ancillas[1]),
            Gate::Cx(data[2], ancillas[1]),
            Gate::Measure(ancillas[0], clbits[0]),
            Gate::Measure(ancillas[1], clbits[1]),
        ]
    }

    open spec fn correction(&self, data: Seq<usize>, clbits: Seq<usize>) -> Seq<Gate> {
        seq![
            Gate::If(both(clbits[0], true, clbits[1], false), Box::new(Gate::X(data[0]))),
            Gate::If(both(clbits[0], true, clbits[1], true), Box::new(Gate::X(data[1]))),
            Gate::If(both(clbits[0], false, clbits[1], true), Box::new(Gate::X(data[2]))),
        ]
    }

    open spec fn decoding(&self, data: Seq<usize>) -> Seq<Gate> {
        seq![Gate::Cx(data[0], data[2]), Gate::Cx(data[0], data[1])]
    }

    open spec fn name(&self) -> Seq<char> {
        "ThreeQubitBitFlip"@
    }

    fn id(&self) -> (r: &'static str) {
        "ThreeQubitBitFlip"
    }

    fn num_data_qubits(&self) -> (r: usize) {
        3
    }

    fn num_syndrome_bits(&self) -> (r: usize) {
        2
    }

    fn encode(&self, circuit: &mut Circuit, data_qubits: &[usize]) {
        let ghost before = circuit.gates@;
        let (q0, q1, q2) = (data_qubits[0], data_qubits[1], data_qubits[2]);
        circuit.gates.push(Gate::Cx(q0, q1));
        circuit.gates.push(Gate::Cx(q0, q2));
        assert(circuit.gates@ =~= before + self.encoding(data_qubits@));
    }

    fn extract_syndrome(
        &self,
        circuit: &mut Circuit,
        data_qubits: &[usize],
        ancilla_qubits: &[usize],
        syndrome_clbits: &[usize],
    ) {
        let ghost before = circuit.gates@;
        let (q0, q1, q2) = (data_qubits[0], data_qubits[1], data_qubits[2]);
        let (a0, a1) = (ancilla_qubits[0], ancilla_qubits[1]);
        circuit.gates.push(Gate::Cx(q0, a0));
        circuit.gates.push(Gate::Cx(q1, a0));
        circuit.gates.push(Gate::Cx(q1, a1));
        circuit.gates.push(Gate::Cx(q2, a1));
        circuit.gates.push(Gate::Measure(a0, syndrome_clbits[0]));
        circuit.gates.push(Gate::Measure(a1, syndrome_clbits[1]));
        assert(circuit.gates@ =~= before + self.extraction(
            data_qubits@,
            ancilla_qubits@,
            syndrome_clbits@,
        ));
    }

    fn correct(&self, circuit: &mut Circuit, data_qubits: &[usize], syndrome_clbits: &[usize]) {
        let ghost before = circuit.gates@;
        let (q0, q1, q2) = (data_qubits[0], data_qubits[1], data_qubits[2]);
        let (s0, s1) = (syndrome_clbits[0], syndrome_clbits[1]);
        circuit.gates.push(Gate::If(Conditions::bits(s0, true, s1, false), Box::new(Gate::X(q0))));
        circuit.gates.push(Gate::If(Conditions::bits(s0, true, s1, true), Box::new(Gate::X(q1))));
        circuit.gates.push(Gate::If(Conditions::bits(s0, false, s1, true), Box::new(Gate::X(q2))));
        assert(circuit.gates@ =~= before + self.correction(data_qubits@, syndrome_clbits@));
    }

    fn decode(&self, circuit: &mut Circuit, data_qubits: &[usize]) {
        let ghost before = circuit.gates@;
        let (q0, q1, q2) = (data_qubits[0], data_qubits[1], data_qubits[2]);
        circuit.gates.push(Gate::Cx(q0, q2));
        circuit.gates.push(Gate::Cx(q0, q1));
        assert(circuit.gates@ =~= before + self.decoding(data_qubits@));
    }
}

} // verus!
