//! Quantum error correction.
use crate::ir::{Circuit, Gate};
use vstd::prelude::*;

pub mod bit_flip;
pub mod decoder;
pub mod frame;
pub mod guarantee;
pub mod matching_law;
pub mod phase_flip;
pub mod repetition;
pub mod repetition_law;
pub mod round;

verus! {

/// A correction of one qubit.
#[derive(Debug, Clone, Copy, PartialEq, Eq, Structural)]
pub enum PauliCorrection {
    X,
    Y,
    Z,
}

/// `after` is `before` with gates added at its end.
pub open spec fn appended(before: Circuit, after: Circuit, gates: Seq<Gate>) -> bool {
    &&& after.num_qubits == before.num_qubits
    &&& after.num_clbits == before.num_clbits
    &&& after.gates@ == before.gates@ + gates
}

/// A code whose corrections are gates that depend on the measured syndrome.
pub trait StabilizerCode {
    spec fn data_count(&self) -> nat;

    spec fn syndrome_count(&self) -> nat;

    spec fn encoding(&self, data: Seq<usize>) -> Seq<Gate>;

    spec fn extraction(&self, data: Seq<usize>, ancillas: Seq<usize>, clbits: Seq<usize>) -> Seq<Gate>;

    spec fn correction(&self, data: Seq<usize>, clbits: Seq<usize>) -> Seq<Gate>;

    spec fn decoding(&self, data: Seq<usize>) -> Seq<Gate>;

    spec fn name(&self) -> Seq<char>;

    fn id(&self) -> (r: &'static str)
        ensures
            r@ == self.name(),
    ;

    fn num_data_qubits(&self) -> (r: usize)
        ensures
            r == self.data_count(),
    ;

    fn num_syndrome_bits(&self) -> (r: usize)
        ensures
            r == self.syndrome_count(),
    ;

    /// Adds the gates that spread the state of the first data qubit over all.
    fn encode(&self, circuit: &mut Circuit, data_qubits: &[usize])
        requires
            data_qubits@.len() == self.data_count(),
        ensures
            appended(*old(circuit), *final(circuit), self.encoding(data_qubits@)),
    ;

    /// Adds the gates that measure the stabilizers through the ancillas into
    /// the classical bits.
    fn extract_syndrome(
        &self,
        circuit: &mut Circuit,
        data_qubits: &[usize],
        ancilla_qubits: &[usize],
        syndrome_clbits: &[usize],
    )
        requires
            data_qubits@.len() == self.data_count(),
            ancilla_qubits@.len() == self.syndrome_count(),
            syndrome_clbits@.len() == self.syndrome_count(),
        ensures
            appended(
                *old(circuit),
                *final(circuit),
                self.extraction(data_qubits@, ancilla_qubits@, syndrome_clbits@),
            ),
    ;

    /// Adds the corrections, each under the syndrome that calls for it.
    fn correct(&self, circuit: &mut Circuit, data_qubits: &[usize], syndrome_clbits: &[usize])
        requires
            data_qubits@.len() == self.data_count(),
            syndrome_clbits@.len() == self.syndrome_count(),
        ensures
            appended(
                *old(circuit),
                *final(circuit),
                self.correction(data_qubits@, syndrome_clbits@),
            ),
    ;

    /// Adds the gates that undo the encoding.
    fn decode(&self, circuit: &mut Circuit, data_qubits: &[usize])
        requires
            data_qubits@.len() == self.data_count(),
        ensures
            appended(*old(circuit), *final(circuit), self.decoding(data_qubits@)),
    ;
}

/// A code whose corrections are computed from the measured syndrome.
pub trait DecodableCode {
    spec fn data_count(&self) -> nat;

    spec fn syndrome_count(&self) -> nat;

    spec fn encoding(&self, data: Seq<usize>) -> Seq<Gate>;

    spec fn extraction(&self, data: Seq<usize>, ancillas: Seq<usize>, clbits: Seq<usize>) -> Seq<Gate>;

    spec fn decoding(&self, data: Seq<usize>) -> Seq<Gate>;

    spec fn corrections(&self, syndrome: Seq<u8>) -> Seq<(usize, PauliCorrection)>;

    spec fn name(&self) -> Seq<char>;

    fn id(&self) -> (r: &'static str)
        ensures
            r@ == self.name(),
    ;

    fn num_data_qubits(&self) -> (r: usize)
        ensures
            r == self.data_count(),
    ;

    fn num_syndrome_bits(&self) -> (r: usize)
        ensures
            r == self.syndrome_count(),
    ;

    fn encode(&self, circuit: &mut Circuit, data_qubits: &[usize])
        requires
            data_qubits@.len() == self.data_count(),
        ensures
            appended(*old(circuit), *final(circuit), self.encoding(data_qubits@)),
    ;

    fn extract_syndrome(
        &self,
        circuit: &mut Circuit,
        data_qubits: &[usize],
        ancilla_qubits: &[usize],
        syndrome_clbits: &[usize],
    )
        requires
            data_qubits@.len() == self.data_count(),
            ancilla_qubits@.len() == self.syndrome_count(),
            syndrome_clbits@.len() == self.syndrome_count(),
        ensures
            appended(
                *old(circuit),
                *final(circuit),
                self.extraction(data_qubits@, ancilla_qubits@, syndrome_clbits@),
            ),
    ;

    fn decode(&self, circuit: &mut Circuit, data_qubits: &[usize])
        requires
            data_qubits@.len() == self.data_count(),
        ensures
            appended(*old(circuit), *final(circuit), self.decoding(data_qubits@)),
    ;

    /// The corrections that a syndrome calls for.
    fn decode_syndrome(&self, syndrome: &[u8]) -> (r: Vec<(usize, PauliCorrection)>)
        requires
            syndrome@.len() == self.syndrome_count(),
        ensures
            r@ == self.corrections(syndrome@),
    ;
}

} // verus!
