use qutub_transpiler::binary64::Binary64;
use qutub_transpiler::ir::{Conditions, Gate};
use qutub_transpiler::qasm::parse;

fn f(x: f64) -> Binary64 {
    Binary64::from_bits(x.to_bits())
}

#[test]
fn parses_measure_statement() {
    let src = "OPENQASM 2.0;\nqreg q[2];\ncreg c[2];\nh q[0];\nmeasure q[0] -> c[0];\n";
    let circuit = parse(src).unwrap();
    assert_eq!(circuit.num_clbits, 2);
    assert_eq!(circuit.gates, vec![Gate::H(0), Gate::Measure(0, 0)]);
}

#[test]
fn rejects_qubit_index_out_of_range_for_measure() {
    let src = "OPENQASM 2.0;\nqreg q[2];\ncreg c[2];\nmeasure q[5] -> c[0];\n";
    assert!(parse(src).is_err());
}

#[test]
fn qasm_rejects_clbit_index_out_of_range_for_measure() {
    let src = "OPENQASM 2.0;\nqreg q[2];\ncreg c[2];\nmeasure q[0] -> c[9];\n";
    assert!(parse(src).is_err());
}

#[test]
fn rejects_measure_before_creg_declaration() {
    let src = "OPENQASM 2.0;\nqreg q[2];\nmeasure q[0] -> c[0];\n";
    assert!(parse(src).is_err());
}

#[test]
fn rejects_malformed_measure_missing_arrow() {
    let src = "OPENQASM 2.0;\nqreg q[2];\ncreg c[2];\nmeasure q[0] c[0];\n";
    assert!(parse(src).is_err());
}

#[test]
fn parses_qasm3_register_declarations_and_assignment_measure() {
    let src = "OPENQASM 3.0;\ninclude \"stdgates.inc\";\nqubit[2] q;\nbit[2] c;\nh q[0];\ncx q[0], q[1];\nc[0] = measure q[0];\nc[1] = measure q[1];\n";
    let circuit = parse(src).unwrap();
    assert_eq!(circuit.num_qubits, 2);
    assert_eq!(circuit.num_clbits, 2);
    assert_eq!(
        circuit.gates,
        vec![Gate::H(0), Gate::Cx(0, 1), Gate::Measure(0, 0), Gate::Measure(1, 1)]
    );
}

#[test]
fn parses_bracket_less_single_qubit_and_bit_declarations() {
    let src = "OPENQASM 3.0;\nqubit q;\nbit c;\nh q[0];\nc[0] = measure q[0];\n";
    let circuit = parse(src).unwrap();
    assert_eq!(circuit.num_qubits, 1);
    assert_eq!(circuit.num_clbits, 1);
    assert_eq!(circuit.gates, vec![Gate::H(0), Gate::Measure(0, 0)]);
}

#[test]
fn qasm2_input_is_unaffected_by_qasm3_support() {
    let src = "OPENQASM 2.0;\nqreg q[2];\ncreg c[2];\nh q[0];\nmeasure q[0] -> c[0];\n";
    let circuit = parse(src).unwrap();
    assert_eq!(circuit.num_clbits, 2);
    assert_eq!(circuit.gates, vec![Gate::H(0), Gate::Measure(0, 0)]);
}

#[test]
fn rejects_qubit_index_out_of_range_for_qasm3_measure() {
    let src = "OPENQASM 3.0;\nqubit[2] q;\nbit[2] c;\nc[0] = measure q[5];\n";
    assert!(parse(src).is_err());
}

#[test]
fn rejects_clbit_index_out_of_range_for_qasm3_measure() {
    let src = "OPENQASM 3.0;\nqubit[2] q;\nbit[2] c;\nc[9] = measure q[0];\n";
    assert!(parse(src).is_err());
}

#[test]
fn rejects_qasm3_measure_before_bit_declaration() {
    let src = "OPENQASM 3.0;\nqubit[2] q;\nc[0] = measure q[0];\n";
    assert!(parse(src).is_err());
}

#[test]
fn a_source_file_can_mix_qasm2_and_qasm3_spellings() {
    let src = "OPENQASM 3.0;\nqreg q[1];\nbit[1] c;\nh q[0];\nc[0] = measure q[0];\n";
    let circuit = parse(src).unwrap();
    assert_eq!(circuit.gates, vec![Gate::H(0), Gate::Measure(0, 0)]);
}

#[test]
fn gate_calls_are_unchanged_between_dialects() {
    let src = "OPENQASM 3.0;\nqubit[3] q;\nbit[3] c;\nh q[0];\nrz(0.5) q[1];\nrzz(1.2) q[0], q[2];\n";
    let circuit = parse(src).unwrap();
    assert_eq!(
        circuit.gates,
        vec![Gate::H(0), Gate::Rz(1, f(0.5)), Gate::Rzz(0, 2, f(1.2))]
    );
}

#[test]
fn parses_a_conditioned_gate() {
    let src = "OPENQASM 2.0;\nqreg q[2];\ncreg c[1];\nmeasure q[0] -> c[0];\nif (c[0]==1) x q[1];\n";
    let circuit = parse(src).unwrap();
    assert_eq!(
        circuit.gates,
        vec![Gate::Measure(0, 0), Gate::If(Conditions::bit(0, true), Box::new(Gate::X(1)))]
    );
}

#[test]
fn parses_a_conditioned_gate_with_a_parameter() {
    let src = "OPENQASM 2.0;\nqreg q[2];\ncreg c[1];\nif (c[0]==0) rz(0.5) q[1];\n";
    let circuit = parse(src).unwrap();
    assert_eq!(circuit.gates, vec![Gate::If(Conditions::bit(0, false), Box::new(Gate::Rz(1, f(0.5))))]);
}

#[test]
fn parses_a_conditioned_two_qubit_gate() {
    let src = "OPENQASM 2.0;\nqreg q[3];\ncreg c[1];\nif (c[0]==1) cx q[1], q[2];\n";
    let circuit = parse(src).unwrap();
    assert_eq!(circuit.gates, vec![Gate::If(Conditions::bit(0, true), Box::new(Gate::Cx(1, 2)))]);
}

#[test]
fn rejects_if_conditioning_a_measure() {
    let src = "OPENQASM 2.0;\nqreg q[2];\ncreg c[1];\nif (c[0]==1) measure q[1] -> c[0];\n";
    assert!(parse(src).is_err());
}

#[test]
fn rejects_nested_if() {
    let src = "OPENQASM 2.0;\nqreg q[2];\ncreg c[1];\nif (c[0]==1) if (c[0]==0) x q[1];\n";
    assert!(parse(src).is_err());
}

#[test]
fn rejects_if_condition_value_other_than_0_or_1() {
    let src = "OPENQASM 2.0;\nqreg q[2];\ncreg c[1];\nif (c[0]==2) x q[1];\n";
    assert!(parse(src).is_err());
}

#[test]
fn rejects_if_clbit_out_of_range() {
    let src = "OPENQASM 2.0;\nqreg q[2];\ncreg c[1];\nif (c[5]==1) x q[1];\n";
    assert!(parse(src).is_err());
}

#[test]
fn rejects_if_wrapping_a_qubit_out_of_range() {
    let src = "OPENQASM 2.0;\nqreg q[2];\ncreg c[1];\nif (c[0]==1) x q[9];\n";
    assert!(parse(src).is_err());
}

#[test]
fn rejects_malformed_if_missing_parens() {
    let src = "OPENQASM 2.0;\nqreg q[2];\ncreg c[1];\nif c[0]==1 x q[1];\n";
    assert!(parse(src).is_err());
}

#[test]
fn if_works_identically_under_qasm3_declarations() {
    let src = "OPENQASM 3.0;\nqubit[2] q;\nbit[1] c;\nif (c[0]==1) x q[1];\n";
    let circuit = parse(src).unwrap();
    assert_eq!(circuit.gates, vec![Gate::If(Conditions::bit(0, true), Box::new(Gate::X(1)))]);
}
