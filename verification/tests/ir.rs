use qutub_transpiler::binary64::Binary64;
use qutub_transpiler::ir::{Circuit, Gate};

fn f(x: f64) -> Binary64 {
    Binary64::from_bits(x.to_bits())
}

#[test]
fn empty_circuit_is_valid() {
    let c = Circuit::new(3);
    assert!(c.validate().is_ok());
}

#[test]
fn well_formed_circuit_is_valid() {
    let mut c = Circuit::new(2);
    c.num_clbits = 2;
    c.push(Gate::H(0)).push(Gate::Cx(0, 1)).push(Gate::Measure(0, 0)).push(Gate::Measure(1, 1));
    assert!(c.validate().is_ok());
}

#[test]
fn rejects_qubit_index_out_of_range_on_a_single_qubit_gate() {
    let mut c = Circuit::new(2);
    c.push(Gate::H(5));
    assert!(c.validate().is_err());
}

#[test]
fn rejects_qubit_index_out_of_range_on_a_two_qubit_gate() {
    let mut c = Circuit::new(2);
    c.push(Gate::Cx(0, 9));
    assert!(c.validate().is_err());
}

#[test]
fn ir_rejects_clbit_index_out_of_range_for_measure() {
    let mut c = Circuit::new(2);
    c.num_clbits = 1;
    c.push(Gate::Measure(0, 7));
    assert!(c.validate().is_err());
}

#[test]
fn accepts_measure_with_in_range_clbit_even_if_num_clbits_was_never_set_explicitly() {
    let mut c = Circuit::new(1);
    c.push(Gate::Measure(0, 0));
    assert!(c.validate().is_err(), "num_clbits is still 0, clbit 0 is out of range");
}

#[test]
fn rejects_two_qubit_gate_with_identical_arguments() {
    let mut c = Circuit::new(2);
    c.push(Gate::Cx(0, 0));
    assert!(c.validate().is_err());
}

#[test]
fn rejects_swap_with_identical_arguments() {
    let mut c = Circuit::new(2);
    c.push(Gate::Swap(1, 1));
    assert!(c.validate().is_err());
}

#[test]
fn rejects_nan_angle() {
    let mut c = Circuit::new(1);
    c.push(Gate::Rz(0, f(f64::NAN)));
    assert!(c.validate().is_err());
}

#[test]
fn rejects_infinite_angle() {
    let mut c = Circuit::new(2);
    c.push(Gate::Rzz(0, 1, f(f64::INFINITY)));
    assert!(c.validate().is_err());
}

#[test]
fn rejects_infinite_cp_lambda() {
    let mut c = Circuit::new(2);
    c.push(Gate::Cp(0, 1, f(f64::NEG_INFINITY)));
    assert!(c.validate().is_err());
}

#[test]
fn accepts_zero_and_negative_finite_angles() {
    let mut c = Circuit::new(1);
    c.push(Gate::Rx(0, f(0.0))).push(Gate::Ry(0, f(-3.7)));
    assert!(c.validate().is_ok());
}

#[test]
fn error_message_identifies_the_offending_gate_index() {
    let mut c = Circuit::new(2);
    c.push(Gate::H(0)).push(Gate::H(1)).push(Gate::Cx(0, 12));
    let err = c.validate().unwrap_err();
    assert!(err.contains("gate 2"), "error should name the offending gate's index: {}", err);
}

#[test]
fn gate_qubits_matches_expected_arity() {
    assert_eq!(Gate::H(3).qubits(), vec![3]);
    assert_eq!(Gate::Measure(2, 0).qubits(), vec![2]);
    assert_eq!(Gate::Cx(0, 1).qubits(), vec![0, 1]);
    assert_eq!(Gate::Rzz(4, 5, f(0.1)).qubits(), vec![4, 5]);
}
