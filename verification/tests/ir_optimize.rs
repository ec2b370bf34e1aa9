use qutub_transpiler::binary64::Binary64;
use qutub_transpiler::ir::{Circuit, Conditions, Gate};
use qutub_transpiler::ir_optimize::optimize as optimize_ir;
use rand::Rng;
use sirraya_qutub::QuantumRegister;

fn f(x: f64) -> Binary64 {
    Binary64::from_bits(x.to_bits())
}

fn value(x: Binary64) -> f64 {
    f64::from_bits(x.to_bits())
}

const TOL: f64 = 1e-9;

fn randomized_register(num_qubits: usize) -> QuantumRegister {
    let mut reg = QuantumRegister::new(num_qubits).unwrap();
    let mut rng = rand::thread_rng();
    for q in 0..num_qubits {
        reg.apply_rz(q, rng.gen_range(0.0..std::f64::consts::TAU)).unwrap();
        reg.apply_ry(q, rng.gen_range(0.0..std::f64::consts::TAU)).unwrap();
        reg.apply_rz(q, rng.gen_range(0.0..std::f64::consts::TAU)).unwrap();
    }
    reg
}

fn apply_gate(reg: &mut QuantumRegister, g: &Gate) {
    match *g {
        Gate::H(q) => reg.apply_hadamard(q).unwrap(),
        Gate::X(q) => reg.apply_pauli_x(q).unwrap(),
        Gate::Y(q) => reg.apply_pauli_y(q).unwrap(),
        Gate::Z(q) => reg.apply_pauli_z(q).unwrap(),
        Gate::S(q) => reg.apply_s_gate(q).unwrap(),
        Gate::Sdg(q) => reg.apply_s_dag_gate(q).unwrap(),
        Gate::T(q) => reg.apply_t_gate(q).unwrap(),
        Gate::Tdg(q) => reg.apply_t_dag_gate(q).unwrap(),
        Gate::Rx(q, a) => reg.apply_rx(q, value(a)).unwrap(),
        Gate::Ry(q, a) => reg.apply_ry(q, value(a)).unwrap(),
        Gate::Rz(q, a) => reg.apply_rz(q, value(a)).unwrap(),
        Gate::Cx(c, t) => reg.apply_cnot(c, t).unwrap(),
        Gate::Cz(c, t) => reg.apply_controlled_z(c, t).unwrap(),
        Gate::Swap(a, b) => reg.apply_swap(a, b).unwrap(),
        Gate::Rxx(a, b, t) => reg.apply_rxx(a, b, value(t)).unwrap(),
        Gate::Ryy(a, b, t) => reg.apply_ryy(a, b, value(t)).unwrap(),
        Gate::Rzz(a, b, t) => reg.apply_rzz(a, b, value(t)).unwrap(),
        Gate::Cp(c, t, l) => reg.apply_controlled_phase(c, t, value(l)).unwrap(),
        Gate::Measure(..) | Gate::If(..) => panic!("no unitary action: {:?}", g),
    }
}

fn assert_same_action(circuit: &Circuit, optimized: &Circuit) {
    let mut direct = randomized_register(circuit.num_qubits);
    let mut opt_reg = direct.clone();
    for g in &circuit.gates {
        apply_gate(&mut direct, g);
    }
    for g in &optimized.gates {
        apply_gate(&mut opt_reg, g);
    }
    let fidelity = direct.fidelity(&opt_reg).unwrap();
    assert!(
        (fidelity - 1.0).abs() < TOL,
        "optimized circuit doesn't match: fidelity {} (optimized: {:?})",
        fidelity,
        optimized.gates
    );
}

#[test]
fn cancels_adjacent_cnot_pair() {
    let mut c = Circuit::new(2);
    c.push(Gate::H(0)).push(Gate::Cx(0, 1)).push(Gate::Cx(0, 1)).push(Gate::X(1));
    let opt = optimize_ir(&c);
    assert_eq!(opt.gates, vec![Gate::H(0), Gate::X(1)]);
}

#[test]
fn cancels_adjacent_swap_pair() {
    let mut c = Circuit::new(2);
    c.push(Gate::H(0)).push(Gate::Swap(0, 1)).push(Gate::Swap(1, 0));
    let opt = optimize_ir(&c);
    assert_eq!(opt.gates, vec![Gate::H(0)]);
}

#[test]
fn cancels_s_sdg_pair() {
    let mut c = Circuit::new(1);
    c.push(Gate::S(0)).push(Gate::Sdg(0));
    let opt = optimize_ir(&c);
    assert!(opt.gates.is_empty());
}

#[test]
fn commutes_past_disjoint_gate_to_cancel() {
    let mut c = Circuit::new(3);
    c.push(Gate::Cx(0, 1)).push(Gate::X(2)).push(Gate::Cx(0, 1));
    let opt = optimize_ir(&c);
    assert_eq!(opt.gates, vec![Gate::X(2)]);
    assert_same_action(&c, &opt);
}

#[test]
fn does_not_commute_past_overlapping_gate() {
    let mut c = Circuit::new(3);
    c.push(Gate::Cx(0, 1)).push(Gate::Cx(1, 2)).push(Gate::Cx(0, 1));
    let opt = optimize_ir(&c);
    assert_eq!(opt.gates.len(), 3, "no valid cancellation should have been found");
    assert_same_action(&c, &opt);
}

#[test]
fn chain_of_commutes_finds_distant_cancellation() {
    let mut c = Circuit::new(4);
    c.push(Gate::Cx(0, 1))
        .push(Gate::H(2))
        .push(Gate::X(3))
        .push(Gate::Rz(2, f(0.4)))
        .push(Gate::Cx(0, 1));
    let opt = optimize_ir(&c);
    assert_eq!(opt.gates.len(), 3, "the two CNOTs should have cancelled");
    assert_same_action(&c, &opt);
}

#[test]
fn never_reorders_measure_past_a_qubit_disjoint_gate() {
    let mut c = Circuit::new(2);
    c.push(Gate::Measure(0, 0)).push(Gate::X(1));
    let opt = optimize_ir(&c);
    assert_eq!(opt.gates, vec![Gate::Measure(0, 0), Gate::X(1)]);
}

#[test]
fn never_reorders_two_measures_writing_the_same_clbit() {
    let mut c = Circuit::new(2);
    c.push(Gate::Measure(0, 0)).push(Gate::Measure(1, 0));
    let opt = optimize_ir(&c);
    assert_eq!(opt.gates, vec![Gate::Measure(0, 0), Gate::Measure(1, 0)]);
}

#[test]
fn never_reorders_if_past_a_qubit_disjoint_gate() {
    let mut c = Circuit::new(3);
    c.num_clbits = 1;
    let if_gate = Gate::If(Conditions::bit(0, true), Box::new(Gate::X(1)));
    c.push(if_gate.clone()).push(Gate::X(2));
    let opt = optimize_ir(&c);
    assert_eq!(opt.gates, vec![if_gate, Gate::X(2)]);
}

#[test]
fn never_reorders_if_past_the_measure_it_depends_on() {
    let mut c = Circuit::new(2);
    c.num_clbits = 1;
    let measure = Gate::Measure(0, 0);
    let if_gate = Gate::If(Conditions::bit(0, true), Box::new(Gate::X(1)));
    c.push(measure.clone()).push(if_gate.clone());
    let opt = optimize_ir(&c);
    assert_eq!(opt.gates, vec![measure, if_gate]);
}

#[test]
fn commutes_rz_through_cx_control_wire_to_cancel() {
    let mut c = Circuit::new(2);
    c.push(Gate::Rz(0, f(0.4))).push(Gate::Cx(0, 1)).push(Gate::Rz(0, f(-0.4)));
    let opt = optimize_ir(&c);
    assert_eq!(opt.gates, vec![Gate::Cx(0, 1)]);
    assert_same_action(&c, &opt);
}

#[test]
fn does_not_commute_rz_through_cx_target_wire() {
    let mut c = Circuit::new(2);
    c.push(Gate::Rz(1, f(0.4))).push(Gate::Cx(0, 1)).push(Gate::Rz(1, f(-0.4)));
    let opt = optimize_ir(&c);
    assert_eq!(
        opt.gates.len(),
        3,
        "target-side Rz must not commute/cancel through Cx, got {:?}",
        opt.gates
    );
    assert_same_action(&c, &opt);
}

#[test]
fn commutes_x_through_cx_target_wire_to_cancel() {
    let mut c = Circuit::new(2);
    c.push(Gate::X(1)).push(Gate::Cx(0, 1)).push(Gate::X(1));
    let opt = optimize_ir(&c);
    assert_eq!(opt.gates, vec![Gate::Cx(0, 1)]);
    assert_same_action(&c, &opt);
}

#[test]
fn does_not_commute_x_through_cx_control_wire() {
    let mut c = Circuit::new(2);
    c.push(Gate::X(0)).push(Gate::Cx(0, 1)).push(Gate::X(0));
    let opt = optimize_ir(&c);
    assert_eq!(
        opt.gates.len(),
        3,
        "control-side X must not commute/cancel through Cx, got {:?}",
        opt.gates
    );
    assert_same_action(&c, &opt);
}

#[test]
fn control_side_rz_floats_through_cx_and_a_disjoint_gate_to_cancel() {
    let mut c = Circuit::new(3);
    c.push(Gate::Rz(0, f(0.4)))
        .push(Gate::Cx(0, 1))
        .push(Gate::X(2))
        .push(Gate::Rz(0, f(-0.4)));
    let opt = optimize_ir(&c);
    assert_eq!(opt.gates.len(), 2, "the two Rz's should have cancelled, got {:?}", opt.gates);
    assert_same_action(&c, &opt);
}

#[test]
fn commutes_rz_through_cz_either_wire_to_cancel() {
    let mut c = Circuit::new(2);
    c.push(Gate::Rz(1, f(0.4))).push(Gate::Cz(0, 1)).push(Gate::Rz(1, f(-0.4)));
    let opt = optimize_ir(&c);
    assert_eq!(opt.gates, vec![Gate::Cz(0, 1)]);
    assert_same_action(&c, &opt);
}

#[test]
fn commutes_s_and_tdg_through_cz_on_the_other_wire_to_cancel() {
    let mut c = Circuit::new(2);
    c.push(Gate::S(0)).push(Gate::Cz(0, 1)).push(Gate::Sdg(0));
    let opt = optimize_ir(&c);
    assert_eq!(opt.gates, vec![Gate::Cz(0, 1)]);
    assert_same_action(&c, &opt);
}

#[test]
fn does_not_commute_non_diagonal_gate_through_cz() {
    let mut c = Circuit::new(2);
    c.push(Gate::X(1)).push(Gate::Cz(0, 1)).push(Gate::X(1));
    let opt = optimize_ir(&c);
    assert_eq!(
        opt.gates.len(),
        3,
        "non-diagonal X must not commute/cancel through Cz, got {:?}",
        opt.gates
    );
    assert_same_action(&c, &opt);
}

#[test]
fn diagonal_gate_floats_through_cz_and_a_disjoint_gate_to_cancel() {
    let mut c = Circuit::new(3);
    c.push(Gate::Rz(1, f(0.4)))
        .push(Gate::Cz(0, 1))
        .push(Gate::X(2))
        .push(Gate::Rz(1, f(-0.4)));
    let opt = optimize_ir(&c);
    assert_eq!(opt.gates.len(), 2, "the two Rz's should have cancelled, got {:?}", opt.gates);
    assert_same_action(&c, &opt);
}

#[test]
fn preserves_action_on_a_denser_mixed_circuit() {
    let mut c = Circuit::new(3);
    c.push(Gate::H(0))
        .push(Gate::Cx(0, 1))
        .push(Gate::T(2))
        .push(Gate::Cx(0, 1))
        .push(Gate::Swap(1, 2))
        .push(Gate::Swap(2, 1))
        .push(Gate::Rz(0, f(0.3)))
        .push(Gate::Rz(0, f(-0.3)))
        .push(Gate::Cz(0, 2))
        .push(Gate::Y(1));
    let opt = optimize_ir(&c);
    assert!(
        opt.gates.len() < c.gates.len(),
        "expected some cancellation, got {} -> {} gates",
        c.gates.len(),
        opt.gates.len()
    );
    assert_same_action(&c, &opt);
}

#[test]
fn does_not_commute_diagonal_gate_through_cx_target_wire() {
    let mut c = Circuit::new(2);
    c.push(Gate::S(1)).push(Gate::Cx(0, 1)).push(Gate::Sdg(1));
    let opt = optimize_ir(&c);
    assert_eq!(
        opt.gates.len(),
        3,
        "target-side diagonal gate must not commute/cancel through Cx, got {:?}",
        opt.gates
    );
    assert_same_action(&c, &opt);
}

#[test]
fn does_not_commute_rx_through_cx_control_wire() {
    let mut c = Circuit::new(2);
    c.push(Gate::Rx(0, f(0.4))).push(Gate::Cx(0, 1)).push(Gate::Rx(0, f(-0.4)));
    let opt = optimize_ir(&c);
    assert_eq!(
        opt.gates.len(),
        3,
        "control-side X-basis gate must not commute/cancel through Cx, got {:?}",
        opt.gates
    );
    assert_same_action(&c, &opt);
}

#[test]
fn commutes_rx_through_cx_target_wire_to_cancel() {
    let mut c = Circuit::new(2);
    c.push(Gate::Rx(1, f(0.5))).push(Gate::Cx(0, 1)).push(Gate::Rx(1, f(-0.5)));
    let opt = optimize_ir(&c);
    assert_eq!(opt.gates, vec![Gate::Cx(0, 1)]);
    assert_same_action(&c, &opt);
}

#[test]
fn commutes_z_through_cx_control_wire_to_cancel() {
    let mut c = Circuit::new(2);
    c.push(Gate::Z(0)).push(Gate::Cx(0, 1)).push(Gate::Z(0));
    let opt = optimize_ir(&c);
    assert_eq!(opt.gates, vec![Gate::Cx(0, 1)]);
    assert_same_action(&c, &opt);
}

#[test]
fn merges_adjacent_rz_rotations() {
    let mut c = Circuit::new(1);
    c.push(Gate::Rz(0, f(0.2))).push(Gate::Rz(0, f(0.3)));
    let opt = optimize_ir(&c);
    assert_eq!(opt.gates.len(), 1);
    if let Gate::Rz(_, angle) = opt.gates[0] {
        assert!((value(angle) - 0.5).abs() < 1e-12);
    } else {
        panic!("Expected Rz gate");
    }
    assert_same_action(&c, &opt);
}

#[test]
fn a_second_run_may_exchange_gates_that_commute() {
    let mut c = Circuit::new(2);
    c.push(Gate::H(0));
    c.push(Gate::H(1));
    let once = optimize_ir(&c);
    assert_eq!(once.gates, vec![Gate::H(1), Gate::H(0)]);
    assert_eq!(optimize_ir(&once).gates, vec![Gate::H(0), Gate::H(1)]);
}

#[test]
fn no_neighbors_that_cancel_or_merge_are_left() {
    let mut c = Circuit::new(2);
    c.push(Gate::H(0));
    c.push(Gate::X(1));
    c.push(Gate::X(1));
    c.push(Gate::H(0));
    c.push(Gate::T(0));
    assert_eq!(optimize_ir(&c).gates, vec![Gate::T(0)]);
}
