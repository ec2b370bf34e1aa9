use qutub_transpiler::angle::{Euler, Turn};
use qutub_transpiler::backend::peephole::wrap_angle;
use qutub_transpiler::backend::{
    lower, lower_with_coupling, optimize, resynthesize, Backend, BackendCircuit, BackendGate,
    BackendSpec, RotAxis,
};
use qutub_transpiler::binary64::Binary64;
use qutub_transpiler::coupling::CouplingMap;
use qutub_transpiler::emit::{native_operation_without_bits, Operation};
use qutub_transpiler::fidelity::estimate_backend_circuit_fidelity;
use qutub_transpiler::ir::{Circuit, Gate};
use qutub_transpiler::native::{decompose, NativeCircuit};
use qutub_transpiler::optimize::optimize as native_optimize;
use rand::Rng;
use sirraya_qutub::QuantumRegister;
use std::f64::consts::FRAC_PI_2;

fn f(x: f64) -> Binary64 {
    Binary64::from_bits(x.to_bits())
}

fn value(x: Binary64) -> f64 {
    f64::from_bits(x.to_bits())
}

#[derive(Clone, Copy)]
struct C {
    re: f64,
    im: f64,
}

fn c(re: f64, im: f64) -> C {
    C { re, im }
}

fn polar(theta: f64) -> C {
    c(theta.cos(), theta.sin())
}

fn times(a: C, b: C) -> C {
    c(a.re * b.re - a.im * b.im, a.re * b.im + a.im * b.re)
}

fn plus(a: C, b: C) -> C {
    c(a.re + b.re, a.im + b.im)
}

fn modulus(a: C) -> f64 {
    (a.re * a.re + a.im * a.im).sqrt()
}

fn argument(a: C) -> f64 {
    a.im.atan2(a.re)
}

fn matrix(t: &Turn) -> [[C; 2]; 2] {
    let o = c(0.0, 0.0);
    let i = c(1.0, 0.0);
    match *t {
        Turn::H => {
            let s = 1.0 / std::f64::consts::SQRT_2;
            [[c(s, 0.0), c(s, 0.0)], [c(s, 0.0), c(-s, 0.0)]]
        }
        Turn::X => [[o, i], [i, o]],
        Turn::Y => [[o, c(0.0, -1.0)], [c(0.0, 1.0), o]],
        Turn::Z => [[i, o], [o, c(-1.0, 0.0)]],
        Turn::S => [[i, o], [o, c(0.0, 1.0)]],
        Turn::Sdg => [[i, o], [o, c(0.0, -1.0)]],
        Turn::T => [[i, o], [o, polar(std::f64::consts::FRAC_PI_4)]],
        Turn::Tdg => [[i, o], [o, polar(-std::f64::consts::FRAC_PI_4)]],
        Turn::Rx(a) => {
            let h = value(a) / 2.0;
            [[c(h.cos(), 0.0), c(0.0, -h.sin())], [c(0.0, -h.sin()), c(h.cos(), 0.0)]]
        }
        Turn::Ry(a) => {
            let h = value(a) / 2.0;
            [[c(h.cos(), 0.0), c(-h.sin(), 0.0)], [c(h.sin(), 0.0), c(h.cos(), 0.0)]]
        }
        Turn::Rz(a) => {
            let h = value(a) / 2.0;
            [[polar(-h), o], [o, polar(h)]]
        }
    }
}

/// Euler angles of a series of operations, by their matrices.
fn euler(turns: &Vec<Turn>) -> Euler {
    let mut m = matrix(&turns[0]);
    for t in &turns[1..] {
        let a = matrix(t);
        let mut p = m;
        for i in 0..2 {
            for j in 0..2 {
                p[i][j] = plus(times(a[i][0], m[0][j]), times(a[i][1], m[1][j]));
            }
        }
        m = p;
    }
    let x = times(m[0][0], m[1][1]);
    let y = times(m[0][1], m[1][0]);
    let g = polar(-argument(c(x.re - y.re, x.im - y.im)) / 2.0);
    let v00 = times(g, m[0][0]);
    let v01 = times(g, m[0][1]);
    let cos = modulus(v00);
    let sin = modulus(v01);
    let gamma = 2.0 * sin.atan2(cos);
    let plus_angle = -2.0 * argument(v00);
    let minus_angle = -2.0 * argument(times(v01, c(-1.0, 0.0)));
    let (delta, beta) = if cos < 1e-9 {
        (0.0, minus_angle)
    } else if sin < 1e-9 {
        (0.0, plus_angle)
    } else {
        (0.5 * (plus_angle - minus_angle), 0.5 * (plus_angle + minus_angle))
    };
    Euler { delta: f(delta), gamma: f(gamma), beta: f(beta) }
}

fn perform(reg: &mut QuantumRegister, op: Operation) -> Result<Option<u8>, String> {
    match op {
        Operation::X(q) => reg.apply_pauli_x(q)?,
        Operation::Y(q) => reg.apply_pauli_y(q)?,
        Operation::Z(q) => reg.apply_pauli_z(q)?,
        Operation::Rx(q, a) => reg.apply_rx(q, value(a))?,
        Operation::Ry(q, a) => reg.apply_ry(q, value(a))?,
        Operation::Rz(q, a) => reg.apply_rz(q, value(a))?,
        Operation::Rzz(a, b, t) => reg.apply_rzz(a, b, value(t))?,
        Operation::Cnot(a, b) => reg.apply_cnot(a, b)?,
        Operation::ControlledZ(a, b) => reg.apply_controlled_z(a, b)?,
        Operation::Measure(q, _) => return reg.measure_single_qubit(q).map(Some),
    }
    Ok(None)
}

fn apply_to(circuit: &NativeCircuit, reg: &mut QuantumRegister) -> Result<(), String> {
    for g in &circuit.gates {
        perform(reg, native_operation_without_bits(g)?)?;
    }
    Ok(())
}

/// Brings the qubits of a gate together along a shortest path, and back.
fn route(circuit: &Circuit, map: &CouplingMap) -> Circuit {
    let mut out = Circuit::new(circuit.num_qubits);
    out.num_clbits = circuit.num_clbits;
    for g in &circuit.gates {
        let w = g.qubits();
        if w.len() < 2 || map.is_adjacent(w[0], w[1]) {
            out.push(g.clone());
            continue;
        }
        let path = map.shortest_path(w[0], w[1]).unwrap();
        let near = path[path.len() - 2];
        let steps = path.len() - 2;
        for i in 0..steps {
            out.push(Gate::Swap(path[i], path[i + 1]));
        }
        out.push(moved(g, w[0], near));
        for i in (0..steps).rev() {
            out.push(Gate::Swap(path[i], path[i + 1]));
        }
    }
    out
}

fn moved(g: &Gate, from: usize, to: usize) -> Gate {
    let m = |q: usize| if q == from { to } else { q };
    match *g {
        Gate::Cx(a, b) => Gate::Cx(m(a), m(b)),
        Gate::Cz(a, b) => Gate::Cz(m(a), m(b)),
        Gate::Swap(a, b) => Gate::Swap(m(a), m(b)),
        Gate::Rxx(a, b, t) => Gate::Rxx(m(a), m(b), t),
        Gate::Ryy(a, b, t) => Gate::Ryy(m(a), m(b), t),
        Gate::Rzz(a, b, t) => Gate::Rzz(m(a), m(b), t),
        Gate::Cp(a, b, t) => Gate::Cp(m(a), m(b), t),
        _ => g.clone(),
    }
}

const TOL: f64 = 1e-9;

fn randomized_register(num_qubits: usize) -> QuantumRegister {
    let mut reg = QuantumRegister::new(num_qubits).unwrap();
    let mut rng = rand::thread_rng();
    for q in 0..num_qubits {
        reg.apply_rz(q, rng.gen_range(0.0..std::f64::consts::TAU)).unwrap();
        reg.apply_ry(q, rng.gen_range(0.0..std::f64::consts::TAU)).unwrap();
        reg.apply_rz(q, rng.gen_range(0.0..std::f64::consts::TAU)).unwrap();
    }
    reg
}

fn apply_backend_circuit(bc: &BackendCircuit, reg: &mut QuantumRegister) {
    for g in &bc.gates {
        match *g {
            BackendGate::Rz(q, a) => reg.apply_rz(q, value(a)).unwrap(),
            BackendGate::Rot(q, a) => match bc.backend.rot_axis() {
                RotAxis::Ry => reg.apply_ry(q, value(a)).unwrap(),
                RotAxis::Rx => reg.apply_rx(q, value(a)).unwrap(),
            },
            BackendGate::Cx(a, b) => reg.apply_cnot(a, b).unwrap(),
            BackendGate::Cz(a, b) => reg.apply_controlled_z(a, b).unwrap(),
            BackendGate::Rzz(a, b, t) => reg.apply_rzz(a, b, value(t)).unwrap(),
            BackendGate::Measure(..) | BackendGate::If(..) => panic!("no unitary action: {:?}", g),
        }
    }
}

fn check_backend_matches(circuit: &Circuit, backend: Backend) {
    let mut direct = randomized_register(circuit.num_qubits);
    let mut lowered_reg = direct.clone();

    let native = native_optimize(&decompose(circuit, &euler));
    apply_to(&native, &mut direct).unwrap();

    let bc = lower(circuit, backend, &route, &euler);
    apply_backend_circuit(&bc, &mut lowered_reg);

    let fidelity = direct.fidelity(&lowered_reg).unwrap();
    assert!(
        (fidelity - 1.0).abs() < TOL,
        "backend {:?}: fidelity {} (gates: {:?})",
        backend,
        fidelity,
        bc.gates
    );
}

fn sample_circuit() -> Circuit {
    let mut c = Circuit::new(3);
    c.push(Gate::H(0))
        .push(Gate::Cx(0, 1))
        .push(Gate::Rz(2, f(0.37)))
        .push(Gate::Cx(1, 2))
        .push(Gate::T(0))
        .push(Gate::Ryy(0, 2, f(0.91)))
        .push(Gate::Swap(1, 2))
        .push(Gate::Cp(0, 1, f(1.2)));
    c
}

#[test]
fn trapped_ion_matches_native_path() {
    check_backend_matches(&sample_circuit(), Backend::TrappedIon);
}

#[test]
fn ibmq_matches_native_path() {
    check_backend_matches(&sample_circuit(), Backend::IbmQ);
}

#[test]
fn rigetti_matches_native_path() {
    check_backend_matches(&sample_circuit(), Backend::Rigetti);
}

#[test]
fn lower_routes_distant_gates_onto_adjacent_qubits() {
    let mut c = Circuit::new(5);
    c.push(Gate::H(0))
        .push(Gate::Cx(0, 4))
        .push(Gate::Cp(1, 3, f(0.8)))
        .push(Gate::Ryy(2, 4, f(0.5)));

    for backend in [Backend::IbmQ, Backend::Rigetti] {
        let coupling = backend
            .coupling_map(c.num_qubits)
            .expect("IbmQ/Rigetti always have a coupling map");
        let bc = lower(&c, backend, &route, &euler);
        for g in &bc.gates {
            let pair = match *g {
                BackendGate::Cx(a, b) | BackendGate::Cz(a, b) => Some((a, b)),
                BackendGate::Rzz(a, b, _) => Some((a, b)),
                BackendGate::Rz(..) | BackendGate::Rot(..) => None,
                BackendGate::Measure(..) | BackendGate::If(..) => None,
            };
            if let Some((a, b)) = pair {
                assert!(
                    coupling.is_adjacent(a, b),
                    "backend {:?}: two-qubit gate {:?} not on adjacent qubits",
                    backend,
                    g
                );
            }
        }
        check_backend_matches(&c, backend);
    }
}

#[test]
fn lower_with_coupling_routes_against_the_given_map_not_the_synthetic_default() {
    let coupling = CouplingMap::from_edges(
        5,
        vec![(0, 1), (1, 2), (2, 4)],
    )
    .unwrap();

    let mut c = Circuit::new(5);
    c.push(Gate::H(0)).push(Gate::Cx(0, 4));

    let bc = lower_with_coupling(&c, Backend::IbmQ, Some(&coupling), &route, &euler);
    for g in &bc.gates {
        let pair = match *g {
            BackendGate::Cx(a, b) | BackendGate::Cz(a, b) => Some((a, b)),
            BackendGate::Rzz(a, b, _) => Some((a, b)),
            _ => None,
        };
        if let Some((a, b)) = pair {
            assert!(
                coupling.is_adjacent(a, b),
                "two-qubit gate {:?} not on an edge of the explicitly-given map",
                g
            );
        }
    }

    check_backend_matches(&c, Backend::IbmQ);
}

#[test]
fn lower_with_coupling_none_skips_routing() {
    let mut c = Circuit::new(3);
    c.push(Gate::H(0)).push(Gate::Cx(0, 2));

    let bc = lower_with_coupling(&c, Backend::IbmQ, None, &route, &euler);
    let (_, two_count) = bc.gate_counts();
    assert_eq!(
        two_count, 1,
        "no coupling map given -- Cx(0,2) should lower directly with no routing SWAPs: {:?}",
        bc.gates
    );
}

#[test]
fn lower_and_lower_with_coupling_agree_when_given_the_backends_own_default_map() {
    let c = sample_circuit();
    for backend in [Backend::IbmQ, Backend::Rigetti] {
        let default_map = backend.coupling_map(c.num_qubits);
        let via_lower = lower(&c, backend, &route, &euler);
        let via_explicit = lower_with_coupling(&c, backend, default_map.as_ref(), &route, &euler);
        assert_eq!(
            via_lower.gates, via_explicit.gates,
            "backend {:?}: lower() should just be lower_with_coupling() called with \
             the backend's own default map",
            backend
        );
    }
}

#[test]
fn measure_survives_lowering_on_every_backend() {
    for backend in [Backend::TrappedIon, Backend::IbmQ, Backend::Rigetti] {
        let mut c = Circuit::new(2);
        c.num_clbits = 1;
        c.push(Gate::H(0)).push(Gate::Measure(0, 0));
        let bc = lower(&c, backend, &route, &euler);
        assert_eq!(bc.num_clbits, 1, "backend {:?}: num_clbits must survive lowering", backend);
        assert!(
            matches!(bc.gates.last(), Some(BackendGate::Measure(0, 0))),
            "backend {:?}: Measure must survive lowering as the last gate, got {:?}",
            backend,
            bc.gates
        );
    }
}

#[test]
fn measure_is_not_counted_in_backend_gate_counts() {
    let mut c = Circuit::new(1);
    c.num_clbits = 1;
    c.push(Gate::Measure(0, 0));
    let bc = lower(&c, Backend::IbmQ, &route, &euler);
    assert_eq!(bc.gate_counts(), (0, 0), "Measure must not be priced as a unitary gate");
}

#[test]
fn resynthesize_flushes_pending_rotation_before_measure() {
    let mut bc = BackendCircuit::new(Backend::IbmQ, 1);
    bc.push(BackendGate::Rz(0, f(0.3)));
    bc.push(BackendGate::Rot(0, f(0.4)));
    bc.push(BackendGate::Measure(0, 0));
    resynthesize(&mut bc, &euler);
    assert!(
        matches!(bc.gates.last(), Some(BackendGate::Measure(0, 0))),
        "Measure must remain the last gate after resynthesize: {:?}",
        bc.gates
    );
    assert!(
        bc.gates.len() > 1,
        "the pending Rz/Rot must have been flushed onto qubit 0 before the Measure: {:?}",
        bc.gates
    );
}

#[test]
fn optimize_never_drops_or_reorders_measure() {
    let mut bc = BackendCircuit::new(Backend::IbmQ, 1);
    bc.push(BackendGate::Rz(0, f(0.0))); // would be dropped on its own
    bc.push(BackendGate::Measure(0, 0));
    optimize(&mut bc);
    assert_eq!(bc.gates, vec![BackendGate::Measure(0, 0)]);
}

#[test]
fn trapped_ion_lowering_is_unaffected_by_routing() {
    let mut c = Circuit::new(5);
    c.push(Gate::Cx(0, 4));
    assert!(Backend::TrappedIon.coupling_map(c.num_qubits).is_none());
    check_backend_matches(&c, Backend::TrappedIon);
}

#[test]
fn ibmq_rzz_costs_one_cx_pair() {
    let mut c = Circuit::new(2);
    c.push(Gate::Rzz(0, 1, f(0.5)));
    let bc = lower(&c, Backend::IbmQ, &route, &euler);
    let cx_count = bc.gates.iter().filter(|g| matches!(g, BackendGate::Cx(..))).count();
    assert_eq!(cx_count, 2, "Rzz should lower to exactly 2 Cx on IbmQ");
}

#[test]
fn rigetti_and_ibmq_use_the_same_two_qubit_gate_count_for_rzz() {
    let mut c = Circuit::new(2);
    c.push(Gate::Rzz(0, 1, f(0.5)));
    let (_, ibmq_two) = lower(&c, Backend::IbmQ, &route, &euler).gate_counts();
    let (_, rigetti_two) = lower(&c, Backend::Rigetti, &route, &euler).gate_counts();
    assert_eq!(
        ibmq_two, rigetti_two,
        "expected equal 2Q gate counts (2 Cx vs 2 Cz) for the same Rzz: {} vs {}",
        ibmq_two, rigetti_two
    );
}

#[test]
fn rigetti_rzz_costs_more_single_qubit_gates_than_ibmq() {
    let mut c = Circuit::new(2);
    c.push(Gate::Rzz(0, 1, f(0.5)));
    let (ibmq_single, _) = lower(&c, Backend::IbmQ, &route, &euler).gate_counts();
    let (rigetti_single, _) = lower(&c, Backend::Rigetti, &route, &euler).gate_counts();
    assert!(
        rigetti_single > ibmq_single,
        "Rigetti's Cx-via-Cz should need more single-qubit gates than IbmQ's native Cx: {} vs {}",
        rigetti_single,
        ibmq_single
    );
}

#[test]
fn h_rz_h_equals_rx_identity_holds_exactly() {
    let mut rng = rand::thread_rng();
    for _ in 0..8 {
        let theta: f64 = rng.gen_range(-std::f64::consts::TAU..std::f64::consts::TAU);

        let mut lhs = randomized_register(1);
        let mut rhs = lhs.clone();

        lhs.apply_hadamard(0).unwrap();
        lhs.apply_rz(0, theta).unwrap();
        lhs.apply_hadamard(0).unwrap();

        rhs.apply_rx(0, theta).unwrap();

        let fidelity = lhs.fidelity(&rhs).unwrap();
        assert!(
            (fidelity - 1.0).abs() < TOL,
            "H.Rz(theta).H should equal Rx(theta): fidelity {} at theta {}",
            fidelity,
            theta
        );
    }
}

#[test]
fn rigetti_rzz_uses_only_two_h_conjugations() {
    let mut c = Circuit::new(2);
    c.push(Gate::Rzz(0, 1, f(0.5)));
    let rigetti_single = lower(&c, Backend::Rigetti, &route, &euler).gate_counts().0;
    let one_h_cost = lower(&{
        let mut hc = Circuit::new(1);
        hc.push(Gate::H(0));
        hc
    }, Backend::Rigetti, &route, &euler).gate_counts().0;

    assert_eq!(
        rigetti_single,
        2 * one_h_cost + 1,
        "expected exactly 2 H-conjugations + 1 Rot(theta) for Rigetti's Rzz, got {} single-qubit gates (1 H costs {})",
        rigetti_single,
        one_h_cost
    );
}

#[test]
fn resynthesize_collapses_a_long_single_qubit_run_to_at_most_three_gates() {
    let mut c = Circuit::new(1);
    c.push(Gate::H(0)).push(Gate::T(0)).push(Gate::H(0));
    let bc = lower(&c, Backend::IbmQ, &route, &euler);
    assert!(
        bc.gates.len() <= 3,
        "a single-qubit run should resynthesize to at most 3 gates, got {}: {:?}",
        bc.gates.len(),
        bc.gates
    );
}

#[test]
fn resynthesize_matches_original_action_on_a_synthetic_multi_block_run() {
    let mut bc = BackendCircuit::new(Backend::IbmQ, 1);
    bc.push(BackendGate::Rot(0, f(FRAC_PI_2)));
    bc.push(BackendGate::Rz(0, f(0.6)));
    bc.push(BackendGate::Rot(0, f(-FRAC_PI_2)));
    bc.push(BackendGate::Rz(0, f(0.2)));
    bc.push(BackendGate::Rot(0, f(1.1)));
    bc.push(BackendGate::Rz(0, f(-0.4)));

    let mut direct = randomized_register(1);
    let mut resynth_reg = direct.clone();
    apply_backend_circuit(&bc, &mut direct);

    let mut resynthesized = bc.clone();
    resynthesize(&mut resynthesized, &euler);
    assert!(
        resynthesized.gates.len() <= 3,
        "expected the whole run to collapse to <= 3 gates, got {}: {:?}",
        resynthesized.gates.len(),
        resynthesized.gates
    );
    apply_backend_circuit(&resynthesized, &mut resynth_reg);

    let fidelity = direct.fidelity(&resynth_reg).unwrap();
    assert!(
        (fidelity - 1.0).abs() < TOL,
        "resynthesize changed the circuit's action: fidelity {} (result: {:?})",
        fidelity,
        resynthesized.gates
    );
}

#[test]
fn resynthesize_shrinks_the_sample_circuit_on_rigetti() {
    let c = sample_circuit();
    let bc = lower(&c, Backend::Rigetti, &route, &euler);
    let (single, two) = bc.gate_counts();
    assert!(
        single <= 3 * (two + c.num_qubits),
        "expected single-qubit count ({}) bounded by ~3 per 2Q-gate boundary \
         ({} two-qubit gates, {} qubits), got a much larger count -- \
         resynthesize may not be collapsing runs as expected: {:?}",
        single,
        two,
        c.num_qubits,
        bc.gates
    );
}

#[test]
fn optimize_merges_adjacent_same_axis_rotations() {
    let mut bc = BackendCircuit::new(Backend::IbmQ, 1);
    bc.push(BackendGate::Rz(0, f(0.3)));
    bc.push(BackendGate::Rz(0, f(0.4)));
    optimize(&mut bc);
    assert_eq!(bc.gates, vec![BackendGate::Rz(0, wrap_angle(f(0.7)))]);
}

#[test]
fn optimize_drops_rotations_that_cancel_to_identity() {
    let mut bc = BackendCircuit::new(Backend::IbmQ, 1);
    bc.push(BackendGate::Rz(0, f(1.2)));
    bc.push(BackendGate::Rz(0, f(-1.2)));
    optimize(&mut bc);
    assert!(
        bc.gates.is_empty(),
        "opposite Rz's should cancel entirely, got {:?}",
        bc.gates
    );
}

#[test]
fn optimize_floats_rz_through_diagonal_two_qubit_gates() {
    let mut bc = BackendCircuit::new(Backend::Rigetti, 2);
    bc.push(BackendGate::Rz(0, f(0.3)));
    bc.push(BackendGate::Cz(0, 1));
    bc.push(BackendGate::Rz(0, f(0.4)));
    optimize(&mut bc);
    assert_eq!(
        bc.gates,
        vec![BackendGate::Cz(0, 1), BackendGate::Rz(0, wrap_angle(f(0.7)))],
        "the two Rz(0)'s should fuse across the commuting Cz: {:?}",
        bc.gates
    );
}

#[test]
fn optimize_does_not_float_rz_through_cx_target_wire() {
    let mut bc = BackendCircuit::new(Backend::IbmQ, 2);
    bc.push(BackendGate::Rz(1, f(0.3)));
    bc.push(BackendGate::Cx(0, 1));
    bc.push(BackendGate::Rz(1, f(0.4)));
    optimize(&mut bc);
    assert_eq!(
        bc.gates,
        vec![
            BackendGate::Rz(1, f(0.3)),
            BackendGate::Cx(0, 1),
            BackendGate::Rz(1, f(0.4)),
        ],
        "Rz on Cx's target wire must not merge across the Cx: {:?}",
        bc.gates
    );
}

#[test]
fn optimize_floats_rz_through_cx_control_wire() {
    let mut bc = BackendCircuit::new(Backend::IbmQ, 2);
    bc.push(BackendGate::Rz(0, f(0.3)));
    bc.push(BackendGate::Cx(0, 1));
    bc.push(BackendGate::Rz(0, f(0.4)));
    optimize(&mut bc);
    assert_eq!(
        bc.gates,
        vec![BackendGate::Cx(0, 1), BackendGate::Rz(0, wrap_angle(f(0.7)))],
        "Rz on Cx's control wire should fuse across the Cx: {:?}",
        bc.gates
    );
}

#[test]
fn optimize_does_not_merge_rot_across_intervening_rz() {
    let mut bc = BackendCircuit::new(Backend::IbmQ, 1);
    bc.push(BackendGate::Rot(0, f(FRAC_PI_2)));
    bc.push(BackendGate::Rz(0, f(0.6)));
    bc.push(BackendGate::Rot(0, f(-FRAC_PI_2)));
    optimize(&mut bc);
    assert_eq!(
        bc.gates,
        vec![
            BackendGate::Rot(0, f(FRAC_PI_2)),
            BackendGate::Rz(0, f(0.6)),
            BackendGate::Rot(0, f(-FRAC_PI_2)),
        ],
        "Rot's either side of a real Rz must survive untouched: {:?}",
        bc.gates
    );
}

#[test]
fn optimize_cancels_adjacent_same_direction_cx() {
    let mut bc = BackendCircuit::new(Backend::IbmQ, 2);
    bc.push(BackendGate::Cx(0, 1));
    bc.push(BackendGate::Cx(0, 1));
    optimize(&mut bc);
    assert!(
        bc.gates.is_empty(),
        "Cx(0,1).Cx(0,1) == I, got {:?}",
        bc.gates
    );
}

#[test]
fn optimize_does_not_cancel_opposite_direction_cx() {
    let mut bc = BackendCircuit::new(Backend::IbmQ, 2);
    bc.push(BackendGate::Cx(0, 1));
    bc.push(BackendGate::Cx(1, 0));
    optimize(&mut bc);
    assert_eq!(bc.gates, vec![BackendGate::Cx(0, 1), BackendGate::Cx(1, 0)]);
}

#[test]
fn optimize_cancels_cx_pair_around_control_side_rz() {
    let mut bc = BackendCircuit::new(Backend::IbmQ, 2);
    bc.push(BackendGate::Cx(0, 1));
    bc.push(BackendGate::Rz(0, f(0.4)));
    bc.push(BackendGate::Cx(0, 1));
    optimize(&mut bc);
    assert_eq!(
        bc.gates,
        vec![BackendGate::Rz(0, f(0.4))],
        "Cx's should cancel around a control-side Rz, leaving just the Rz: {:?}",
        bc.gates
    );
}

#[test]
fn optimize_does_not_cancel_cx_pair_around_target_side_rz() {
    let mut bc = BackendCircuit::new(Backend::IbmQ, 2);
    bc.push(BackendGate::Cx(0, 1));
    bc.push(BackendGate::Rz(1, f(0.4)));
    bc.push(BackendGate::Cx(0, 1));
    optimize(&mut bc);
    assert_eq!(
        bc.gates,
        vec![
            BackendGate::Cx(0, 1),
            BackendGate::Rz(1, f(0.4)),
            BackendGate::Cx(0, 1),
        ],
        "Cx's must NOT cancel around a target-side Rz -- this sandwich is Rzz, not identity: {:?}",
        bc.gates
    );
}

#[test]
fn optimize_cancels_adjacent_cz() {
    let mut bc = BackendCircuit::new(Backend::Rigetti, 2);
    bc.push(BackendGate::Cz(0, 1));
    bc.push(BackendGate::Cz(0, 1));
    optimize(&mut bc);
    assert!(bc.gates.is_empty(), "Cz(0,1).Cz(0,1) == I, got {:?}", bc.gates);
}

#[test]
fn optimize_cancels_cz_pair_around_rz_on_either_wire() {
    let mut bc = BackendCircuit::new(Backend::Rigetti, 2);
    bc.push(BackendGate::Cz(0, 1));
    bc.push(BackendGate::Rz(1, f(0.4)));
    bc.push(BackendGate::Cz(0, 1));
    optimize(&mut bc);
    assert_eq!(
        bc.gates,
        vec![BackendGate::Rz(1, f(0.4))],
        "Cz's should cancel around an Rz on either wire: {:?}",
        bc.gates
    );
}

#[test]
fn optimize_fuses_adjacent_rzz_on_same_pair() {
    let mut bc = BackendCircuit::new(Backend::TrappedIon, 2);
    bc.push(BackendGate::Rzz(0, 1, f(0.3)));
    bc.push(BackendGate::Rzz(0, 1, f(0.5)));
    optimize(&mut bc);
    assert_eq!(bc.gates, vec![BackendGate::Rzz(0, 1, wrap_angle(f(0.8)))]);
}

#[test]
fn optimize_does_not_fuse_rzz_across_an_intervening_rot() {
    let mut bc = BackendCircuit::new(Backend::TrappedIon, 2);
    bc.push(BackendGate::Rzz(0, 1, f(0.3)));
    bc.push(BackendGate::Rot(0, f(0.1)));
    bc.push(BackendGate::Rzz(0, 1, f(0.5)));
    optimize(&mut bc);
    assert_eq!(
        bc.gates,
        vec![
            BackendGate::Rzz(0, 1, f(0.3)),
            BackendGate::Rot(0, f(0.1)),
            BackendGate::Rzz(0, 1, f(0.5)),
        ],
        "a real Rot between them must block fusion: {:?}",
        bc.gates
    );
}

#[test]
fn each_backend_calibration_gives_a_fidelity_estimate() {
    for backend in [Backend::TrappedIon, Backend::IbmQ, Backend::Rigetti] {
        let bc = lower(&sample_circuit(), backend, &route, &euler);
        let cal = backend.calibration();
        let power = |x: Binary64, n: i32| f(value(x).powi(n));
        let fidelity = value(estimate_backend_circuit_fidelity(&bc, &cal, &power));
        assert!(
            fidelity > 0.0 && fidelity <= 1.0,
            "backend {:?}: fidelity estimate {} out of range",
            backend,
            fidelity
        );
    }
}

#[test]
fn wrapped_angles_lie_above_minus_pi_and_up_to_pi() {
    let pi = std::f64::consts::PI;
    for x in [0.0, 1.0, pi, -pi, 3.2, -3.2, 2.0 * pi, -2.0 * pi, 100.0, -1e300, 7.5e15] {
        let w = f64::from_bits(
            qutub_transpiler::backend::peephole::wrap_angle(
                qutub_transpiler::binary64::Binary64::from_bits(f64::to_bits(x)),
            )
            .to_bits(),
        );
        assert!(-pi < w && w <= pi, "{x} became {w}");
    }
    let minus = qutub_transpiler::binary64::Binary64::from_bits((-pi).to_bits());
    assert_eq!(
        qutub_transpiler::backend::peephole::wrap_angle(minus).to_bits(),
        pi.to_bits()
    );
}

#[test]
fn a_deep_mirrored_circuit_cancels_layer_by_layer() {
    let mut c = Circuit::new(3);
    let depth = 1100;
    for k in 0..depth {
        c.push(if k % 2 == 0 { Gate::Cx(0, 1) } else { Gate::Cx(1, 2) });
    }
    for k in (0..depth).rev() {
        c.push(if k % 2 == 0 { Gate::Cx(0, 1) } else { Gate::Cx(1, 2) });
    }
    let bc = lower_with_coupling(&c, Backend::IbmQ, None, &route, &euler);
    assert!(bc.gates.is_empty(), "{} gates left", bc.gates.len());
}

#[test]
fn a_cx_is_one_two_qubit_gate_where_it_is_one_step_from_native() {
    let mut c = Circuit::new(3);
    c.push(Gate::H(0)).push(Gate::Cx(0, 2));
    let mut s = Circuit::new(2);
    s.push(Gate::Swap(0, 1));
    for backend in [Backend::IbmQ, Backend::Rigetti, Backend::Google] {
        assert!(backend.has_native_cx());
        let bc = lower_with_coupling(&c, backend, None, &route, &euler);
        assert_eq!(bc.gate_counts().1, 1, "{:?}: {:?}", backend, bc.gates);
        let swapped = lower_with_coupling(&s, backend, None, &route, &euler);
        assert_eq!(swapped.gate_counts().1, 3, "{:?}: {:?}", backend, swapped.gates);
    }
    assert!(!Backend::TrappedIon.has_native_cx());
}
