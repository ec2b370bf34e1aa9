use qutub_transpiler::angle::{Euler, Turn};
use qutub_transpiler::binary64::Binary64;
use qutub_transpiler::emit::{Execution, Operation};
use qutub_transpiler::ir::{Circuit, Gate};
use qutub_transpiler::ir_optimize::optimize;
use qutub_transpiler::native::{decompose, NativeCircuit};
use qutub_transpiler::qec::StabilizerCode;
use qutub_transpiler::qec::bit_flip::ThreeQubitBitFlipCode;
use qutub_transpiler::qec::phase_flip::ThreeQubitPhaseFlipCode;
use sirraya_qutub::{DensityMatrix, QuantumRegister};

fn f(x: f64) -> Binary64 {
    Binary64::from_bits(x.to_bits())
}

fn value(x: Binary64) -> f64 {
    f64::from_bits(x.to_bits())
}

#[derive(Clone, Copy)]
struct C {
    re: f64,
    im: f64,
}

fn c(re: f64, im: f64) -> C {
    C { re, im }
}

fn polar(theta: f64) -> C {
    c(theta.cos(), theta.sin())
}

fn times(a: C, b: C) -> C {
    c(a.re * b.re - a.im * b.im, a.re * b.im + a.im * b.re)
}

fn plus(a: C, b: C) -> C {
    c(a.re + b.re, a.im + b.im)
}

fn modulus(a: C) -> f64 {
    (a.re * a.re + a.im * a.im).sqrt()
}

fn argument(a: C) -> f64 {
    a.im.atan2(a.re)
}

fn matrix(t: &Turn) -> [[C; 2]; 2] {
    let o = c(0.0, 0.0);
    let i = c(1.0, 0.0);
    match *t {
        Turn::H => {
            let s = 1.0 / std::f64::consts::SQRT_2;
            [[c(s, 0.0), c(s, 0.0)], [c(s, 0.0), c(-s, 0.0)]]
        }
        Turn::X => [[o, i], [i, o]],
        Turn::Y => [[o, c(0.0, -1.0)], [c(0.0, 1.0), o]],
        Turn::Z => [[i, o], [o, c(-1.0, 0.0)]],
        Turn::S => [[i, o], [o, c(0.0, 1.0)]],
        Turn::Sdg => [[i, o], [o, c(0.0, -1.0)]],
        Turn::T => [[i, o], [o, polar(std::f64::consts::FRAC_PI_4)]],
        Turn::Tdg => [[i, o], [o, polar(-std::f64::consts::FRAC_PI_4)]],
        Turn::Rx(a) => {
            let h = value(a) / 2.0;
            [[c(h.cos(), 0.0), c(0.0, -h.sin())], [c(0.0, -h.sin()), c(h.cos(), 0.0)]]
        }
        Turn::Ry(a) => {
            let h = value(a) / 2.0;
            [[c(h.cos(), 0.0), c(-h.sin(), 0.0)], [c(h.sin(), 0.0), c(h.cos(), 0.0)]]
        }
        Turn::Rz(a) => {
            let h = value(a) / 2.0;
            [[polar(-h), o], [o, polar(h)]]
        }
    }
}

/// Euler angles of a series of operations, by their matrices.
fn euler(turns: &Vec<Turn>) -> Euler {
    let mut m = matrix(&turns[0]);
    for t in &turns[1..] {
        let a = matrix(t);
        let mut p = m;
        for i in 0..2 {
            for j in 0..2 {
                p[i][j] = plus(times(a[i][0], m[0][j]), times(a[i][1], m[1][j]));
            }
        }
        m = p;
    }
    let x = times(m[0][0], m[1][1]);
    let y = times(m[0][1], m[1][0]);
    let g = polar(-argument(c(x.re - y.re, x.im - y.im)) / 2.0);
    let v00 = times(g, m[0][0]);
    let v01 = times(g, m[0][1]);
    let cos = modulus(v00);
    let sin = modulus(v01);
    let gamma = 2.0 * sin.atan2(cos);
    let plus_angle = -2.0 * argument(v00);
    let minus_angle = -2.0 * argument(times(v01, c(-1.0, 0.0)));
    let (delta, beta) = if cos < 1e-9 {
        (0.0, minus_angle)
    } else if sin < 1e-9 {
        (0.0, plus_angle)
    } else {
        (0.5 * (plus_angle - minus_angle), 0.5 * (plus_angle + minus_angle))
    };
    Euler { delta: f(delta), gamma: f(gamma), beta: f(beta) }
}

fn perform(reg: &mut QuantumRegister, op: Operation) -> Result<Option<u8>, String> {
    match op {
        Operation::X(q) => reg.apply_pauli_x(q)?,
        Operation::Y(q) => reg.apply_pauli_y(q)?,
        Operation::Z(q) => reg.apply_pauli_z(q)?,
        Operation::Rx(q, a) => reg.apply_rx(q, value(a))?,
        Operation::Ry(q, a) => reg.apply_ry(q, value(a))?,
        Operation::Rz(q, a) => reg.apply_rz(q, value(a))?,
        Operation::Rzz(a, b, t) => reg.apply_rzz(a, b, value(t))?,
        Operation::Cnot(a, b) => reg.apply_cnot(a, b)?,
        Operation::ControlledZ(a, b) => reg.apply_controlled_z(a, b)?,
        Operation::Measure(q, _) => return reg.measure_single_qubit(q).map(Some),
    }
    Ok(None)
}


fn run_with_measurement(circuit: &NativeCircuit) -> Result<(QuantumRegister, Vec<u8>), String> {
    let mut reg = QuantumRegister::new(circuit.num_qubits)?;
    let mut run = Execution::new(circuit.num_clbits);
    while let Some(op) = run.next(circuit)? {
        if let Operation::Measure(_, c) = op {
            let outcome = perform(&mut reg, op)?.unwrap();
            run.record(c, outcome)?;
        } else {
            perform(&mut reg, op)?;
        }
    }
    Ok((reg, run.clbits))
}

fn run_one_round(
    code: &impl StabilizerCode,
    prep: impl Fn(&mut Circuit, usize),
    injected_error: Option<Gate>,
) -> DensityMatrix {
    let n = code.num_data_qubits();
    let s = code.num_syndrome_bits();
    let mut c = Circuit::new(n + s);
    c.num_clbits = s;

    let data_qubits: Vec<usize> = (0..n).collect();
    let ancilla_qubits: Vec<usize> = (n..n + s).collect();
    let syndrome_clbits: Vec<usize> = (0..s).collect();

    prep(&mut c, data_qubits[0]);
    code.encode(&mut c, &data_qubits);
    if let Some(g) = injected_error {
        c.push(g);
    }
    code.extract_syndrome(&mut c, &data_qubits, &ancilla_qubits, &syndrome_clbits);
    code.correct(&mut c, &data_qubits, &syndrome_clbits);
    code.decode(&mut c, &data_qubits);

    let optimized = optimize(&c);
    let native = decompose(&optimized, &euler);
    let (reg, _clbits) = run_with_measurement(&native).unwrap();
    reg.to_density_matrix()
        .unwrap()
        .partial_trace(&[data_qubits[0]])
        .unwrap()
}

fn plus_state_target() -> DensityMatrix {
    let mut reg = QuantumRegister::new(1).unwrap();
    reg.apply_hadamard(0).unwrap();
    reg.to_density_matrix().unwrap()
}

fn arbitrary_state_prep(c: &mut Circuit, q: usize) {
    c.push(Gate::Rz(q, f(1.3)));
    c.push(Gate::Ry(q, f(0.7)));
}

fn arbitrary_state_target() -> DensityMatrix {
    let mut reg = QuantumRegister::new(1).unwrap();
    reg.apply_rz(0, 1.3).unwrap();
    reg.apply_ry(0, 0.7).unwrap();
    reg.to_density_matrix().unwrap()
}

#[test]
fn bit_flip_code_corrects_any_single_x_error() {
    let code = ThreeQubitBitFlipCode;
    for (prep, target) in [
        (
            arbitrary_state_prep as fn(&mut Circuit, usize),
            arbitrary_state_target(),
        ),
        (
            |c: &mut Circuit, q: usize| {
                c.push(Gate::H(q));
            },
            plus_state_target(),
        ),
    ] {
        for injected in [None, Some(Gate::X(0)), Some(Gate::X(1)), Some(Gate::X(2))] {
            let recovered = run_one_round(&code, prep, injected.clone());
            let fidelity = recovered.fidelity(&target).unwrap();
            assert!(
                (fidelity - 1.0).abs() < 1e-9,
                "bit-flip code, injected error {:?}: expected ~100% recovery fidelity, got {}",
                injected,
                fidelity
            );
        }
    }
}

#[test]
fn phase_flip_code_corrects_any_single_z_error() {
    let code = ThreeQubitPhaseFlipCode;
    for (prep, target) in [
        (
            arbitrary_state_prep as fn(&mut Circuit, usize),
            arbitrary_state_target(),
        ),
        (
            |c: &mut Circuit, q: usize| {
                c.push(Gate::H(q));
            },
            plus_state_target(),
        ),
    ] {
        for injected in [None, Some(Gate::Z(0)), Some(Gate::Z(1)), Some(Gate::Z(2))] {
            let recovered = run_one_round(&code, prep, injected.clone());
            let fidelity = recovered.fidelity(&target).unwrap();
            assert!(
                (fidelity - 1.0).abs() < 1e-9,
                "phase-flip code, injected error {:?}: expected ~100% recovery fidelity, got {}",
                injected, fidelity
            );
        }
    }
}

#[test]
fn bit_flip_code_does_not_correct_a_z_error_it_is_the_logical_z() {
    let code = ThreeQubitBitFlipCode;
    let target = arbitrary_state_target();
    let recovered = run_one_round(&code, arbitrary_state_prep, Some(Gate::Z(1)));

    let expected_logical_z: DensityMatrix = {
        let mut reg = QuantumRegister::new(1).unwrap();
        reg.apply_rz(0, 1.3).unwrap();
        reg.apply_ry(0, 0.7).unwrap();
        reg.apply_pauli_z(0).unwrap();
        reg.to_density_matrix().unwrap()
    };
    let expected_fidelity_vs_original = expected_logical_z.fidelity(&target).unwrap();
    assert!(
        expected_fidelity_vs_original < 0.99,
        "test setup: the chosen state's logical-Z fidelity against itself should not be \
         ~1.0, got {} -- pick a different arbitrary_state_prep angle",
        expected_fidelity_vs_original
    );

    let actual_fidelity_vs_logical_z = recovered.fidelity(&expected_logical_z).unwrap();
    assert!(
        (actual_fidelity_vs_logical_z - 1.0).abs() < 1e-9,
        "expected a single Z error on this code to act as exactly the logical Z operator \
         (fidelity {} against the predicted Z-flipped state, expected ~1.0) -- got fidelity \
         {} against the original, un-Z'd target instead",
        actual_fidelity_vs_logical_z,
        recovered.fidelity(&target).unwrap()
    );
}

#[test]
fn phase_flip_code_does_not_correct_an_x_error_it_is_the_logical_z() {
    let code = ThreeQubitPhaseFlipCode;
    let target = arbitrary_state_target();
    let recovered = run_one_round(&code, arbitrary_state_prep, Some(Gate::X(1)));

    let expected_logical_z: DensityMatrix = {
        let mut reg = QuantumRegister::new(1).unwrap();
        reg.apply_rz(0, 1.3).unwrap();
        reg.apply_ry(0, 0.7).unwrap();
        reg.apply_pauli_z(0).unwrap();
        reg.to_density_matrix().unwrap()
    };
    let expected_fidelity_vs_original = expected_logical_z.fidelity(&target).unwrap();
    assert!(
        expected_fidelity_vs_original < 0.99,
        "test setup: the chosen state's logical-Z fidelity against itself should not be \
         ~1.0, got {} -- pick a different arbitrary_state_prep angle",
        expected_fidelity_vs_original
    );

    let actual_fidelity_vs_logical_z = recovered.fidelity(&expected_logical_z).unwrap();
    assert!(
        (actual_fidelity_vs_logical_z - 1.0).abs() < 1e-9,
        "expected a single X error on this code to act as exactly the logical Z operator \
         (fidelity {} against the predicted Z-flipped state, expected ~1.0) -- got fidelity \
         {} against the original, un-Z'd target instead",
        actual_fidelity_vs_logical_z,
        recovered.fidelity(&target).unwrap()
    );
}

#[test]
fn bit_flip_code_miscorrects_two_simultaneous_errors_as_a_logical_x_flip() {
    let code = ThreeQubitBitFlipCode;
    let target = arbitrary_state_target();

    let mut c = Circuit::new(5);
    c.num_clbits = 2;
    arbitrary_state_prep(&mut c, 0);
    code.encode(&mut c, &[0, 1, 2]);
    c.push(Gate::X(0));
    c.push(Gate::X(1));
    code.extract_syndrome(&mut c, &[0, 1, 2], &[3, 4], &[0, 1]);
    code.correct(&mut c, &[0, 1, 2], &[0, 1]);
    code.decode(&mut c, &[0, 1, 2]);

    let optimized = optimize(&c);
    let native = decompose(&optimized, &euler);
    let (reg, _clbits) = run_with_measurement(&native).unwrap();
    let recovered = reg
        .to_density_matrix()
        .unwrap()
        .partial_trace(&[0])
        .unwrap();

    let expected_logical_x_flip: DensityMatrix = {
        let mut reg = QuantumRegister::new(1).unwrap();
        reg.apply_rz(0, 1.3).unwrap();
        reg.apply_ry(0, 0.7).unwrap();
        reg.apply_pauli_x(0).unwrap();
        reg.to_density_matrix().unwrap()
    };
    let expected_fidelity_vs_original = expected_logical_x_flip.fidelity(&target).unwrap();
    assert!(
        expected_fidelity_vs_original < 0.99,
        "test setup: the chosen state's logical-X-flip fidelity against itself should not \
         be ~1.0, got {} -- pick a different arbitrary_state_prep angle",
        expected_fidelity_vs_original
    );

    let actual_fidelity_vs_flip = recovered.fidelity(&expected_logical_x_flip).unwrap();
    assert!(
        (actual_fidelity_vs_flip - 1.0).abs() < 1e-9,
        "expected two simultaneous errors to produce exactly a net logical X flip \
         (fidelity {} against the predicted flipped state, expected ~1.0) -- got fidelity \
         {} against the original, unflipped target instead",
        actual_fidelity_vs_flip,
        recovered.fidelity(&target).unwrap()
    );
}
