use qutub_transpiler::angle::{Euler, Turn};
use qutub_transpiler::binary64::Binary64;
use qutub_transpiler::emit::{native_operation_without_bits, Execution, Operation};
use qutub_transpiler::ir::{Circuit, Gate};
use qutub_transpiler::ir_optimize::optimize;
use qutub_transpiler::native::{decompose, NativeCircuit};
use qutub_transpiler::qec::bit_flip::ThreeQubitBitFlipCode;
use qutub_transpiler::qec::phase_flip::ThreeQubitPhaseFlipCode;
use qutub_transpiler::qec::repetition::RepetitionCode;
use qutub_transpiler::qec::round::{
    compiled, correction_operations, decoding_circuit, syndrome_circuit,
};
use qutub_transpiler::qec::{DecodableCode, PauliCorrection, StabilizerCode};
use sirraya_qutub::{DensityMatrix, QuantumRegister};

fn f(x: f64) -> Binary64 {
    Binary64::from_bits(x.to_bits())
}

fn value(x: Binary64) -> f64 {
    f64::from_bits(x.to_bits())
}

#[derive(Clone, Copy)]
struct C {
    re: f64,
    im: f64,
}

fn c(re: f64, im: f64) -> C {
    C { re, im }
}

fn polar(theta: f64) -> C {
    c(theta.cos(), theta.sin())
}

fn times(a: C, b: C) -> C {
    c(a.re * b.re - a.im * b.im, a.re * b.im + a.im * b.re)
}

fn plus(a: C, b: C) -> C {
    c(a.re + b.re, a.im + b.im)
}

fn modulus(a: C) -> f64 {
    (a.re * a.re + a.im * a.im).sqrt()
}

fn argument(a: C) -> f64 {
    a.im.atan2(a.re)
}

fn matrix(t: &Turn) -> [[C; 2]; 2] {
    let o = c(0.0, 0.0);
    let i = c(1.0, 0.0);
    match *t {
        Turn::H => {
            let s = 1.0 / std::f64::consts::SQRT_2;
            [[c(s, 0.0), c(s, 0.0)], [c(s, 0.0), c(-s, 0.0)]]
        }
        Turn::X => [[o, i], [i, o]],
        Turn::Y => [[o, c(0.0, -1.0)], [c(0.0, 1.0), o]],
        Turn::Z => [[i, o], [o, c(-1.0, 0.0)]],
        Turn::S => [[i, o], [o, c(0.0, 1.0)]],
        Turn::Sdg => [[i, o], [o, c(0.0, -1.0)]],
        Turn::T => [[i, o], [o, polar(std::f64::consts::FRAC_PI_4)]],
        Turn::Tdg => [[i, o], [o, polar(-std::f64::consts::FRAC_PI_4)]],
        Turn::Rx(a) => {
            let h = value(a) / 2.0;
            [[c(h.cos(), 0.0), c(0.0, -h.sin())], [c(0.0, -h.sin()), c(h.cos(), 0.0)]]
        }
        Turn::Ry(a) => {
            let h = value(a) / 2.0;
            [[c(h.cos(), 0.0), c(-h.sin(), 0.0)], [c(h.sin(), 0.0), c(h.cos(), 0.0)]]
        }
        Turn::Rz(a) => {
            let h = value(a) / 2.0;
            [[polar(-h), o], [o, polar(h)]]
        }
    }
}

/// Euler angles of a series of operations, by their matrices.
fn euler(turns: &Vec<Turn>) -> Euler {
    let mut m = matrix(&turns[0]);
    for t in &turns[1..] {
        let a = matrix(t);
        let mut p = m;
        for i in 0..2 {
            for j in 0..2 {
                p[i][j] = plus(times(a[i][0], m[0][j]), times(a[i][1], m[1][j]));
            }
        }
        m = p;
    }
    let x = times(m[0][0], m[1][1]);
    let y = times(m[0][1], m[1][0]);
    let g = polar(-argument(c(x.re - y.re, x.im - y.im)) / 2.0);
    let v00 = times(g, m[0][0]);
    let v01 = times(g, m[0][1]);
    let cos = modulus(v00);
    let sin = modulus(v01);
    let gamma = 2.0 * sin.atan2(cos);
    let plus_angle = -2.0 * argument(v00);
    let minus_angle = -2.0 * argument(times(v01, c(-1.0, 0.0)));
    let (delta, beta) = if cos < 1e-9 {
        (0.0, minus_angle)
    } else if sin < 1e-9 {
        (0.0, plus_angle)
    } else {
        (0.5 * (plus_angle - minus_angle), 0.5 * (plus_angle + minus_angle))
    };
    Euler { delta: f(delta), gamma: f(gamma), beta: f(beta) }
}

fn perform(reg: &mut QuantumRegister, op: Operation) -> Result<Option<u8>, String> {
    match op {
        Operation::X(q) => reg.apply_pauli_x(q)?,
        Operation::Y(q) => reg.apply_pauli_y(q)?,
        Operation::Z(q) => reg.apply_pauli_z(q)?,
        Operation::Rx(q, a) => reg.apply_rx(q, value(a))?,
        Operation::Ry(q, a) => reg.apply_ry(q, value(a))?,
        Operation::Rz(q, a) => reg.apply_rz(q, value(a))?,
        Operation::Rzz(a, b, t) => reg.apply_rzz(a, b, value(t))?,
        Operation::Cnot(a, b) => reg.apply_cnot(a, b)?,
        Operation::ControlledZ(a, b) => reg.apply_controlled_z(a, b)?,
        Operation::Measure(q, _) => return reg.measure_single_qubit(q).map(Some),
    }
    Ok(None)
}

fn apply_to(circuit: &NativeCircuit, reg: &mut QuantumRegister) -> Result<(), String> {
    for g in &circuit.gates {
        perform(reg, native_operation_without_bits(g)?)?;
    }
    Ok(())
}

fn run_with_measurement(circuit: &NativeCircuit) -> Result<(QuantumRegister, Vec<u8>), String> {
    let mut reg = QuantumRegister::new(circuit.num_qubits)?;
    let mut run = Execution::new(circuit.num_clbits);
    while let Some(op) = run.next(circuit)? {
        if let Operation::Measure(_, c) = op {
            let outcome = perform(&mut reg, op)?.unwrap();
            run.record(c, outcome)?;
        } else {
            perform(&mut reg, op)?;
        }
    }
    Ok((reg, run.clbits))
}

fn decodable_round(
    code: &RepetitionCode,
    prep: impl Fn(&mut Circuit, usize),
    injected_error: Option<Gate>,
) -> Result<QuantumRegister, String> {
    let mut prepared = Circuit::new(1);
    prep(&mut prepared, 0);
    let first = syndrome_circuit(code, &prepared.gates, &injected_error);
    let (mut reg, syndrome) = run_with_measurement(&compiled(&first, &euler))?;
    for op in correction_operations(code, &syndrome) {
        perform(&mut reg, op)?;
    }
    apply_to(&compiled(&decoding_circuit(code), &euler), &mut reg)?;
    Ok(reg)
}

fn run_decodable_round(
    code: &RepetitionCode,
    prep: impl Fn(&mut Circuit, usize),
    injected_error: Option<Gate>,
) -> Result<DensityMatrix, String> {
    decodable_round(code, prep, injected_error)?.to_density_matrix()?.partial_trace(&[0])
}

fn arbitrary_state_prep(c: &mut Circuit, q: usize) {
    c.push(Gate::Rz(q, f(1.3)));
    c.push(Gate::Ry(q, f(0.7)));
}

fn arbitrary_state_target() -> DensityMatrix {
    let mut reg = QuantumRegister::new(1).unwrap();
    reg.apply_rz(0, 1.3).unwrap();
    reg.apply_ry(0, 0.7).unwrap();
    reg.to_density_matrix().unwrap()
}

#[test]
fn distance_3_repetition_code_matches_the_original_hand_enumerated_codes() {
    let target = arbitrary_state_target();

    let bit_flip_old = ThreeQubitBitFlipCode;
    let bit_flip_new = RepetitionCode::new(3, PauliCorrection::X);
    for injected in [None, Some(Gate::X(0)), Some(Gate::X(1)), Some(Gate::X(2))] {
        let mut c = Circuit::new(5);
        c.num_clbits = 2;
        arbitrary_state_prep(&mut c, 0);
        bit_flip_old.encode(&mut c, &[0, 1, 2]);
        if let Some(g) = injected.clone() {
            c.push(g);
        }
        bit_flip_old.extract_syndrome(&mut c, &[0, 1, 2], &[3, 4], &[0, 1]);
        bit_flip_old.correct(&mut c, &[0, 1, 2], &[0, 1]);
        bit_flip_old.decode(&mut c, &[0, 1, 2]);
        let opt = optimize(&c);
        let native = decompose(&opt, &euler);
        let (reg, _) = run_with_measurement(&native).unwrap();
        let old_recovered = reg.to_density_matrix().unwrap().partial_trace(&[0]).unwrap();

        let new_recovered =
            run_decodable_round(&bit_flip_new, arbitrary_state_prep, injected.clone()).unwrap();

        let old_fid = old_recovered.fidelity(&target).unwrap();
        let new_fid = new_recovered.fidelity(&target).unwrap();
        assert!((old_fid - 1.0).abs() < 1e-9, "old code failed for {:?}", injected);
        assert!((new_fid - 1.0).abs() < 1e-9, "new decoder failed for {:?}", injected);
        assert!(
            old_recovered.fidelity(&new_recovered).unwrap() > 1.0 - 1e-9,
            "old and new decoders disagree for injected error {:?}",
            injected
        );
    }

    let phase_flip_old = ThreeQubitPhaseFlipCode;
    let phase_flip_new = RepetitionCode::new(3, PauliCorrection::Z);
    for injected in [None, Some(Gate::Z(0)), Some(Gate::Z(1)), Some(Gate::Z(2))] {
        let mut c = Circuit::new(5);
        c.num_clbits = 2;
        arbitrary_state_prep(&mut c, 0);
        phase_flip_old.encode(&mut c, &[0, 1, 2]);
        if let Some(g) = injected.clone() {
            c.push(g);
        }
        phase_flip_old.extract_syndrome(&mut c, &[0, 1, 2], &[3, 4], &[0, 1]);
        phase_flip_old.correct(&mut c, &[0, 1, 2], &[0, 1]);
        phase_flip_old.decode(&mut c, &[0, 1, 2]);
        let opt = optimize(&c);
        let native = decompose(&opt, &euler);
        let (reg, _) = run_with_measurement(&native).unwrap();
        let old_recovered = reg.to_density_matrix().unwrap().partial_trace(&[0]).unwrap();

        let new_recovered =
            run_decodable_round(&phase_flip_new, arbitrary_state_prep, injected.clone()).unwrap();

        assert!(
            old_recovered.fidelity(&new_recovered).unwrap() > 1.0 - 1e-9,
            "old and new decoders disagree for injected Z error {:?}",
            injected
        );
    }
}

#[test]
fn distance_5_repetition_code_corrects_every_single_error() {
    let code = RepetitionCode::new(5, PauliCorrection::X);
    let target = arbitrary_state_target();
    for q in 0..5 {
        let recovered =
            run_decodable_round(&code, arbitrary_state_prep, Some(Gate::X(q)))
                .unwrap();
        let fidelity = recovered.fidelity(&target).unwrap();
        assert!(
            (fidelity - 1.0).abs() < 1e-9,
            "distance-5 code failed to correct a single error on qubit {}: fidelity {}",
            q, fidelity
        );
    }
}

#[test]
fn distance_5_repetition_code_corrects_no_error() {
    let code = RepetitionCode::new(5, PauliCorrection::X);
    let target = arbitrary_state_target();
    let recovered = run_decodable_round(&code, arbitrary_state_prep, None).unwrap();
    assert!((recovered.fidelity(&target).unwrap() - 1.0).abs() < 1e-9);
}

#[test]
fn distance_5_repetition_code_corrects_every_double_error() {
    let code = RepetitionCode::new(5, PauliCorrection::X);
    let target = arbitrary_state_target();
    for i in 0..5 {
        for j in (i + 1)..5 {
            let mut c = Circuit::new(9);
            c.num_clbits = 4;
            arbitrary_state_prep(&mut c, 0);
            code.encode(&mut c, &(0..5).collect::<Vec<_>>());
            c.push(Gate::X(i));
            c.push(Gate::X(j));
            code.extract_syndrome(
                &mut c,
                &(0..5).collect::<Vec<_>>(),
                &(5..9).collect::<Vec<_>>(),
                &(0..4).collect::<Vec<_>>(),
            );
            let opt = optimize(&c);
            let native = decompose(&opt, &euler);
            let (mut reg, syndrome) = run_with_measurement(&native).unwrap();
            for (q, corr) in code.decode_syndrome(&syndrome) {
                match corr {
                    PauliCorrection::X => reg.apply_pauli_x(q).unwrap(),
                    PauliCorrection::Y => reg.apply_pauli_y(q).unwrap(),
                    PauliCorrection::Z => reg.apply_pauli_z(q).unwrap(),
                }
            }
            let mut c2 = Circuit::new(9);
            code.decode(&mut c2, &(0..5).collect::<Vec<_>>());
            let opt2 = optimize(&c2);
            let native2 = decompose(&opt2, &euler);
            apply_to(&native2, &mut reg).unwrap();
            let recovered = reg.to_density_matrix().unwrap().partial_trace(&[0]).unwrap();
            let fidelity = recovered.fidelity(&target).unwrap();
            assert!(
                (fidelity - 1.0).abs() < 1e-9,
                "distance-5 code failed on double error ({}, {}): fidelity {}",
                i, j, fidelity
            );
        }
    }
}

#[test]
fn distance_5_code_weight_3_error_can_exceed_the_correction_bound() {
    let code = RepetitionCode::new(5, PauliCorrection::X);
    let target = arbitrary_state_target();

    let mut c = Circuit::new(9);
    c.num_clbits = 4;
    arbitrary_state_prep(&mut c, 0);
    code.encode(&mut c, &(0..5).collect::<Vec<_>>());
    c.push(Gate::X(0));
    c.push(Gate::X(2));
    c.push(Gate::X(4));
    code.extract_syndrome(
        &mut c,
        &(0..5).collect::<Vec<_>>(),
        &(5..9).collect::<Vec<_>>(),
        &(0..4).collect::<Vec<_>>(),
    );
    let opt = optimize(&c);
    let native = decompose(&opt, &euler);
    let (mut reg, syndrome) = run_with_measurement(&native).unwrap();
    for (q, corr) in code.decode_syndrome(&syndrome) {
        match corr {
            PauliCorrection::X => reg.apply_pauli_x(q).unwrap(),
            PauliCorrection::Y => reg.apply_pauli_y(q).unwrap(),
            PauliCorrection::Z => reg.apply_pauli_z(q).unwrap(),
        }
    }
    let mut c2 = Circuit::new(9);
    code.decode(&mut c2, &(0..5).collect::<Vec<_>>());
    let opt2 = optimize(&c2);
    let native2 = decompose(&opt2, &euler);
    apply_to(&native2, &mut reg).unwrap();
    let recovered = reg.to_density_matrix().unwrap().partial_trace(&[0]).unwrap();
    let fidelity = recovered.fidelity(&target).unwrap();
    assert!(
        fidelity < 0.99,
        "expected a weight-3 error on a distance-5 code (exceeding the (d-1)/2=2 \
         guarantee) to genuinely fail to correct, got fidelity {} -- if this now passes, \
         this specific error pattern happened to still be within the decoder's reach, and \
         this test's chosen qubits need revisiting to demonstrate a real failure",
        fidelity
    );
}

/// How much of one qubit's state is a given pure one.
fn overlap(reg: &QuantumRegister, target: &QuantumRegister) -> f64 {
    let v = reg.get_state_vector();
    let t = target.get_state_vector();
    let mut total = 0.0;
    for k in 0..v.len() / 2 {
        let (a, b) = (v[2 * k], v[2 * k + 1]);
        let re = t[0].real() * a.real() + t[0].imag() * a.imag() + t[1].real() * b.real() + t[1].imag() * b.imag();
        let im = t[0].real() * a.imag() - t[0].imag() * a.real() + t[1].real() * b.imag() - t[1].imag() * b.real();
        total += re * re + im * im;
    }
    total
}

#[test]
fn distance_7_repetition_code_corrects_every_single_error() {
    let code = RepetitionCode::new(7, PauliCorrection::X);
    let mut target = QuantumRegister::new(1).unwrap();
    target.apply_rz(0, 1.3).unwrap();
    target.apply_ry(0, 0.7).unwrap();
    for q in 0..7 {
        let reg = decodable_round(&code, arbitrary_state_prep, Some(Gate::X(q))).unwrap();
        let fidelity = overlap(&reg, &target);
        assert!(
            (fidelity - 1.0).abs() < 1e-9,
            "distance-7 code failed to correct a single error on qubit {}: fidelity {}",
            q, fidelity
        );
    }
}
