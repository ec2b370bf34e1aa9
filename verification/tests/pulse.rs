use qutub_transpiler::angle::{Euler, Turn};
use qutub_transpiler::backend::{lower, Backend, BackendCircuit, BackendGate};
use qutub_transpiler::binary64::Binary64;
use qutub_transpiler::coupling::CouplingMap;
use qutub_transpiler::ir::{Circuit, Conditions, Gate};
use qutub_transpiler::pulse::{
    ibm_heron_r2_pulse_calibration, rigetti_ankaa3_pulse_calibration, schedule,
    trapped_ion_pulse_calibration, Channel, Envelope, PulseCalibration, PulseInstruction, Schedule,
};
use std::f64::consts::PI;

fn f(x: f64) -> Binary64 {
    Binary64::from_bits(x.to_bits())
}

fn value(x: Binary64) -> f64 {
    f64::from_bits(x.to_bits())
}

#[derive(Clone, Copy)]
struct C {
    re: f64,
    im: f64,
}

fn c(re: f64, im: f64) -> C {
    C { re, im }
}

fn polar(theta: f64) -> C {
    c(theta.cos(), theta.sin())
}

fn times(a: C, b: C) -> C {
    c(a.re * b.re - a.im * b.im, a.re * b.im + a.im * b.re)
}

fn plus(a: C, b: C) -> C {
    c(a.re + b.re, a.im + b.im)
}

fn modulus(a: C) -> f64 {
    (a.re * a.re + a.im * a.im).sqrt()
}

fn argument(a: C) -> f64 {
    a.im.atan2(a.re)
}

fn matrix(t: &Turn) -> [[C; 2]; 2] {
    let o = c(0.0, 0.0);
    let i = c(1.0, 0.0);
    match *t {
        Turn::H => {
            let s = 1.0 / std::f64::consts::SQRT_2;
            [[c(s, 0.0), c(s, 0.0)], [c(s, 0.0), c(-s, 0.0)]]
        }
        Turn::X => [[o, i], [i, o]],
        Turn::Y => [[o, c(0.0, -1.0)], [c(0.0, 1.0), o]],
        Turn::Z => [[i, o], [o, c(-1.0, 0.0)]],
        Turn::S => [[i, o], [o, c(0.0, 1.0)]],
        Turn::Sdg => [[i, o], [o, c(0.0, -1.0)]],
        Turn::T => [[i, o], [o, polar(std::f64::consts::FRAC_PI_4)]],
        Turn::Tdg => [[i, o], [o, polar(-std::f64::consts::FRAC_PI_4)]],
        Turn::Rx(a) => {
            let h = value(a) / 2.0;
            [[c(h.cos(), 0.0), c(0.0, -h.sin())], [c(0.0, -h.sin()), c(h.cos(), 0.0)]]
        }
        Turn::Ry(a) => {
            let h = value(a) / 2.0;
            [[c(h.cos(), 0.0), c(-h.sin(), 0.0)], [c(h.sin(), 0.0), c(h.cos(), 0.0)]]
        }
        Turn::Rz(a) => {
            let h = value(a) / 2.0;
            [[polar(-h), o], [o, polar(h)]]
        }
    }
}

/// Euler angles of a series of operations, by their matrices.
fn euler(turns: &Vec<Turn>) -> Euler {
    let mut m = matrix(&turns[0]);
    for t in &turns[1..] {
        let a = matrix(t);
        let mut p = m;
        for i in 0..2 {
            for j in 0..2 {
                p[i][j] = plus(times(a[i][0], m[0][j]), times(a[i][1], m[1][j]));
            }
        }
        m = p;
    }
    let x = times(m[0][0], m[1][1]);
    let y = times(m[0][1], m[1][0]);
    let g = polar(-argument(c(x.re - y.re, x.im - y.im)) / 2.0);
    let v00 = times(g, m[0][0]);
    let v01 = times(g, m[0][1]);
    let cos = modulus(v00);
    let sin = modulus(v01);
    let gamma = 2.0 * sin.atan2(cos);
    let plus_angle = -2.0 * argument(v00);
    let minus_angle = -2.0 * argument(times(v01, c(-1.0, 0.0)));
    let (delta, beta) = if cos < 1e-9 {
        (0.0, minus_angle)
    } else if sin < 1e-9 {
        (0.0, plus_angle)
    } else {
        (0.5 * (plus_angle - minus_angle), 0.5 * (plus_angle + minus_angle))
    };
    Euler { delta: f(delta), gamma: f(gamma), beta: f(beta) }
}

/// Brings the qubits of a gate together along a shortest path, and back.
fn route(circuit: &Circuit, map: &CouplingMap) -> Circuit {
    let mut out = Circuit::new(circuit.num_qubits);
    out.num_clbits = circuit.num_clbits;
    for g in &circuit.gates {
        let w = g.qubits();
        if w.len() < 2 || map.is_adjacent(w[0], w[1]) {
            out.push(g.clone());
            continue;
        }
        let path = map.shortest_path(w[0], w[1]).unwrap();
        let near = path[path.len() - 2];
        let steps = path.len() - 2;
        for i in 0..steps {
            out.push(Gate::Swap(path[i], path[i + 1]));
        }
        out.push(moved(g, w[0], near));
        for i in (0..steps).rev() {
            out.push(Gate::Swap(path[i], path[i + 1]));
        }
    }
    out
}

fn moved(g: &Gate, from: usize, to: usize) -> Gate {
    let m = |q: usize| if q == from { to } else { q };
    match *g {
        Gate::Cx(a, b) => Gate::Cx(m(a), m(b)),
        Gate::Cz(a, b) => Gate::Cz(m(a), m(b)),
        Gate::Swap(a, b) => Gate::Swap(m(a), m(b)),
        Gate::Rxx(a, b, t) => Gate::Rxx(m(a), m(b), t),
        Gate::Ryy(a, b, t) => Gate::Ryy(m(a), m(b), t),
        Gate::Rzz(a, b, t) => Gate::Rzz(m(a), m(b), t),
        Gate::Cp(a, b, t) => Gate::Cp(m(a), m(b), t),
        _ => g.clone(),
    }
}

fn cal() -> PulseCalibration {
    ibm_heron_r2_pulse_calibration()
}

#[test]
fn backend_mismatch_returns_error_not_panic() {
    let bc = BackendCircuit {
        backend: Backend::TrappedIon,
        num_qubits: 1,
        num_clbits: 0,
        gates: vec![],
    };
    let err = schedule(&bc, &cal()).unwrap_err();
    assert!(
        err.contains("TrappedIon") && err.contains("IbmQ"),
        "error should name both the calibration's and the circuit's backend, got: {err}"
    );
}

#[test]
fn rzz_returns_error_not_panic() {
    let bc = BackendCircuit {
        backend: Backend::IbmQ,
        num_qubits: 2,
        num_clbits: 0,
        gates: vec![BackendGate::Rzz(0, 1, f(0.4))],
    };
    let err = schedule(&bc, &cal()).unwrap_err();
    assert!(err.contains("Rzz"), "error should name the unsupported gate, got: {err}");
}

#[test]
fn disjoint_qubit_rots_schedule_in_parallel() {
    let bc = BackendCircuit {
        backend: Backend::IbmQ,
        num_qubits: 2,
        num_clbits: 0,
        gates: vec![BackendGate::Rot(0, f(PI)), BackendGate::Rot(1, f(PI))],
    };
    let sched = schedule(&bc, &cal()).unwrap();
    assert!(sched.has_no_overlaps());
    assert_eq!(
        sched.duration_ns(),
        cal().rot.duration_ns,
        "two Rot's on different qubits should overlap in time (parallel), not sum"
    );
}

#[test]
fn same_qubit_rots_serialize() {
    let bc = BackendCircuit {
        backend: Backend::IbmQ,
        num_qubits: 1,
        num_clbits: 0,
        gates: vec![BackendGate::Rot(0, f(PI)), BackendGate::Rot(0, f(PI))],
    };
    let sched = schedule(&bc, &cal()).unwrap();
    assert!(sched.has_no_overlaps());
    assert_eq!(
        sched.duration_ns(),
        f(2.0 * value(cal().rot.duration_ns)),
        "two Rot's on the SAME qubit must serialize, not overlap"
    );
}

#[test]
fn virtual_z_does_not_advance_time() {
    let bc = BackendCircuit {
        backend: Backend::IbmQ,
        num_qubits: 1,
        num_clbits: 0,
        gates: vec![BackendGate::Rz(0, f(0.3)), BackendGate::Rot(0, f(PI))],
    };
    let sched = schedule(&bc, &cal()).unwrap();
    let rot = sched
        .instructions
        .iter()
        .find(|i| matches!(i, PulseInstruction::Play { .. }))
        .unwrap();
    assert_eq!(
        rot.start_time_ns(),
        f(0.0),
        "the Rot must start at t=0, unaffected by the preceding virtual-Z: {rot:?}"
    );
    assert_eq!(sched.duration_ns(), cal().rot.duration_ns);
}

#[test]
fn entangling_gate_occupies_both_qubits() {
    let bc = BackendCircuit {
        backend: Backend::IbmQ,
        num_qubits: 2,
        num_clbits: 0,
        gates: vec![BackendGate::Cx(0, 1), BackendGate::Rot(0, f(PI))],
    };
    let sched = schedule(&bc, &cal()).unwrap();
    assert!(sched.has_no_overlaps());
    let rot = sched
        .instructions
        .iter()
        .find(|i| matches!(i, PulseInstruction::Play { channel: Channel::Drive(0), .. }))
        .unwrap();
    assert_eq!(
        rot.start_time_ns(),
        cal().two_qubit.duration_ns,
        "Rot(0) must wait for the Cx to finish on qubit 0: {rot:?}"
    );
}

#[test]
fn measure_gets_a_dedicated_readout_channel() {
    let bc = BackendCircuit {
        backend: Backend::IbmQ,
        num_qubits: 1,
        num_clbits: 1,
        gates: vec![BackendGate::Rot(0, f(PI)), BackendGate::Measure(0, 0)],
    };
    let sched = schedule(&bc, &cal()).unwrap();
    assert!(sched.has_no_overlaps());
    let readout = sched
        .instructions
        .iter()
        .find(|i| i.channel() == Channel::Readout(0))
        .expect("Measure should produce a Readout(0) instruction");
    assert_eq!(readout.start_time_ns(), cal().rot.duration_ns);
    assert_eq!(sched.duration_ns(), f(value(cal().rot.duration_ns) + value(cal().readout_duration_ns)));
}

#[test]
fn schedules_a_real_lowered_circuit_without_overlaps() {
    let mut c = Circuit::new(2);
    c.push(Gate::H(0))
        .push(Gate::Cx(0, 1))
        .push(Gate::Rz(1, f(0.3)))
        .push(Gate::Measure(0, 0))
        .push(Gate::Measure(1, 1));
    c.num_clbits = 2;

    let bc = lower(&c, Backend::IbmQ, &route, &euler);
    let sched = schedule(&bc, &cal()).unwrap();
    assert!(
        sched.has_no_overlaps(),
        "schedule for a real lowered circuit must not overlap: {:?}",
        sched.instructions
    );
    assert!(value(sched.duration_ns()) > 0.0);
}

#[test]
fn schedules_a_real_rigetti_lowered_circuit_without_overlaps() {
    let mut c = Circuit::new(2);
    c.push(Gate::H(0))
        .push(Gate::Cx(0, 1))
        .push(Gate::Rz(1, f(0.3)))
        .push(Gate::Measure(0, 0))
        .push(Gate::Measure(1, 1));
    c.num_clbits = 2;

    let bc = lower(&c, Backend::Rigetti, &route, &euler);
    assert!(
        bc.gates.iter().any(|g| matches!(g, BackendGate::Cz(..))),
        "sanity check: Rigetti's lowering should actually use Cz, or this test isn't \
         exercising the path it claims to"
    );
    let sched = schedule(&bc, &rigetti_ankaa3_pulse_calibration()).unwrap();
    assert!(
        sched.has_no_overlaps(),
        "schedule for a real Rigetti-lowered circuit must not overlap: {:?}",
        sched.instructions
    );
    assert!(value(sched.duration_ns()) > 0.0);
}

#[test]
fn trapped_ion_calibration_schedules_rzz() {
    let bc = BackendCircuit {
        backend: Backend::TrappedIon,
        num_qubits: 2,
        num_clbits: 0,
        gates: vec![BackendGate::Rzz(0, 1, f(PI))],
    };
    let tcal = trapped_ion_pulse_calibration();
    let sched = schedule(&bc, &tcal).unwrap();
    assert!(sched.has_no_overlaps());
    assert_eq!(sched.instructions.len(), 1);
    match sched.instructions[0] {
        PulseInstruction::Play { channel, start_time_ns, duration_ns, amplitude, .. } => {
            assert_eq!(channel, Channel::Control(0, 1));
            assert_eq!(start_time_ns, f(0.0));
            assert_eq!(duration_ns, tcal.rzz.unwrap().duration_ns);
            assert_eq!(amplitude, tcal.rzz.unwrap().pi_amplitude, "Rzz(.., PI) should play at the full calibrated pi-pulse amplitude");
        }
        ref other => panic!("expected a Play instruction on Control(0,1), got {other:?}"),
    }
}

#[test]
fn rzz_amplitude_scales_linearly_with_angle() {
    let bc = BackendCircuit {
        backend: Backend::TrappedIon,
        num_qubits: 2,
        num_clbits: 0,
        gates: vec![BackendGate::Rzz(0, 1, f(PI / 2.0))],
    };
    let tcal = trapped_ion_pulse_calibration();
    let sched = schedule(&bc, &tcal).unwrap();
    match sched.instructions[0] {
        PulseInstruction::Play { amplitude, .. } => {
            assert_eq!(
                amplitude,
                f(value(tcal.rzz.unwrap().pi_amplitude) / 2.0),
                "Rzz(.., PI/2) should play at half the calibrated pi-pulse amplitude"
            );
        }
        ref other => panic!("expected a Play instruction, got {other:?}"),
    }
}

#[test]
fn rzz_occupies_both_qubits() {
    let bc = BackendCircuit {
        backend: Backend::TrappedIon,
        num_qubits: 2,
        num_clbits: 0,
        gates: vec![BackendGate::Rzz(0, 1, f(PI)), BackendGate::Rot(0, f(PI))],
    };
    let tcal = trapped_ion_pulse_calibration();
    let sched = schedule(&bc, &tcal).unwrap();
    assert!(sched.has_no_overlaps());
    let rot = sched
        .instructions
        .iter()
        .find(|i| matches!(i, PulseInstruction::Play { channel: Channel::Drive(0), .. }))
        .unwrap();
    assert_eq!(
        rot.start_time_ns(),
        tcal.rzz.unwrap().duration_ns,
        "Rot(0) must wait for the Rzz to finish on qubit 0: {rot:?}"
    );
}

#[test]
fn schedules_a_real_trapped_ion_lowered_circuit_without_overlaps() {
    let mut c = Circuit::new(2);
    c.push(Gate::H(0))
        .push(Gate::Cx(0, 1))
        .push(Gate::Rz(1, f(0.3)))
        .push(Gate::Measure(0, 0))
        .push(Gate::Measure(1, 1));
    c.num_clbits = 2;

    let bc = lower(&c, Backend::TrappedIon, &route, &euler);
    assert!(
        bc.gates.iter().any(|g| matches!(g, BackendGate::Rzz(..))),
        "sanity check: TrappedIon's lowering should actually use Rzz, or this test \
         isn't exercising the path it claims to"
    );
    let sched = schedule(&bc, &trapped_ion_pulse_calibration()).unwrap();
    assert!(
        sched.has_no_overlaps(),
        "schedule for a real TrappedIon-lowered circuit must not overlap: {:?}",
        sched.instructions
    );
    assert!(value(sched.duration_ns()) > 0.0);
}

#[test]
fn ibm_calibration_rejects_a_rigetti_circuit_and_vice_versa() {
    let ibm_bc = lower(&Circuit::new(1), Backend::IbmQ, &route, &euler);
    let rigetti_bc = lower(&Circuit::new(1), Backend::Rigetti, &route, &euler);

    assert!(schedule(&ibm_bc, &rigetti_ankaa3_pulse_calibration()).is_err());
    assert!(schedule(&rigetti_bc, &cal()).is_err());
    assert!(schedule(&ibm_bc, &cal()).is_ok());
    assert!(schedule(&rigetti_bc, &rigetti_ankaa3_pulse_calibration()).is_ok());
}

#[test]
fn if_is_scheduled_exactly_as_its_inner_gate_would_be() {
    let mut conditioned = lower(&Circuit::new(1), Backend::TrappedIon, &route, &euler);
    conditioned.push(BackendGate::If(Conditions::bit(0, true), Box::new(BackendGate::Rot(0, f(PI)))));
    let mut plain = lower(&Circuit::new(1), Backend::TrappedIon, &route, &euler);
    plain.push(BackendGate::Rot(0, f(PI)));

    let sched_conditioned = schedule(&conditioned, &trapped_ion_pulse_calibration()).unwrap();
    let sched_plain = schedule(&plain, &trapped_ion_pulse_calibration()).unwrap();
    assert_eq!(sched_conditioned.instructions, sched_plain.instructions);
}

#[test]
fn if_wrapping_a_two_qubit_gate_still_advances_busy_until_on_both_wires() {
    let mut bc = lower(&Circuit::new(2), Backend::TrappedIon, &route, &euler);
    bc.push(BackendGate::If(Conditions::bit(0, true), Box::new(BackendGate::Rzz(0, 1, f(PI / 2.0)))));
    bc.push(BackendGate::Rot(0, f(PI)));
    let sched = schedule(&bc, &trapped_ion_pulse_calibration()).unwrap();
    assert!(
        sched.has_no_overlaps(),
        "a conditioned two-qubit gate must still reserve both its wires: {:?}",
        sched.instructions
    );
    assert_eq!(sched.instructions.len(), 2, "expected exactly the Rzz pulse plus the Rot pulse");
}

#[test]
fn an_overlap_with_a_pulse_that_is_not_the_next_is_found() {
    let play = |q: usize, start: f64, duration: f64| PulseInstruction::Play {
        channel: Channel::Drive(q),
        start_time_ns: f(start),
        duration_ns: f(duration),
        envelope: Envelope::Drag { sigma_ns: f(1.0), beta: f(0.0) },
        amplitude: f(0.5),
    };
    let has = |instructions| Schedule { backend: Backend::IbmQ, instructions }.has_no_overlaps();
    assert!(has(vec![play(0, 20.0, 10.0), play(0, 0.0, 10.0), play(0, 10.0, 10.0)]));
    assert!(!has(vec![play(0, 0.0, 25.0), play(0, 20.0, 10.0), play(0, 10.0, 0.0)]));
    assert!(has(vec![play(0, 0.0, 25.0), play(1, 20.0, 10.0)]));
    assert!(has(vec![play(0, 5.0, 0.0), play(0, 5.0, 3.0)]));
    assert!(!has(vec![play(0, 5.0, 3.0), play(0, 5.0, 0.0)]));
}
