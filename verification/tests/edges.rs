use qutub_transpiler::backend::{Backend, BackendCircuit, BackendGate};
use qutub_transpiler::binary64::Binary64;
use qutub_transpiler::coupling::CouplingMap;
use qutub_transpiler::fidelity::{estimate_circuit_fidelity, PublishedCalibration};
use qutub_transpiler::ibm_export::{lower_ibm_native, to_ibm_qasm};
use qutub_transpiler::ir::{Circuit, Conditions, Gate};
use qutub_transpiler::native::{NativeCircuit, NativeGate};
use qutub_transpiler::pulse::{
    ibm_heron_r2_pulse_calibration, schedule, Channel, Envelope, PulseInstruction, Schedule,
};
use qutub_transpiler::qasm::parse;
use qutub_transpiler::readout::ReadoutCalibration;

fn f(x: f64) -> Binary64 {
    Binary64::from_bits(x.to_bits())
}

fn value(x: Binary64) -> f64 {
    f64::from_bits(x.to_bits())
}

fn bad(source: &str) -> String {
    parse(source).unwrap_err()
}

#[test]
fn faulty_sources_are_told_apart() {
    let head = "OPENQASM 2.0;\nqreg q[2];\ncreg c[1];\n";
    let cases = [
        ("h q[0];\n", "line 1: gate before a qubit register declaration (`qreg`/`qubit`): `h q[0]`"),
        ("creg c[1];\n", "no qubit register declaration (`qreg`/`qubit`) found"),
        ("qreg q;\n", "line 1: malformed register declaration"),
        ("qreg q[x];\n", "line 1: malformed register size"),
    ];
    for (source, text) in &cases {
        assert_eq!(bad(source), *text);
    }
    let behind = [
        "h q0",
        "h q[x]",
        "rz(0.1 q[0]",
        "rz(abc) q[0]",
        "rz q[0]",
        "h q[0], q[1]",
        "cx q[0]",
        "foo q[0]",
        "x q[2]",
        "measure q[0] -> c[1]",
        "measure q[0]",
        "if (c[0]==2) x q[0]",
        "if (c[1]==1) x q[0]",
        "if (c[0]) x q[0]",
        "if c[0]==1 x q[0]",
        "if (c[0]==1 x q[0]",
        "if (c[0]==1) measure q[0] -> c[0]",
        "if (c[0]==1) if (c[0]==1) x q[0]",
    ];
    let mut texts: Vec<String> = Vec::new();
    for b in &behind {
        let text = bad(&format!("{}{};\n", head, b));
        assert!(text.starts_with("line 4: "), "{}", text);
        assert!(!texts.contains(&text), "{}", text);
        texts.push(text);
    }
    assert_eq!(texts[0], "line 4: expected `name[N]`, got `q0`");
    assert_eq!(texts[3], "line 4: bad numeric parameter `abc`");
    assert_eq!(texts[5], "line 4: `h` expects 1 qubit(s), got 2");
    assert_eq!(texts[7], "line 4: unsupported gate `foo` (statement: `foo q[0]`)");
    assert_eq!(texts[8], "line 4: qubit index 2 out of range for a 2-qubit register: `x q[2]`");
}

#[test]
fn errors_name_the_line_on_which_a_statement_starts() {
    let cases = [
        ("OPENQASM 2.0;\nqreg q[2];\nfoo q[0];\n", 3),
        ("OPENQASM 2.0;\nqreg q[2];\n\n// a comment\n  foo q[0];\n", 5),
        ("qreg q[2]; foo q[0];\n", 1),
        ("qreg q[2]; h\nq[0]; h q[1]; foo\n q[0]\n;\n", 2),
        ("qreg q[2];\nh q[0]; \nfoo\nq[0]", 3),
        ("\n\nfoo q[0];", 3),
    ];
    for (source, line) in &cases {
        let text = bad(source);
        assert!(text.starts_with(&format!("line {}: ", line)), "{}: {}", source, text);
    }
}

#[test]
fn a_second_register_is_an_error() {
    assert_eq!(
        bad("qreg q[3];\nh q[2];\nqreg q[1];\n"),
        "line 3: a second qubit register declaration: `qreg q[1]`"
    );
    assert_eq!(
        bad("qubit[3] q;\nqubit r;\n"),
        "line 2: a second qubit register declaration: `qubit r`"
    );
    assert_eq!(
        bad("qreg q[3];\ncreg c[1];\nbit[2] d;\n"),
        "line 3: a second classical register declaration: `bit[2] d`"
    );
    let c = parse("creg c[2];\nqreg q[3];\nmeasure q[2] -> c[1];\n").unwrap();
    assert_eq!((c.num_qubits, c.num_clbits), (3, 2));
}

#[test]
fn every_mnemonic_is_read() {
    let source = "qubit[2] q;\nh q[0]; x q[0]; y q[0]; z q[0]; s q[0]; sdg q[0]; t q[0]; tdg q[0];\n\
        rx(1) q[0]; ry(1) q[0]; rz(1) q[0]; cx q[0],q[1]; cnot q[0],q[1]; cz q[0],q[1];\n\
        swap q[0],q[1]; rxx(1) q[0],q[1]; ryy(1) q[0],q[1]; rzz(1) q[0],q[1]; cp(1) q[0],q[1];\n\
        cphase(1) q[0],q[1]; // the end";
    let c = parse(source).unwrap();
    let one = f(1.0);
    assert_eq!(
        c.gates,
        vec![
            Gate::H(0),
            Gate::X(0),
            Gate::Y(0),
            Gate::Z(0),
            Gate::S(0),
            Gate::Sdg(0),
            Gate::T(0),
            Gate::Tdg(0),
            Gate::Rx(0, one),
            Gate::Ry(0, one),
            Gate::Rz(0, one),
            Gate::Cx(0, 1),
            Gate::Cx(0, 1),
            Gate::Cz(0, 1),
            Gate::Swap(0, 1),
            Gate::Rxx(0, 1, one),
            Gate::Ryy(0, 1, one),
            Gate::Rzz(0, 1, one),
            Gate::Cp(0, 1, one),
            Gate::Cp(0, 1, one),
        ]
    );
}

fn fault(g: Gate) -> String {
    let mut c = Circuit::new(2);
    c.num_clbits = 1;
    c.push(g);
    c.validate().unwrap_err()
}

#[test]
fn faulty_circuits_are_told_apart() {
    assert_eq!(fault(Gate::Rz(2, f(0.5))), "gate 0 (Rz(2, 0.5)): qubit index 2 out of range for 2 qubit(s)");
    assert_eq!(fault(Gate::Measure(0, 1)), "gate 0 (Measure(0, 1)): classical bit index 1 out of range for 1 clbit(s)");
    assert_eq!(
        fault(Gate::Cx(1, 1)),
        "gate 0 (Cx(1, 1)): a two-qubit gate's arguments must be distinct, both are 1"
    );
    assert_eq!(
        fault(Gate::Rx(0, f(f64::INFINITY))),
        "gate 0 (Rx(0, inf)): parameter inf is not finite (NaN or infinite)"
    );
    let guarded = |g: Gate| Gate::If(Conditions::bit(0, true), Box::new(g));
    assert!(fault(guarded(Gate::Measure(0, 0))).ends_with("a condition cannot apply to a measurement or to another condition"));
    assert!(fault(guarded(guarded(Gate::X(0)))).ends_with("a condition cannot apply to a measurement or to another condition"));
    assert!(fault(Gate::If(Conditions::bit(3, true), Box::new(Gate::X(0)))).contains("classical bit index 3 out of range"));
}

#[test]
fn faulty_maps_are_told_apart() {
    let error = |edges: Vec<(usize, usize)>| match CouplingMap::from_edges(3, edges) {
        Ok(_) => panic!("no error"),
        Err(text) => text,
    };
    assert_eq!(
        error(vec![(0, 1), (1, 1)]),
        "CouplingMap::from_edges: self-loop at qubit 1 is not a valid coupling edge"
    );
    assert_eq!(
        error(vec![(0, 5)]),
        "CouplingMap::from_edges: edge (0, 5) references a qubit index >= num_qubits (3)"
    );
}

#[test]
fn paths_are_shortest_and_least() {
    let map = CouplingMap::from_edges(7, vec![(0, 2), (2, 3), (0, 1), (1, 3), (3, 4), (5, 6)]).unwrap();
    assert_eq!(map.shortest_path(0, 4), Some(vec![0, 1, 3, 4]));
    assert_eq!(map.shortest_path(4, 0), Some(vec![4, 3, 1, 0]));
    assert_eq!(map.shortest_path(0, 6), None);
    assert!(map.is_adjacent(3, 1) && map.is_adjacent(1, 3));
    assert_eq!(map.neighbors(3), vec![1, 2, 4]);
}

#[test]
fn same_edges_give_the_same_map() {
    let a = CouplingMap::from_edges(4, vec![(0, 1), (1, 2), (2, 3)]).unwrap();
    let b = CouplingMap::from_edges(4, vec![(3, 2), (1, 0), (2, 1), (2, 3), (0, 1)]).unwrap();
    for q in 0..4 {
        assert_eq!(a.neighbors(q), b.neighbors(q));
    }
}

fn circuit(backend: Backend, gates: Vec<BackendGate>) -> BackendCircuit {
    BackendCircuit { backend, num_qubits: 2, num_clbits: 1, gates }
}

#[test]
fn schedules_that_cannot_be_made_are_told_apart() {
    let cal = ibm_heron_r2_pulse_calibration();
    assert_eq!(
        schedule(&circuit(Backend::Rigetti, vec![]), &cal).unwrap_err(),
        "calibration is for IbmQ but circuit was lowered for Rigetti"
    );
    assert_eq!(
        schedule(&circuit(Backend::IbmQ, vec![BackendGate::Rzz(0, 1, f(0.4))]), &cal).unwrap_err(),
        "pulse scheduling for Rzz (TrappedIon's native two-qubit gate, on qubits 0,1) has no calibration entry on backend IbmQ -- see this module's doc comment on backend coverage"
    );
}

#[test]
fn pulses_have_their_figures() {
    let cal = ibm_heron_r2_pulse_calibration();
    assert_eq!(value(cal.rot.duration_ns), 35.56);
    assert_eq!(value(cal.rot.sigma_ns), 8.89);
    assert_eq!(value(cal.rot.drag_beta), -1.2);
    assert_eq!(value(cal.rot.pi_amplitude), 0.2);
    assert_eq!(value(cal.two_qubit.duration_ns), 300.0);
    assert_eq!(value(cal.readout_duration_ns), 3300.0);
    let gates = vec![BackendGate::Rot(0, f(1.0)), BackendGate::Measure(0, 0)];
    let s = schedule(&circuit(Backend::IbmQ, gates), &cal).unwrap();
    assert_eq!(
        s.instructions,
        vec![
            PulseInstruction::Play {
                channel: Channel::Drive(0),
                start_time_ns: f(0.0),
                duration_ns: f(35.56),
                envelope: Envelope::Drag { sigma_ns: f(8.89), beta: f(-1.2) },
                amplitude: f(0.2 * 1.0 / std::f64::consts::PI),
            },
            PulseInstruction::Play {
                channel: Channel::Readout(0),
                start_time_ns: f(35.56),
                duration_ns: f(3300.0),
                envelope: Envelope::GaussianSquare {
                    sigma_ns: f(412.5),
                    risefall_ns: f(412.5),
                },
                amplitude: f(1.0),
            },
        ]
    );
}

#[test]
fn overlapping_pulses_are_noticed() {
    let play = |start: f64| PulseInstruction::Play {
        channel: Channel::Drive(0),
        start_time_ns: f(start),
        duration_ns: f(10.0),
        envelope: Envelope::Drag { sigma_ns: f(2.0), beta: f(0.0) },
        amplitude: f(0.1),
    };
    let mut s = Schedule { backend: Backend::IbmQ, instructions: vec![play(20.0), play(0.0), play(10.0)] };
    assert!(s.has_no_overlaps());
    assert_eq!(value(s.duration_ns()), 30.0);
    s.instructions.push(play(25.0));
    assert!(!s.has_no_overlaps());
}

#[test]
fn exports_that_cannot_be_made_are_told_apart() {
    assert_eq!(
        lower_ibm_native(&circuit(Backend::Google, vec![])).unwrap_err(),
        "lower_ibm_native only accepts a BackendCircuit lowered for Backend::IbmQ, got Google"
    );
    let text = lower_ibm_native(&circuit(Backend::IbmQ, vec![BackendGate::Cz(0, 1)])).unwrap_err();
    assert!(text.starts_with("lower_ibm_native: unexpected Cz(0, 1) in an IbmQ-lowered circuit"), "{}", text);
}

#[test]
fn export_writes_the_basis() {
    let gates = vec![
        BackendGate::Rz(0, f(0.5)),
        BackendGate::Rot(0, f(std::f64::consts::PI)),
        BackendGate::Cx(0, 1),
        BackendGate::Measure(1, 0),
    ];
    let text = to_ibm_qasm(&circuit(Backend::IbmQ, gates), "demo").unwrap();
    assert_eq!(
        text,
        "OPENQASM 2.0;\ninclude \"qelib1.inc\";\nqreg q[2];\ncreg c[1];\n// Circuit: demo (IBM native basis: rz, sx, x, cx, measure)\nrz(0.5) q[0];\nx q[0];\ncx q[0], q[1];\nmeasure q[1] -> c[0];\n"
    );
}

#[test]
fn figures_of_published_devices() {
    let heron = PublishedCalibration::ibm_heron_r2();
    assert_eq!((value(heron.single_qubit_fidelity), value(heron.two_qubit_fidelity)), (0.99982, 0.997));
    let ankaa = PublishedCalibration::rigetti_ankaa3();
    assert_eq!((value(ankaa.single_qubit_fidelity), value(ankaa.two_qubit_fidelity)), (0.9986, 0.995));
    let ion = Backend::TrappedIon.calibration();
    assert_eq!((value(ion.single_qubit_fidelity), value(ion.two_qubit_fidelity)), (0.999975, 0.99921));
    assert_eq!(value(ankaa.single_qubit_error_probability()), (1.0 - 0.9986) * 2.0 / 1.0);
    assert_eq!(value(ankaa.two_qubit_error_probability()), (1.0 - 0.995) * 4.0 / 3.0);
    let p = PublishedCalibration::fidelity_to_depolarizing_probability(f(-1.0), 1);
    assert_eq!(value(p), 1.0);
    assert_eq!(value(PublishedCalibration::fidelity_to_depolarizing_probability(f(2.0), 3)), 0.0);
}

#[test]
fn fidelity_is_a_product_of_powers() {
    let mut nc = NativeCircuit::new(2);
    nc.push(NativeGate::Rz(0, f(1.0)));
    nc.push(NativeGate::Ry(1, f(1.0)));
    nc.push(NativeGate::Rzz(0, 1, f(1.0)));
    nc.push(NativeGate::Measure(0, 0));
    let cal = PublishedCalibration::rigetti_ankaa3();
    let power = |x: Binary64, n: i32| f(value(x).powi(n));
    let s = 1.0 - value(cal.single_qubit_error_probability());
    let t = 1.0 - value(cal.two_qubit_error_probability());
    assert_eq!(value(estimate_circuit_fidelity(&nc, &cal, &power)), s.powi(2) * t.powi(1));
}

#[test]
fn readout_figures() {
    let helios = ReadoutCalibration::quantinuum_helios_2026();
    assert_eq!((value(helios.p01), value(helios.p10)), (4.8e-4, 4.8e-4));
    let heron = ReadoutCalibration::ibm_heron_r2();
    assert_eq!((value(heron.p01), value(heron.p10)), (0.03, 0.03));
    let ankaa = ReadoutCalibration::rigetti_ankaa3();
    assert_eq!((value(ankaa.p01), value(ankaa.p10)), (0.024, 0.0726));
    let willow = ReadoutCalibration::google_willow_2024();
    assert_eq!((value(willow.p01), value(willow.p10)), (0.0077, 0.0077));
}
