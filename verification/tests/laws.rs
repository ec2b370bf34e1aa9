use qutub_transpiler::angle::{Euler, Turn};
use qutub_transpiler::backend::{
    lower, optimize, resynthesize, Backend, BackendCircuit, BackendGate, RotAxis,
};
use qutub_transpiler::binary64::Binary64;
use qutub_transpiler::coupling::CouplingMap;
use qutub_transpiler::diagram::Diagram;
use qutub_transpiler::diagram::ascii::assign_columns;
use qutub_transpiler::diagram::svg::assign_columns_svg;
use qutub_transpiler::emit::{
    backend_operation, backend_operation_without_bits, native_operation,
    native_operation_without_bits, pauli_error_operation, record_outcome, to_qasm, to_qasm3, Execution,
    Operation,
};
use qutub_transpiler::histogram::{counts_to_json, outcome_text};
use qutub_transpiler::ir::{Circuit, Conditions, Gate};
use qutub_transpiler::native::{NativeCircuit, NativeGate};
use qutub_transpiler::noise::PauliError;
use qutub_transpiler::qasm::parse;
use qutub_transpiler::qec::PauliCorrection;
use qutub_transpiler::qec::repetition::RepetitionCode;
use qutub_transpiler::qec::round::{
    compiled, correction_operations, decoding_circuit, syndrome_circuit,
};

fn f(x: f64) -> Binary64 {
    Binary64::from_bits(x.to_bits())
}

fn value(x: Binary64) -> f64 {
    f64::from_bits(x.to_bits())
}

#[derive(Clone, Copy)]
struct C {
    re: f64,
    im: f64,
}

fn c(re: f64, im: f64) -> C {
    C { re, im }
}

fn polar(theta: f64) -> C {
    c(theta.cos(), theta.sin())
}

fn times(a: C, b: C) -> C {
    c(a.re * b.re - a.im * b.im, a.re * b.im + a.im * b.re)
}

fn plus(a: C, b: C) -> C {
    c(a.re + b.re, a.im + b.im)
}

fn modulus(a: C) -> f64 {
    (a.re * a.re + a.im * a.im).sqrt()
}

fn argument(a: C) -> f64 {
    a.im.atan2(a.re)
}

fn matrix(t: &Turn) -> [[C; 2]; 2] {
    let o = c(0.0, 0.0);
    let i = c(1.0, 0.0);
    match *t {
        Turn::H => {
            let s = 1.0 / std::f64::consts::SQRT_2;
            [[c(s, 0.0), c(s, 0.0)], [c(s, 0.0), c(-s, 0.0)]]
        }
        Turn::X => [[o, i], [i, o]],
        Turn::Y => [[o, c(0.0, -1.0)], [c(0.0, 1.0), o]],
        Turn::Z => [[i, o], [o, c(-1.0, 0.0)]],
        Turn::S => [[i, o], [o, c(0.0, 1.0)]],
        Turn::Sdg => [[i, o], [o, c(0.0, -1.0)]],
        Turn::T => [[i, o], [o, polar(std::f64::consts::FRAC_PI_4)]],
        Turn::Tdg => [[i, o], [o, polar(-std::f64::consts::FRAC_PI_4)]],
        Turn::Rx(a) => {
            let h = value(a) / 2.0;
            [[c(h.cos(), 0.0), c(0.0, -h.sin())], [c(0.0, -h.sin()), c(h.cos(), 0.0)]]
        }
        Turn::Ry(a) => {
            let h = value(a) / 2.0;
            [[c(h.cos(), 0.0), c(-h.sin(), 0.0)], [c(h.sin(), 0.0), c(h.cos(), 0.0)]]
        }
        Turn::Rz(a) => {
            let h = value(a) / 2.0;
            [[polar(-h), o], [o, polar(h)]]
        }
    }
}

/// Euler angles of a series of operations, by their matrices.
fn euler(turns: &Vec<Turn>) -> Euler {
    let mut m = matrix(&turns[0]);
    for t in &turns[1..] {
        let a = matrix(t);
        let mut p = m;
        for i in 0..2 {
            for j in 0..2 {
                p[i][j] = plus(times(a[i][0], m[0][j]), times(a[i][1], m[1][j]));
            }
        }
        m = p;
    }
    let x = times(m[0][0], m[1][1]);
    let y = times(m[0][1], m[1][0]);
    let g = polar(-argument(c(x.re - y.re, x.im - y.im)) / 2.0);
    let v00 = times(g, m[0][0]);
    let v01 = times(g, m[0][1]);
    let cos = modulus(v00);
    let sin = modulus(v01);
    let gamma = 2.0 * sin.atan2(cos);
    let plus_angle = -2.0 * argument(v00);
    let minus_angle = -2.0 * argument(times(v01, c(-1.0, 0.0)));
    let (delta, beta) = if cos < 1e-9 {
        (0.0, minus_angle)
    } else if sin < 1e-9 {
        (0.0, plus_angle)
    } else {
        (0.5 * (plus_angle - minus_angle), 0.5 * (plus_angle + minus_angle))
    };
    Euler { delta: f(delta), gamma: f(gamma), beta: f(beta) }
}

/// Brings the qubits of a gate together along a shortest path, and back.
fn route(circuit: &Circuit, map: &CouplingMap) -> Circuit {
    let mut out = Circuit::new(circuit.num_qubits);
    out.num_clbits = circuit.num_clbits;
    for g in &circuit.gates {
        let w = g.qubits();
        if w.len() < 2 || map.is_adjacent(w[0], w[1]) {
            out.push(g.clone());
            continue;
        }
        let path = map.shortest_path(w[0], w[1]).unwrap();
        let near = path[path.len() - 2];
        let steps = path.len() - 2;
        for i in 0..steps {
            out.push(Gate::Swap(path[i], path[i + 1]));
        }
        out.push(moved(g, w[0], near));
        for i in (0..steps).rev() {
            out.push(Gate::Swap(path[i], path[i + 1]));
        }
    }
    out
}

fn moved(g: &Gate, from: usize, to: usize) -> Gate {
    let m = |q: usize| if q == from { to } else { q };
    match *g {
        Gate::Cx(a, b) => Gate::Cx(m(a), m(b)),
        Gate::Cz(a, b) => Gate::Cz(m(a), m(b)),
        Gate::Swap(a, b) => Gate::Swap(m(a), m(b)),
        Gate::Rxx(a, b, t) => Gate::Rxx(m(a), m(b), t),
        Gate::Ryy(a, b, t) => Gate::Ryy(m(a), m(b), t),
        Gate::Rzz(a, b, t) => Gate::Rzz(m(a), m(b), t),
        Gate::Cp(a, b, t) => Gate::Cp(m(a), m(b), t),
        _ => g.clone(),
    }
}

fn bits(n: usize) -> Vec<u8> {
    vec![0; n]
}

#[test]
fn emitted_text_is_read_back() {
    let mut nc = NativeCircuit::new(12);
    nc.num_clbits = 11;
    let angles = [0.0, -0.0, 1e-300, -1e300, 0.1, std::f64::consts::PI, 1e21, f64::INFINITY];
    let mut expected = Vec::new();
    for (i, a) in angles.iter().enumerate() {
        nc.push(NativeGate::Rz(i, f(*a)));
        expected.push(Gate::Rz(i, f(*a)));
        nc.push(NativeGate::Rzz(i, 11, f(*a)));
        expected.push(Gate::Rzz(i, 11, f(*a)));
    }
    nc.push(NativeGate::Measure(11, 10));
    expected.push(Gate::Measure(11, 10));
    nc.push(NativeGate::If(Conditions::bit(10, false), Box::new(NativeGate::Ry(3, f(-0.25)))));
    expected.push(Gate::If(Conditions::bit(10, false), Box::new(Gate::Ry(3, f(-0.25)))));
    for text in [to_qasm(&nc, "a // b; c"), to_qasm3(&nc, "a // b; c")] {
        let back = parse(&text).unwrap();
        assert_eq!(back.num_qubits, 12);
        assert_eq!(back.num_clbits, 11);
        assert_eq!(back.gates, expected);
    }
}

#[test]
fn a_name_on_two_lines_is_not_read_back() {
    let nc = NativeCircuit::new(1);
    assert!(parse(&to_qasm(&nc, "a\nb")).is_err());
}

#[test]
fn lowered_circuits_keep_to_their_gate_set_and_map() {
    let mut c = Circuit::new(5);
    c.num_clbits = 2;
    c.push(Gate::H(0)).push(Gate::Cx(0, 4)).push(Gate::Swap(1, 3)).push(Gate::Cp(2, 4, f(0.7)));
    c.push(Gate::Measure(0, 0)).push(Gate::Measure(4, 1));
    for backend in [Backend::TrappedIon, Backend::IbmQ, Backend::Rigetti, Backend::Google] {
        let map = backend.coupling_map(5);
        let bc = lower(&c, backend, &route, &euler);
        let mut measured = Vec::new();
        for g in &bc.gates {
            match *g {
                BackendGate::Cx(a, b) => {
                    assert_eq!(backend, Backend::IbmQ);
                    assert!(map.as_ref().unwrap().is_adjacent(a, b));
                }
                BackendGate::Cz(a, b) => {
                    assert!(backend == Backend::Rigetti || backend == Backend::Google);
                    assert!(map.as_ref().unwrap().is_adjacent(a, b));
                }
                BackendGate::Rzz(..) => assert_eq!(backend, Backend::TrappedIon),
                BackendGate::Measure(_, k) => measured.push(k),
                _ => {}
            }
        }
        assert_eq!(measured, vec![0, 1]);
    }
}

#[test]
fn optimizers_keep_classical_gates_in_order() {
    let guarded = BackendGate::If(Conditions::bit(0, true), Box::new(BackendGate::Cz(0, 1)));
    let mut bc = BackendCircuit::new(Backend::Rigetti, 3);
    bc.push(BackendGate::Rz(0, f(0.3)));
    bc.push(BackendGate::Measure(0, 0));
    bc.push(BackendGate::Rz(2, f(0.2)));
    bc.push(guarded.clone());
    bc.push(BackendGate::Rz(2, f(-0.2)));
    bc.push(BackendGate::Measure(1, 1));
    optimize(&mut bc);
    let classical = |gates: &Vec<BackendGate>| -> Vec<BackendGate> {
        gates
            .iter()
            .filter(|g| matches!(g, BackendGate::Measure(..) | BackendGate::If(..)))
            .cloned()
            .collect()
    };
    let want = vec![BackendGate::Measure(0, 0), guarded, BackendGate::Measure(1, 1)];
    assert_eq!(classical(&bc.gates), want);
    assert_eq!(bc.gates.len(), 4, "{:?}", bc.gates);
    resynthesize(&mut bc, &euler);
    assert_eq!(classical(&bc.gates), want);
}

#[test]
fn runs_of_one_qubit_become_at_most_three_gates() {
    let mut bc = BackendCircuit::new(Backend::TrappedIon, 2);
    for k in 0..5 {
        bc.push(BackendGate::Rz(0, f(0.1 * k as f64 + 0.1)));
        bc.push(BackendGate::Rot(1, f(0.2)));
        bc.push(BackendGate::Rot(0, f(0.3)));
    }
    resynthesize(&mut bc, &euler);
    let on = |q: usize| bc.gates.iter().filter(|g| g.qubits()[0] == q).count();
    assert!(on(0) <= 3 && on(1) <= 3, "{:?}", bc.gates);
}

#[test]
fn histograms_do_not_depend_on_order() {
    let a = vec![("10".to_string(), 7), ("00".to_string(), 12), ("01".to_string(), 3)];
    let mut b = a.clone();
    b.reverse();
    let text = counts_to_json(&a);
    assert_eq!(text, "{\n  \"00\": 12,\n  \"01\": 3,\n  \"10\": 7\n}\n");
    assert_eq!(counts_to_json(&b), text);
    assert_eq!(counts_to_json(&Vec::new()), "{\n\n}\n");
    assert_eq!(outcome_text(&vec![1, 0, 0]), "001");
}

#[test]
fn overlapping_instructions_get_columns_in_order() {
    let mut c = Circuit::new(4);
    c.num_clbits = 1;
    c.push(Gate::H(3)).push(Gate::Cx(0, 2)).push(Gate::X(1)).push(Gate::X(3)).push(Gate::Measure(0, 0));
    let d = Diagram::from_circuit(&c);
    assert_eq!(assign_columns(&d.instrs, 4), vec![0, 0, 1, 1, 1]);
    assert_eq!(assign_columns_svg(&d.instrs, 4), vec![0, 0, 1, 1, 2]);
}

#[test]
fn diagrams_as_text() {
    let mut c = Circuit::new(3);
    c.num_clbits = 1;
    c.push(Gate::H(0)).push(Gate::Cx(0, 2)).push(Gate::Rz(1, f(0.5))).push(Gate::Measure(2, 0));
    let text = Diagram::from_circuit(&c).to_ascii();
    assert_eq!(
        text,
        "q0: [H]-*-----------\nq1: ----|-[RZ(0.50)]\nq2: ---(+)-[M->c0]--"
    );
}

#[test]
fn diagrams_as_svg() {
    let mut c = Circuit::new(1);
    c.num_clbits = 1;
    c.push(Gate::Measure(0, 0));
    let svg = Diagram::from_circuit(&c).to_svg();
    let line = "stroke=\"black\" stroke-width=\"1.5\"/>";
    let want = [
        "<svg xmlns=\"http://www.w3.org/2000/svg\" viewBox=\"0 0 180.0 200.0\" font-family=\"monospace\" font-size=\"14\">",
        "<text x=\"10\" y=\"60.0\" dominant-baseline=\"middle\">q0</text>",
        "<line x1=\"70.0\" y1=\"60.0\" x2=\"150.0\" y2=\"60.0\" ",
        line,
        "<text x=\"10\" y=\"140.0\" dominant-baseline=\"middle\">c0</text>",
        "<line x1=\"70.0\" y1=\"138.0\" x2=\"150.0\" y2=\"138.0\" ",
        line,
        "<line x1=\"70.0\" y1=\"142.0\" x2=\"150.0\" y2=\"142.0\" ",
        line,
        "<rect x=\"80.0\" y=\"44.0\" width=\"60.0\" height=\"32.0\" fill=\"white\" ",
        line,
        "<text x=\"110.0\" y=\"60.0\" text-anchor=\"middle\" dominant-baseline=\"middle\">M</text>",
        "<line x1=\"108.0\" y1=\"76.0\" x2=\"108.0\" y2=\"140.0\" ",
        line,
        "<line x1=\"112.0\" y1=\"76.0\" x2=\"112.0\" y2=\"140.0\" ",
        line,
        "</svg>",
    ]
    .concat();
    assert_eq!(svg, want);
}

#[test]
fn bits_decide_what_runs() {
    let guarded = NativeGate::If(Conditions::bits(0, true, 1, false), Box::new(NativeGate::Rz(2, f(1.0))));
    assert_eq!(native_operation(&guarded, &vec![1, 0]), Ok(Some(Operation::Rz(2, f(1.0)))));
    assert_eq!(native_operation(&guarded, &vec![1, 1]), Ok(None));
    assert_eq!(
        native_operation(&guarded, &vec![1]),
        Err("If reads classical bit 1 but only 1 were provided".to_string())
    );
    assert_eq!(
        backend_operation(&BackendGate::Rot(1, f(0.5)), RotAxis::Rx, &bits(0)),
        Ok(Some(Operation::Rx(1, f(0.5))))
    );
    let mut clbits = bits(2);
    assert_eq!(record_outcome(&mut clbits, 1, 1), Ok(()));
    assert_eq!(clbits, vec![0, 1]);
    assert_eq!(
        record_outcome(&mut clbits, 2, 1),
        Err("Measure writes classical bit 2 but only 2 were provided".to_string())
    );
}

#[test]
fn a_run_passes_over_gates_whose_conditions_fail() {
    let mut nc = NativeCircuit::new(2);
    nc.num_clbits = 1;
    nc.push(NativeGate::Measure(0, 0));
    nc.push(NativeGate::If(Conditions::bit(0, true), Box::new(NativeGate::Ry(1, f(0.5)))));
    nc.push(NativeGate::Rz(1, f(0.25)));
    for outcome in [0u8, 1] {
        let mut run = Execution::new(1);
        assert_eq!(run.next(&nc), Ok(Some(Operation::Measure(0, 0))));
        run.record(0, outcome).unwrap();
        if outcome == 1 {
            assert_eq!(run.next(&nc), Ok(Some(Operation::Ry(1, f(0.5)))));
        }
        assert_eq!(run.next(&nc), Ok(Some(Operation::Rz(1, f(0.25)))));
        assert_eq!(run.next(&nc), Ok(None));
        assert_eq!(run.at, 3);
    }
}

#[test]
fn operations_without_bits_refuse_classical_gates() {
    let measure = native_operation_without_bits(&NativeGate::Measure(0, 0)).unwrap_err();
    assert_eq!(
        measure,
        "NativeGate::Measure is not supported by emit::apply_to -- this entry point returns no classical outcomes; use apply_to_with_measurement (or run_with_measurement) instead"
    );
    let measure =
        backend_operation_without_bits(&BackendGate::Measure(0, 0), RotAxis::Ry).unwrap_err();
    assert_eq!(
        measure,
        "BackendGate::Measure is not supported by emit::apply_backend_to -- this entry point returns no classical outcomes; use apply_backend_to_with_measurement (or run_backend_with_measurement) instead"
    );
    let guarded = NativeGate::If(Conditions::bit(0, true), Box::new(NativeGate::Rz(0, f(1.0))));
    assert!(native_operation_without_bits(&guarded).is_err());
    assert_eq!(
        backend_operation_without_bits(&BackendGate::Cz(0, 1), RotAxis::Rx),
        Ok(Operation::ControlledZ(0, 1))
    );
}

#[test]
fn errors_and_corrections_are_operations() {
    assert_eq!(pauli_error_operation(3, PauliError::Y), Operation::Y(3));
    let code = RepetitionCode::new(5, PauliCorrection::Z);
    assert_eq!(correction_operations(&code, &[0, 1, 1, 0]), vec![Operation::Z(2)]);
    assert_eq!(correction_operations(&code, &[1, 0, 0, 1]), vec![Operation::Z(0), Operation::Z(4)]);
    assert_eq!(correction_operations(&code, &[0, 0, 0, 0]), vec![]);
}

#[test]
fn rounds_of_error_correction_have_their_qubits_in_order() {
    let code = RepetitionCode::new(3, PauliCorrection::X);
    let first = syndrome_circuit(&code, &vec![Gate::H(0)], &Some(Gate::X(1)));
    assert_eq!(first.num_qubits, 5);
    assert_eq!(first.num_clbits, 2);
    assert_eq!(
        first.gates,
        vec![
            Gate::H(0),
            Gate::Cx(0, 1),
            Gate::Cx(0, 2),
            Gate::X(1),
            Gate::Cx(0, 3),
            Gate::Cx(1, 3),
            Gate::Measure(3, 0),
            Gate::Cx(1, 4),
            Gate::Cx(2, 4),
            Gate::Measure(4, 1),
        ]
    );
    assert_eq!(decoding_circuit(&code).gates, vec![Gate::Cx(0, 2), Gate::Cx(0, 1)]);
    assert_eq!(compiled(&decoding_circuit(&code), &euler).num_qubits, 5);
}

#[test]
fn gates_are_counted_by_name() {
    let mut c = Circuit::new(2);
    c.push(Gate::T(0)).push(Gate::Cx(0, 1)).push(Gate::H(1)).push(Gate::Cx(1, 0));
    c.push(Gate::If(Conditions::bit(0, true), Box::new(Gate::X(0))));
    assert_eq!(c.gate_counts(), vec![("cx", 2), ("h", 1), ("if", 1), ("t", 1)]);
}

#[test]
fn an_error_leaves_a_run_where_it_stands() {
    let mut nc = NativeCircuit::new(1);
    nc.push(NativeGate::Rz(0, f(0.5)));
    nc.push(NativeGate::If(Conditions::bit(3, true), Box::new(NativeGate::Rz(0, f(0.5)))));
    let mut run = Execution::new(1);
    assert!(run.next(&nc).unwrap().is_some());
    assert_eq!(run.at, 1);
    assert!(run.next(&nc).is_err());
    assert_eq!(run.at, 1);
}
