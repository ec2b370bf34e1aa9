use qutub_transpiler::angle::{Euler, Turn};
use qutub_transpiler::backend::{lower, Backend};
use qutub_transpiler::binary64::Binary64;
use qutub_transpiler::coupling::CouplingMap;
use qutub_transpiler::diagram::Diagram;
use qutub_transpiler::diagram::ascii::assign_columns;
use qutub_transpiler::ir::{Circuit, Gate};
use qutub_transpiler::native::{decompose, NativeCircuit, NativeGate};

fn f(x: f64) -> Binary64 {
    Binary64::from_bits(x.to_bits())
}

fn value(x: Binary64) -> f64 {
    f64::from_bits(x.to_bits())
}

#[derive(Clone, Copy)]
struct C {
    re: f64,
    im: f64,
}

fn c(re: f64, im: f64) -> C {
    C { re, im }
}

fn polar(theta: f64) -> C {
    c(theta.cos(), theta.sin())
}

fn times(a: C, b: C) -> C {
    c(a.re * b.re - a.im * b.im, a.re * b.im + a.im * b.re)
}

fn plus(a: C, b: C) -> C {
    c(a.re + b.re, a.im + b.im)
}

fn modulus(a: C) -> f64 {
    (a.re * a.re + a.im * a.im).sqrt()
}

fn argument(a: C) -> f64 {
    a.im.atan2(a.re)
}

fn matrix(t: &Turn) -> [[C; 2]; 2] {
    let o = c(0.0, 0.0);
    let i = c(1.0, 0.0);
    match *t {
        Turn::H => {
            let s = 1.0 / std::f64::consts::SQRT_2;
            [[c(s, 0.0), c(s, 0.0)], [c(s, 0.0), c(-s, 0.0)]]
        }
        Turn::X => [[o, i], [i, o]],
        Turn::Y => [[o, c(0.0, -1.0)], [c(0.0, 1.0), o]],
        Turn::Z => [[i, o], [o, c(-1.0, 0.0)]],
        Turn::S => [[i, o], [o, c(0.0, 1.0)]],
        Turn::Sdg => [[i, o], [o, c(0.0, -1.0)]],
        Turn::T => [[i, o], [o, polar(std::f64::consts::FRAC_PI_4)]],
        Turn::Tdg => [[i, o], [o, polar(-std::f64::consts::FRAC_PI_4)]],
        Turn::Rx(a) => {
            let h = value(a) / 2.0;
            [[c(h.cos(), 0.0), c(0.0, -h.sin())], [c(0.0, -h.sin()), c(h.cos(), 0.0)]]
        }
        Turn::Ry(a) => {
            let h = value(a) / 2.0;
            [[c(h.cos(), 0.0), c(-h.sin(), 0.0)], [c(h.sin(), 0.0), c(h.cos(), 0.0)]]
        }
        Turn::Rz(a) => {
            let h = value(a) / 2.0;
            [[polar(-h), o], [o, polar(h)]]
        }
    }
}

/// Euler angles of a series of operations, by their matrices.
fn euler(turns: &Vec<Turn>) -> Euler {
    let mut m = matrix(&turns[0]);
    for t in &turns[1..] {
        let a = matrix(t);
        let mut p = m;
        for i in 0..2 {
            for j in 0..2 {
                p[i][j] = plus(times(a[i][0], m[0][j]), times(a[i][1], m[1][j]));
            }
        }
        m = p;
    }
    let x = times(m[0][0], m[1][1]);
    let y = times(m[0][1], m[1][0]);
    let g = polar(-argument(c(x.re - y.re, x.im - y.im)) / 2.0);
    let v00 = times(g, m[0][0]);
    let v01 = times(g, m[0][1]);
    let cos = modulus(v00);
    let sin = modulus(v01);
    let gamma = 2.0 * sin.atan2(cos);
    let plus_angle = -2.0 * argument(v00);
    let minus_angle = -2.0 * argument(times(v01, c(-1.0, 0.0)));
    let (delta, beta) = if cos < 1e-9 {
        (0.0, minus_angle)
    } else if sin < 1e-9 {
        (0.0, plus_angle)
    } else {
        (0.5 * (plus_angle - minus_angle), 0.5 * (plus_angle + minus_angle))
    };
    Euler { delta: f(delta), gamma: f(gamma), beta: f(beta) }
}

/// Brings the qubits of a gate together along a shortest path, and back.
fn route(circuit: &Circuit, map: &CouplingMap) -> Circuit {
    let mut out = Circuit::new(circuit.num_qubits);
    out.num_clbits = circuit.num_clbits;
    for g in &circuit.gates {
        let w = g.qubits();
        if w.len() < 2 || map.is_adjacent(w[0], w[1]) {
            out.push(g.clone());
            continue;
        }
        let path = map.shortest_path(w[0], w[1]).unwrap();
        let near = path[path.len() - 2];
        let steps = path.len() - 2;
        for i in 0..steps {
            out.push(Gate::Swap(path[i], path[i + 1]));
        }
        out.push(moved(g, w[0], near));
        for i in (0..steps).rev() {
            out.push(Gate::Swap(path[i], path[i + 1]));
        }
    }
    out
}

fn moved(g: &Gate, from: usize, to: usize) -> Gate {
    let m = |q: usize| if q == from { to } else { q };
    match *g {
        Gate::Cx(a, b) => Gate::Cx(m(a), m(b)),
        Gate::Cz(a, b) => Gate::Cz(m(a), m(b)),
        Gate::Swap(a, b) => Gate::Swap(m(a), m(b)),
        Gate::Rxx(a, b, t) => Gate::Rxx(m(a), m(b), t),
        Gate::Ryy(a, b, t) => Gate::Ryy(m(a), m(b), t),
        Gate::Rzz(a, b, t) => Gate::Rzz(m(a), m(b), t),
        Gate::Cp(a, b, t) => Gate::Cp(m(a), m(b), t),
        _ => g.clone(),
    }
}

#[test]
fn single_qubit_gates_render_as_boxes() {
    let mut c = Circuit::new(1);
    c.push(Gate::H(0)).push(Gate::X(0));
    let d = Diagram::from_circuit(&c);
    let ascii = d.to_ascii();
    assert!(ascii.contains("[H]"));
    assert!(ascii.contains("[X]"));
    assert_eq!(ascii.lines().count(), 1, "one qubit -> one wire row");
}

#[test]
fn cx_draws_a_control_dot_and_a_target_symbol() {
    let mut c = Circuit::new(2);
    c.push(Gate::Cx(0, 1));
    let ascii = Diagram::from_circuit(&c).to_ascii();
    assert!(ascii.contains('*'), "control dot missing:\n{}", ascii);
    assert!(ascii.contains("(+)"), "target symbol missing:\n{}", ascii);
}

#[test]
fn distant_two_qubit_gate_shows_a_passthrough_connector() {
    let mut c = Circuit::new(3);
    c.push(Gate::Cx(0, 2));
    let ascii = Diagram::from_circuit(&c).to_ascii();
    let lines: Vec<&str> = ascii.lines().collect();
    assert_eq!(lines.len(), 3);
    assert!(lines[1].contains('|'), "expected a passthrough connector on q1:\n{}", ascii);
}

#[test]
fn disjoint_gates_pack_into_the_same_column() {
    let mut c = Circuit::new(2);
    c.push(Gate::H(0)).push(Gate::H(1));
    let cols = assign_columns(&Diagram::from_circuit(&c).instrs, 2);
    assert_eq!(cols, vec![0, 0]);
}

#[test]
fn overlapping_range_forces_a_new_column() {
    let mut c = Circuit::new(3);
    c.push(Gate::Cx(0, 2)).push(Gate::H(1));
    let cols = assign_columns(&Diagram::from_circuit(&c).instrs, 3);
    assert_eq!(cols, vec![0, 1]);
}

#[test]
fn swap_renders_two_x_markers_connected() {
    let mut c = Circuit::new(2);
    c.push(Gate::Swap(0, 1));
    let ascii = Diagram::from_circuit(&c).to_ascii();
    let lines: Vec<&str> = ascii.lines().collect();
    assert!(lines[0].contains('X'));
    assert!(lines[1].contains('X'));
}

#[test]
fn rzz_renders_as_a_shared_spanning_box() {
    let mut nc = NativeCircuit::new(2);
    nc.push(NativeGate::Rzz(0, 1, f(0.5)));
    let ascii = Diagram::from_native(&nc).to_ascii();
    let lines: Vec<&str> = ascii.lines().collect();
    assert!(lines[0].contains("RZZ"));
    assert!(lines[1].contains("RZZ"));
}

#[test]
fn measure_shows_its_target_clbit() {
    let mut c = Circuit::new(1);
    c.num_clbits = 1;
    c.push(Gate::Measure(0, 0));
    let ascii = Diagram::from_circuit(&c).to_ascii();
    assert!(ascii.contains("M->c0"), "got:\n{}", ascii);
}

#[test]
fn backend_rot_label_matches_the_backend_axis() {
    let mut c = Circuit::new(1);
    c.push(Gate::H(0));

    let ion = lower(&c, Backend::TrappedIon, &route, &euler);
    let ion_ascii = Diagram::from_backend(&ion).to_ascii();
    assert!(ion_ascii.contains("RY"), "TrappedIon should render Rot as RY:\n{}", ion_ascii);

    let ibm = lower(&c, Backend::IbmQ, &route, &euler);
    let ibm_ascii = Diagram::from_backend(&ibm).to_ascii();
    assert!(ibm_ascii.contains("RX"), "IbmQ should render Rot as RX:\n{}", ibm_ascii);
}

#[test]
fn ascii_columns_line_up_across_every_row() {
    let mut c = Circuit::new(3);
    c.push(Gate::H(0))
        .push(Gate::Cx(0, 1))
        .push(Gate::Rz(2, f(0.1234)))
        .push(Gate::Cx(1, 2))
        .push(Gate::Measure(0, 0));
    c.num_clbits = 1;
    let ascii = Diagram::from_circuit(&c).to_ascii();
    let lens: Vec<usize> = ascii.lines().map(|l| l.chars().count()).collect();
    assert!(lens.windows(2).all(|w| w[0] == w[1]), "misaligned rows:\n{}", ascii);
}

#[test]
fn svg_output_is_well_formed_enough_to_be_valid_xml_shaped() {
    let mut c = Circuit::new(2);
    c.push(Gate::H(0)).push(Gate::Cx(0, 1));
    let svg = Diagram::from_circuit(&c).to_svg();
    assert!(svg.starts_with("<svg"));
    assert!(svg.trim_end().ends_with("</svg>"));
    for tag in ["rect", "circle", "line", "text"] {
        let opens = svg.matches(&format!("<{}", tag)).count();
        let self_closed = svg.matches(&format!("<{} ", tag)).count();
        assert_eq!(opens, self_closed, "unclosed <{}> tag in:\n{}", tag, svg);
    }
}

#[test]
fn empty_circuit_renders_without_panicking() {
    let c = Circuit::new(0);
    let d = Diagram::from_circuit(&c);
    assert_eq!(d.to_ascii(), "");
    let svg = d.to_svg();
    assert!(svg.starts_with("<svg"));
}

#[test]
fn full_pipeline_diagram_is_consistent_at_every_level() {
    let mut c = Circuit::new(2);
    c.push(Gate::H(0)).push(Gate::Cx(0, 1)).push(Gate::Rz(1, f(0.3)));

    let source = Diagram::from_circuit(&c);
    assert_eq!(source.num_qubits, 2);
    assert_eq!(source.instrs.len(), 3);

    let native = Diagram::from_native(&decompose(&c, &euler));
    assert_eq!(native.num_qubits, 2);
    assert!(!native.instrs.is_empty());

    let backend_circuit = lower(&c, Backend::IbmQ, &route, &euler);
    let backend_diagram = Diagram::from_backend(&backend_circuit);
    assert_eq!(backend_diagram.num_qubits, backend_circuit.num_qubits);
    assert!(!backend_diagram.to_ascii().is_empty());
    assert!(!backend_diagram.to_svg().is_empty());
}
