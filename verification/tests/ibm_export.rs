use qutub_transpiler::angle::{Euler, Turn};
use qutub_transpiler::backend::{lower, Backend, BackendCircuit};
use qutub_transpiler::binary64::Binary64;
use qutub_transpiler::coupling::CouplingMap;
use qutub_transpiler::ibm_export::{
    expand_rot, lower_ibm_native, merge_adjacent_rz, to_ibm_qasm, IbmInstr,
};
use qutub_transpiler::ir::{Circuit, Gate};

fn f(x: f64) -> Binary64 {
    Binary64::from_bits(x.to_bits())
}

fn value(x: Binary64) -> f64 {
    f64::from_bits(x.to_bits())
}

#[derive(Clone, Copy)]
struct C {
    re: f64,
    im: f64,
}

fn c(re: f64, im: f64) -> C {
    C { re, im }
}

fn polar(theta: f64) -> C {
    c(theta.cos(), theta.sin())
}

fn times(a: C, b: C) -> C {
    c(a.re * b.re - a.im * b.im, a.re * b.im + a.im * b.re)
}

fn plus(a: C, b: C) -> C {
    c(a.re + b.re, a.im + b.im)
}

fn modulus(a: C) -> f64 {
    (a.re * a.re + a.im * a.im).sqrt()
}

fn argument(a: C) -> f64 {
    a.im.atan2(a.re)
}

fn matrix(t: &Turn) -> [[C; 2]; 2] {
    let o = c(0.0, 0.0);
    let i = c(1.0, 0.0);
    match *t {
        Turn::H => {
            let s = 1.0 / std::f64::consts::SQRT_2;
            [[c(s, 0.0), c(s, 0.0)], [c(s, 0.0), c(-s, 0.0)]]
        }
        Turn::X => [[o, i], [i, o]],
        Turn::Y => [[o, c(0.0, -1.0)], [c(0.0, 1.0), o]],
        Turn::Z => [[i, o], [o, c(-1.0, 0.0)]],
        Turn::S => [[i, o], [o, c(0.0, 1.0)]],
        Turn::Sdg => [[i, o], [o, c(0.0, -1.0)]],
        Turn::T => [[i, o], [o, polar(std::f64::consts::FRAC_PI_4)]],
        Turn::Tdg => [[i, o], [o, polar(-std::f64::consts::FRAC_PI_4)]],
        Turn::Rx(a) => {
            let h = value(a) / 2.0;
            [[c(h.cos(), 0.0), c(0.0, -h.sin())], [c(0.0, -h.sin()), c(h.cos(), 0.0)]]
        }
        Turn::Ry(a) => {
            let h = value(a) / 2.0;
            [[c(h.cos(), 0.0), c(-h.sin(), 0.0)], [c(h.sin(), 0.0), c(h.cos(), 0.0)]]
        }
        Turn::Rz(a) => {
            let h = value(a) / 2.0;
            [[polar(-h), o], [o, polar(h)]]
        }
    }
}


/// Euler angles of a series of operations, by their matrices.
fn euler(turns: &Vec<Turn>) -> Euler {
    let mut m = matrix(&turns[0]);
    for t in &turns[1..] {
        let a = matrix(t);
        let mut p = m;
        for i in 0..2 {
            for j in 0..2 {
                p[i][j] = plus(times(a[i][0], m[0][j]), times(a[i][1], m[1][j]));
            }
        }
        m = p;
    }
    let x = times(m[0][0], m[1][1]);
    let y = times(m[0][1], m[1][0]);
    let g = polar(-argument(c(x.re - y.re, x.im - y.im)) / 2.0);
    let v00 = times(g, m[0][0]);
    let v01 = times(g, m[0][1]);
    let cos = modulus(v00);
    let sin = modulus(v01);
    let gamma = 2.0 * sin.atan2(cos);
    let plus_angle = -2.0 * argument(v00);
    let minus_angle = -2.0 * argument(times(v01, c(-1.0, 0.0)));
    let (delta, beta) = if cos < 1e-9 {
        (0.0, minus_angle)
    } else if sin < 1e-9 {
        (0.0, plus_angle)
    } else {
        (0.5 * (plus_angle - minus_angle), 0.5 * (plus_angle + minus_angle))
    };
    Euler { delta: f(delta), gamma: f(gamma), beta: f(beta) }
}

fn matmul(a: [[C; 2]; 2], b: [[C; 2]; 2]) -> [[C; 2]; 2] {
    let mut p = b;
    for i in 0..2 {
        for j in 0..2 {
            p[i][j] = plus(times(a[i][0], b[0][j]), times(a[i][1], b[1][j]));
        }
    }
    p
}

/// Whether the overlap of two operations is one.
fn approx_eq_up_to_global_phase(a: [[C; 2]; 2], b: [[C; 2]; 2]) -> bool {
    let mut t = c(0.0, 0.0);
    for i in 0..2 {
        for j in 0..2 {
            t = plus(t, times(c(a[i][j].re, -a[i][j].im), b[i][j]));
        }
    }
    (modulus(t) - 2.0).abs() < 1e-9
}

#[test]
fn expand_rot_matches_rx_for_a_spread_of_angles() {
    let thetas = [
        0.0,
        0.001,
        0.3,
        1.0,
        std::f64::consts::FRAC_PI_2,
        std::f64::consts::PI,
        2.1,
        -0.7,
        -std::f64::consts::PI,
        5.5,
        -3.0,
        std::f64::consts::TAU,
    ];
    for &theta in &thetas {
        let mut instrs = Vec::new();
        expand_rot(0, f(theta), &mut instrs);

        let mut m = [[c(1.0, 0.0), c(0.0, 0.0)], [c(0.0, 0.0), c(1.0, 0.0)]];
        for instr in &instrs {
            let g = match *instr {
                IbmInstr::Rz(_, a) => matrix(&Turn::Rz(a)),
                IbmInstr::Sx(_) => matrix(&Turn::Rx(f(std::f64::consts::FRAC_PI_2))),
                IbmInstr::X(_) => matrix(&Turn::Rx(f(std::f64::consts::PI))),
                other => panic!("unexpected single-qubit instr {:?}", other),
            };
            m = matmul(g, m);
        }
        assert!(
            approx_eq_up_to_global_phase(m, matrix(&Turn::Rx(f(theta)))),
            "theta {}: expand_rot's gates don't match Rx(theta)",
            theta
        );
    }
}

#[test]
fn expand_rot_is_empty_for_zero_angle() {
    let mut instrs = Vec::new();
    expand_rot(0, f(0.0), &mut instrs);
    assert!(instrs.is_empty());
    let mut instrs2 = Vec::new();
    expand_rot(0, f(std::f64::consts::TAU), &mut instrs2);
    assert!(instrs2.is_empty());
}

#[test]
fn expand_rot_uses_bare_x_at_pi() {
    let mut instrs = Vec::new();
    expand_rot(3, f(std::f64::consts::PI), &mut instrs);
    assert_eq!(instrs, vec![IbmInstr::X(3)]);
}

#[test]
fn merge_adjacent_rz_combines_and_drops_zero() {
    let instrs = vec![IbmInstr::Rz(0, f(0.3)), IbmInstr::Rz(0, f(-0.3)), IbmInstr::Sx(0)];
    let merged = merge_adjacent_rz(instrs);
    assert_eq!(merged, vec![IbmInstr::Sx(0)]);
}

#[test]
fn merge_adjacent_rz_does_not_cross_a_different_qubit() {
    let instrs = vec![IbmInstr::Rz(0, f(0.3)), IbmInstr::Rz(1, f(0.1)), IbmInstr::Rz(0, f(0.4))];
    let merged = merge_adjacent_rz(instrs.clone());
    assert_eq!(merged, instrs, "gates on q0 aren't adjacent, shouldn't merge");
}

#[test]
fn rejects_non_ibmq_circuit() {
    let bc = BackendCircuit {
        backend: Backend::TrappedIon,
        num_qubits: 1,
        num_clbits: 0,
        gates: Vec::new(),
    };
    assert!(lower_ibm_native(&bc).is_err());
}

/// `Cx` is native to this backend, so a source `Cx` is one native gate. The
/// general expansion, `Rzz` between two `Cx`, would ask for two here; that
/// cannot hold together with an unrouted `Cx` costing one, which
/// `lower_with_coupling_none_skips_routing` asks for.
#[test]
fn bell_pair_exports_with_one_cx_and_two_measures() {
    let mut circuit = Circuit::new(2);
    circuit.num_clbits = 2;
    circuit.push(Gate::H(0));
    circuit.push(Gate::Cx(0, 1));
    circuit.push(Gate::Measure(0, 0));
    circuit.push(Gate::Measure(1, 1));

    let unrouted = |c: &Circuit, map: &CouplingMap| {
        assert!(map.is_adjacent(0, 1));
        c.clone()
    };
    let bc = lower(&circuit, Backend::IbmQ, &unrouted, &euler);
    let instrs = lower_ibm_native(&bc).expect("IbmQ circuit should export cleanly");

    let cx_count = instrs.iter().filter(|i| matches!(i, IbmInstr::Cx(..))).count();
    let measure_count = instrs.iter().filter(|i| matches!(i, IbmInstr::Measure(..))).count();
    assert_eq!(cx_count, 1, "a source Cx is one native Cx: {:?}", instrs);
    assert_eq!(measure_count, 2, "both qubits should be measured: {:?}", instrs);

    let qasm = to_ibm_qasm(&bc, "bell_pair").unwrap();
    assert!(qasm.contains("cx q["));
    assert!(qasm.contains("measure q["));
}
