use qutub_transpiler::angle::{Euler, Turn};
use qutub_transpiler::binary64::Binary64;
use qutub_transpiler::ir::{Circuit, Conditions, Gate};
use qutub_transpiler::resource_estimate::{
    estimate_circuit_resources, estimate_circuit_resources_with_epsilon, rotation_t_cost,
    RotationSynthesis, DEFAULT_ROTATION_EPSILON,
};
use std::f64::consts::{PI, TAU};

fn f(x: f64) -> Binary64 {
    Binary64::from_bits(x.to_bits())
}

fn value(x: Binary64) -> f64 {
    f64::from_bits(x.to_bits())
}

#[derive(Clone, Copy)]
struct C {
    re: f64,
    im: f64,
}

fn c(re: f64, im: f64) -> C {
    C { re, im }
}

fn polar(theta: f64) -> C {
    c(theta.cos(), theta.sin())
}

fn times(a: C, b: C) -> C {
    c(a.re * b.re - a.im * b.im, a.re * b.im + a.im * b.re)
}

fn plus(a: C, b: C) -> C {
    c(a.re + b.re, a.im + b.im)
}

fn modulus(a: C) -> f64 {
    (a.re * a.re + a.im * a.im).sqrt()
}

fn argument(a: C) -> f64 {
    a.im.atan2(a.re)
}

fn matrix(t: &Turn) -> [[C; 2]; 2] {
    let o = c(0.0, 0.0);
    let i = c(1.0, 0.0);
    match *t {
        Turn::H => {
            let s = 1.0 / std::f64::consts::SQRT_2;
            [[c(s, 0.0), c(s, 0.0)], [c(s, 0.0), c(-s, 0.0)]]
        }
        Turn::X => [[o, i], [i, o]],
        Turn::Y => [[o, c(0.0, -1.0)], [c(0.0, 1.0), o]],
        Turn::Z => [[i, o], [o, c(-1.0, 0.0)]],
        Turn::S => [[i, o], [o, c(0.0, 1.0)]],
        Turn::Sdg => [[i, o], [o, c(0.0, -1.0)]],
        Turn::T => [[i, o], [o, polar(std::f64::consts::FRAC_PI_4)]],
        Turn::Tdg => [[i, o], [o, polar(-std::f64::consts::FRAC_PI_4)]],
        Turn::Rx(a) => {
            let h = value(a) / 2.0;
            [[c(h.cos(), 0.0), c(0.0, -h.sin())], [c(0.0, -h.sin()), c(h.cos(), 0.0)]]
        }
        Turn::Ry(a) => {
            let h = value(a) / 2.0;
            [[c(h.cos(), 0.0), c(-h.sin(), 0.0)], [c(h.sin(), 0.0), c(h.cos(), 0.0)]]
        }
        Turn::Rz(a) => {
            let h = value(a) / 2.0;
            [[polar(-h), o], [o, polar(h)]]
        }
    }
}

/// Euler angles of a series of operations, by their matrices.
fn euler(turns: &Vec<Turn>) -> Euler {
    let mut m = matrix(&turns[0]);
    for t in &turns[1..] {
        let a = matrix(t);
        let mut p = m;
        for i in 0..2 {
            for j in 0..2 {
                p[i][j] = plus(times(a[i][0], m[0][j]), times(a[i][1], m[1][j]));
            }
        }
        m = p;
    }
    let x = times(m[0][0], m[1][1]);
    let y = times(m[0][1], m[1][0]);
    let g = polar(-argument(c(x.re - y.re, x.im - y.im)) / 2.0);
    let v00 = times(g, m[0][0]);
    let v01 = times(g, m[0][1]);
    let cos = modulus(v00);
    let sin = modulus(v01);
    let gamma = 2.0 * sin.atan2(cos);
    let plus_angle = -2.0 * argument(v00);
    let minus_angle = -2.0 * argument(times(v01, c(-1.0, 0.0)));
    let (delta, beta) = if cos < 1e-9 {
        (0.0, minus_angle)
    } else if sin < 1e-9 {
        (0.0, plus_angle)
    } else {
        (0.5 * (plus_angle - minus_angle), 0.5 * (plus_angle + minus_angle))
    };
    Euler { delta: f(delta), gamma: f(gamma), beta: f(beta) }
}

fn epsilon() -> Binary64 {
    Binary64::from_bits(DEFAULT_ROTATION_EPSILON)
}

/// Three T gates for each bit of precision.
fn synthesis_cost(epsilon: Binary64) -> usize {
    (3.0 * (1.0 / value(epsilon)).log2()).ceil().max(1.0) as usize
}

#[test]
fn identity_angle_costs_nothing() {
    let cost = rotation_t_cost(f(0.0), epsilon(), &synthesis_cost);
    assert_eq!(cost.synthesis, RotationSynthesis::Identity);
    assert_eq!(cost.t_count, 0);
    let cost2 = rotation_t_cost(f(TAU), epsilon(), &synthesis_cost);
    assert_eq!(cost2.synthesis, RotationSynthesis::Identity);
}

#[test]
fn pi_over_2_multiples_are_clifford() {
    for k in [1, 2, 3, -1, -2] {
        let cost = rotation_t_cost(f(k as f64 * PI / 2.0), epsilon(), &synthesis_cost);
        assert_eq!(
            cost.synthesis,
            RotationSynthesis::Clifford,
            "angle {} * pi/2 should be exact Clifford",
            k
        );
        assert_eq!(cost.t_count, 0);
    }
}

#[test]
fn odd_pi_over_4_multiples_cost_exactly_one_t() {
    for k in [1, 3, 5, 7, -1, -3] {
        let cost = rotation_t_cost(f(k as f64 * PI / 4.0), epsilon(), &synthesis_cost);
        assert_eq!(
            cost.synthesis,
            RotationSynthesis::ExactT,
            "angle {} * pi/4 should be exact T/Tdg",
            k
        );
        assert_eq!(cost.t_count, 1);
    }
}

#[test]
fn generic_angle_uses_the_asymptotic_estimate_and_shrinks_with_epsilon() {
    let loose = rotation_t_cost(f(0.123456), f(1e-3), &synthesis_cost);
    let tight = rotation_t_cost(f(0.123456), f(1e-12), &synthesis_cost);
    assert_eq!(loose.synthesis, RotationSynthesis::Approximate);
    assert_eq!(tight.synthesis, RotationSynthesis::Approximate);
    assert!(
        tight.t_count > loose.t_count,
        "a tighter epsilon should never cost fewer T gates: loose={} tight={}",
        loose.t_count,
        tight.t_count
    );
}

#[test]
fn invalid_epsilon_falls_back_rather_than_producing_nonsense() {
    let cost = rotation_t_cost(f(0.123456), f(-1.0), &synthesis_cost);
    assert_eq!(cost.synthesis, RotationSynthesis::Approximate);
    assert!(cost.t_count > 0);
}

#[test]
fn h_gate_is_pure_clifford_zero_t_count() {
    let mut c = Circuit::new(1);
    c.push(Gate::H(0));
    let budget = estimate_circuit_resources(&c, &euler, &synthesis_cost);
    assert_eq!(budget.t_count, 0);
    assert!(budget.clifford_count > 0);
}

#[test]
fn t_gate_costs_exactly_one_t() {
    let mut c = Circuit::new(1);
    c.push(Gate::T(0));
    let budget = estimate_circuit_resources(&c, &euler, &synthesis_cost);
    assert_eq!(budget.t_count, 1);
}

#[test]
fn arbitrary_rotation_costs_more_than_zero_t() {
    let mut c = Circuit::new(1);
    c.push(Gate::Rz(0, f(0.123456)));
    let budget = estimate_circuit_resources(&c, &euler, &synthesis_cost);
    assert!(budget.t_count > 0);
    assert_eq!(budget.approximated_rotations, 1);
}

#[test]
fn cx_is_free_two_qubit_rzz_costs_one_rotations_worth() {
    let mut c = Circuit::new(2);
    c.push(Gate::Cx(0, 1));
    let cx_budget = estimate_circuit_resources(&c, &euler, &synthesis_cost);
    assert_eq!(cx_budget.t_count, 0);

    let mut c2 = Circuit::new(2);
    c2.push(Gate::Rzz(0, 1, f(0.123456)));
    let rzz_budget = estimate_circuit_resources(&c2, &euler, &synthesis_cost);
    let single_rotation = rotation_t_cost(f(0.123456), epsilon(), &synthesis_cost).t_count;
    assert_eq!(rzz_budget.t_count, single_rotation);
}

#[test]
fn measure_costs_zero_t_but_is_tracked_separately() {
    let mut c = Circuit::new(1);
    c.num_clbits = 1;
    c.push(Gate::Measure(0, 0));
    let budget = estimate_circuit_resources(&c, &euler, &synthesis_cost);
    assert_eq!(budget.t_count, 0);
    assert_eq!(budget.measurement_count, 1);
}

#[test]
fn conditioned_gate_costs_the_same_as_unconditioned() {
    let mut plain = Circuit::new(1);
    plain.push(Gate::Rz(0, f(0.123456)));
    let plain_budget = estimate_circuit_resources(&plain, &euler, &synthesis_cost);

    let mut conditioned = Circuit::new(2);
    conditioned.num_clbits = 1;
    conditioned.push(Gate::If(Conditions::bit(0, true), Box::new(Gate::Rz(1, f(0.123456)))));
    let conditioned_budget = estimate_circuit_resources(&conditioned, &euler, &synthesis_cost);

    assert_eq!(plain_budget.t_count, conditioned_budget.t_count);
}

#[test]
fn t_depth_counts_sequential_t_layers_not_total_t_count() {
    let mut sequential = Circuit::new(2);
    sequential.push(Gate::T(0)).push(Gate::X(1)).push(Gate::T(0));
    let seq_budget = estimate_circuit_resources(&sequential, &euler, &synthesis_cost);
    assert_eq!(seq_budget.t_count, 2);
    assert_eq!(seq_budget.t_depth, 2);

    let mut parallel = Circuit::new(2);
    parallel.push(Gate::T(0)).push(Gate::T(1));
    let par_budget = estimate_circuit_resources(&parallel, &euler, &synthesis_cost);
    assert_eq!(par_budget.t_count, 2);
    assert_eq!(par_budget.t_depth, 1);
}

#[test]
fn adjacent_same_qubit_t_gates_genuinely_fuse_to_a_clifford() {
    let mut c = Circuit::new(1);
    c.push(Gate::T(0)).push(Gate::T(0));
    let budget = estimate_circuit_resources(&c, &euler, &synthesis_cost);
    assert_eq!(budget.t_count, 0, "adjacent T.T should fuse to S (Clifford) before costing");
}

#[test]
fn tighter_epsilon_never_decreases_t_count_for_a_whole_circuit() {
    let mut c = Circuit::new(1);
    c.push(Gate::Rz(0, f(0.7))).push(Gate::Ry(0, f(1.9)));
    let loose = estimate_circuit_resources_with_epsilon(&c, f(1e-2), &euler, &synthesis_cost);
    let tight = estimate_circuit_resources_with_epsilon(&c, f(1e-15), &euler, &synthesis_cost);
    assert!(tight.t_count >= loose.t_count);
}

#[test]
fn a_finer_precision_never_costs_less() {
    let angles = [0.0, PI / 2.0, PI / 4.0, 0.123456, -2.5];
    let precisions = [1e-300, 1e-12, 1e-10, 1e-3, 0.5];
    for theta in angles {
        for pair in precisions.windows(2) {
            let fine = rotation_t_cost(f(theta), f(pair[0]), &synthesis_cost);
            let coarse = rotation_t_cost(f(theta), f(pair[1]), &synthesis_cost);
            assert_eq!(fine.synthesis, coarse.synthesis);
            assert!(fine.t_count >= coarse.t_count);
        }
    }
    assert_eq!(rotation_t_cost(f(0.123456), f(0.125), &synthesis_cost).t_count, 9);
}
