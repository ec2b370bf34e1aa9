use qutub_transpiler::angle::wrap_angle;
use qutub_transpiler::binary64::Binary64;
use qutub_transpiler::native::{NativeCircuit, NativeGate};
use qutub_transpiler::optimize::optimize;

fn f(x: f64) -> Binary64 {
    Binary64::from_bits(x.to_bits())
}

#[test]
fn merges_adjacent_same_axis_rotations() {
    let mut nc = NativeCircuit::new(1);
    nc.push(NativeGate::Rz(0, f(0.3)));
    nc.push(NativeGate::Rz(0, f(0.4)));
    let opt = optimize(&nc);
    assert_eq!(opt.gates, vec![NativeGate::Rz(0, wrap_angle(f(0.7)))]);
}

#[test]
fn drops_gates_that_cancel_to_zero() {
    let mut nc = NativeCircuit::new(1);
    nc.push(NativeGate::Ry(0, f(0.5)));
    nc.push(NativeGate::Ry(0, f(-0.5)));
    let opt = optimize(&nc);
    assert!(opt.gates.is_empty());
}

#[test]
fn does_not_merge_across_a_different_qubit_gate() {
    let mut nc = NativeCircuit::new(2);
    nc.push(NativeGate::Rz(0, f(0.3)));
    nc.push(NativeGate::Rz(1, f(0.1)));
    nc.push(NativeGate::Rz(0, f(0.4)));
    let opt = optimize(&nc);
    assert_eq!(opt.gates.len(), 3, "gates on q0 aren't adjacent, shouldn't merge");
}

#[test]
fn never_drops_or_merges_measure() {
    let mut nc = NativeCircuit::new(1);
    nc.push(NativeGate::Rz(0, f(0.0))); // would be dropped on its own
    nc.push(NativeGate::Measure(0, 0));
    let opt = optimize(&nc);
    assert_eq!(opt.gates, vec![NativeGate::Measure(0, 0)]);
}

#[test]
fn merges_rzz_regardless_of_qubit_order() {
    let mut nc = NativeCircuit::new(2);
    nc.push(NativeGate::Rzz(0, 1, f(0.2)));
    nc.push(NativeGate::Rzz(1, 0, f(0.3)));
    let opt = optimize(&nc);
    assert_eq!(opt.gates, vec![NativeGate::Rzz(0, 1, wrap_angle(f(0.5)))]);
}

#[test]
fn a_second_run_changes_nothing() {
    let mut nc = NativeCircuit::new(2);
    nc.push(NativeGate::Rz(0, f(0.3)));
    nc.push(NativeGate::Ry(0, f(0.5)));
    nc.push(NativeGate::Ry(0, f(-0.5)));
    nc.push(NativeGate::Rz(0, f(0.25)));
    nc.push(NativeGate::Rzz(0, 1, f(1.0)));
    let once = optimize(&nc);
    assert_eq!(once.gates.len(), 2);
    assert_eq!(optimize(&once).gates, once.gates);
}
