use qutub_transpiler::binary64::Binary64;
use qutub_transpiler::emit::{to_qasm, to_qasm3};
use qutub_transpiler::ir::Gate;
use qutub_transpiler::native::{NativeCircuit, NativeGate};
use qutub_transpiler::qasm::parse;

fn f(x: f64) -> Binary64 {
    Binary64::from_bits(x.to_bits())
}

fn sample_circuit() -> NativeCircuit {
    let mut nc = NativeCircuit::new(2);
    nc.num_clbits = 2;
    nc.push(NativeGate::Ry(0, f(std::f64::consts::FRAC_PI_4)));
    nc.push(NativeGate::Rzz(0, 1, f(1.2)));
    nc.push(NativeGate::Measure(0, 0));
    nc.push(NativeGate::Measure(1, 1));
    nc
}

#[test]
fn to_qasm3_round_trips_through_qasm_parse() {
    let nc = sample_circuit();
    let text = to_qasm3(&nc, "bell_like");
    let circuit = parse(&text).expect("emitted QASM3 should re-parse");
    assert_eq!(circuit.num_qubits, 2);
    assert_eq!(circuit.num_clbits, 2);
    assert_eq!(
        circuit.gates,
        vec![
            Gate::Ry(0, f(std::f64::consts::FRAC_PI_4)),
            Gate::Rzz(0, 1, f(1.2)),
            Gate::Measure(0, 0),
            Gate::Measure(1, 1),
        ]
    );
}

#[test]
fn to_qasm_and_to_qasm3_parse_back_to_the_same_circuit() {
    let nc = sample_circuit();
    let c2 = parse(&to_qasm(&nc, "x")).unwrap();
    let c3 = parse(&to_qasm3(&nc, "x")).unwrap();
    assert_eq!(c2.gates, c3.gates);
    assert_eq!(c2.num_qubits, c3.num_qubits);
    assert_eq!(c2.num_clbits, c3.num_clbits);
}

#[test]
fn to_qasm3_uses_qasm3_syntax_markers() {
    let nc = sample_circuit();
    let text = to_qasm3(&nc, "x");
    assert!(text.starts_with("OPENQASM 3.0;\n"));
    assert!(text.contains("include \"stdgates.inc\";"));
    assert!(text.contains("qubit[2] q;"));
    assert!(text.contains("bit[2] c;"));
    assert!(text.contains("c[0] = measure q[0];"));
    assert!(!text.contains("qreg"));
    assert!(!text.contains("->"));
}
