use qutub_transpiler::binary64::Binary64;
use qutub_transpiler::fidelity::PublishedCalibration;

fn f(x: f64) -> Binary64 {
    Binary64::from_bits(x.to_bits())
}

fn value(x: Binary64) -> f64 {
    f64::from_bits(x.to_bits())
}

#[test]
fn quantinuum_wrapper_matches_the_real_hardware_calibration_exactly() {
    let wrapped = PublishedCalibration::quantinuum_helios_2026();
    let real = sirraya_qutub::xeb::HardwareCalibration::quantinuum_helios_2026();
    assert_eq!(wrapped.name, real.name);
    assert_eq!(value(wrapped.single_qubit_fidelity), real.single_qubit_fidelity);
    assert_eq!(value(wrapped.two_qubit_fidelity), real.two_qubit_fidelity);
}

#[test]
fn depolarizing_probability_formula_matches_the_real_crate_for_arbitrary_fidelities() {
    for &fidelity in &[0.9, 0.99, 0.999975, 0.99921, 1.0, 0.5] {
        for num_qubits in [1usize, 2usize] {
            let ours = value(PublishedCalibration::fidelity_to_depolarizing_probability(
                f(fidelity),
                num_qubits,
            ));
            let theirs = sirraya_qutub::xeb::HardwareCalibration::fidelity_to_depolarizing_probability(
                fidelity, num_qubits,
            );
            assert!(
                (ours - theirs).abs() < 1e-15,
                "fidelity {} num_qubits {}: ours {} vs theirs {}",
                fidelity, num_qubits, ours, theirs
            );
        }
    }
}
