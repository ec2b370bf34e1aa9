use qutub_transpiler::backend::Backend;
use qutub_transpiler::binary64::Binary64;
use qutub_transpiler::readout::{corrupt_readout, ReadoutCalibration};

fn f(x: f64) -> Binary64 {
    Binary64::from_bits(x.to_bits())
}

fn value(x: Binary64) -> f64 {
    f64::from_bits(x.to_bits())
}

#[test]
fn every_published_calibration_has_valid_probabilities() {
    for cal in [
        ReadoutCalibration::quantinuum_helios_2026(),
        ReadoutCalibration::ibm_heron_r2(),
        ReadoutCalibration::rigetti_ankaa3(),
        ReadoutCalibration::google_willow_2024(),
    ] {
        assert!((0.0..=1.0).contains(&value(cal.p01)), "{}: p01 out of range", cal.name);
        assert!((0.0..=1.0).contains(&value(cal.p10)), "{}: p10 out of range", cal.name);
    }
}

#[test]
fn rigetti_calibration_is_genuinely_asymmetric() {
    let cal = ReadoutCalibration::rigetti_ankaa3();
    assert!(value(cal.p10) > value(cal.p01), "expected the physically-typical p10 > p01 asymmetry");
}

#[test]
fn corrupt_readout_respects_the_strict_less_than_threshold() {
    let cal = ReadoutCalibration {
        name: "test",
        backend: Backend::TrappedIon,
        p01: f(0.1),
        p10: f(0.2),
    };
    assert_eq!(corrupt_readout(0, &cal, f(0.05)), 1);
    assert_eq!(corrupt_readout(0, &cal, f(0.1)), 0); // exactly at threshold: not flipped
    assert_eq!(corrupt_readout(0, &cal, f(0.5)), 0);
    assert_eq!(corrupt_readout(1, &cal, f(0.1)), 0);
    assert_eq!(corrupt_readout(1, &cal, f(0.2)), 1);
    assert_eq!(corrupt_readout(1, &cal, f(0.5)), 1);
}

#[test]
fn zero_error_calibration_never_flips() {
    let cal = ReadoutCalibration { name: "test", backend: Backend::TrappedIon, p01: f(0.0), p10: f(0.0) };
    for &sample in &[0.0, 0.3, 0.9999] {
        assert_eq!(corrupt_readout(0, &cal, f(sample)), 0);
        assert_eq!(corrupt_readout(1, &cal, f(sample)), 1);
    }
}

#[test]
fn certain_error_calibration_always_flips() {
    let cal = ReadoutCalibration { name: "test", backend: Backend::TrappedIon, p01: f(1.0), p10: f(1.0) };
    for &sample in &[0.0, 0.3, 0.9999] {
        assert_eq!(corrupt_readout(0, &cal, f(sample)), 1);
        assert_eq!(corrupt_readout(1, &cal, f(sample)), 0);
    }
}

#[test]
fn average_error_matches_the_rigetti_style_definition() {
    let cal = ReadoutCalibration::rigetti_ankaa3();
    assert!((value(cal.average_error()) - (0.0240 + 0.0726) / 2.0).abs() < 1e-12);
}
