use qutub_transpiler::binary64::Binary64;
use qutub_transpiler::noise::{sample_depolarizing_error, PauliError};

fn f(x: f64) -> Binary64 {
    Binary64::from_bits(x.to_bits())
}

#[test]
fn zero_probability_never_produces_an_error() {
    for &sample in &[0.0, 0.3, 0.5, 0.9999] {
        assert_eq!(sample_depolarizing_error(f(0.0), f(sample)), None);
    }
}

#[test]
fn certain_probability_always_produces_an_error() {
    for &sample in &[0.0, 0.32, 0.65, 0.9999] {
        assert!(sample_depolarizing_error(f(1.0), f(sample)).is_some());
    }
}

#[test]
fn the_three_pauli_ranges_are_evenly_split_and_in_order() {
    let p = 0.9;
    assert_eq!(sample_depolarizing_error(f(p), f(0.0)), Some(PauliError::X));
    assert_eq!(sample_depolarizing_error(f(p), f(p / 3.0 - 1e-9)), Some(PauliError::X));
    assert_eq!(sample_depolarizing_error(f(p), f(p / 3.0)), Some(PauliError::Y));
    assert_eq!(sample_depolarizing_error(f(p), f(2.0 * p / 3.0 - 1e-9)), Some(PauliError::Y));
    assert_eq!(sample_depolarizing_error(f(p), f(2.0 * p / 3.0)), Some(PauliError::Z));
    assert_eq!(sample_depolarizing_error(f(p), f(p - 1e-9)), Some(PauliError::Z));
    assert_eq!(sample_depolarizing_error(f(p), f(p)), None);
    assert_eq!(sample_depolarizing_error(f(p), f(0.9999)), None);
}
