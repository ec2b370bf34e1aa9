//! Published gate fidelities, and estimates from gate counts.
use crate::backend::{count_double as backend_double, count_single as backend_single, BackendCircuit};
use crate::binary64::{below, difference, of_nat, product, quotient, Binary64};
use crate::native::{count_double, count_single, NativeCircuit};
use vstd::arithmetic::power2::{lemma2_to64, lemma_pow2_strictly_increases, lemma_pow2_unfold, pow2};
use vstd::prelude::*;

verus! {

/// The bit pattern of one.
pub const ONE_BITS: u64 = 0x3ff0_0000_0000_0000;

/// Average gate fidelities of a device.
#[derive(Debug, Clone, Copy)]
pub struct PublishedCalibration {
    pub name: &'static str,
    pub single_qubit_fidelity: Binary64,
    pub two_qubit_fidelity: Binary64,
}

/// The name and the two fidelities, as bit patterns, of
/// `sirraya_qutub::xeb::HardwareCalibration::quantinuum_helios_2026`: the
/// constants 0.999975 and 0.99921 that its body holds.
#[verifier::external_body]
fn helios_figures() -> (r: (&'static str, u64, u64))
    ensures
        r.0@ == "Quantinuum Helios (Sandia benchmark, Nature, June 2026)"@,
        r.1 == 0x3fef_ffcb_923a_29c7,
        r.2 == 0x3fef_f987_3ffa_c1d3,
{
    let c = sirraya_qutub::xeb::HardwareCalibration::quantinuum_helios_2026();
    (c.name, c.single_qubit_fidelity.to_bits(), c.two_qubit_fidelity.to_bits())
}

/// A number held between zero and one.
pub open spec fn clamped(x: Binary64) -> Binary64 {
    if below(x, Binary64 { bits: 0 }) {
        Binary64 { bits: 0 }
    } else if below(Binary64 { bits: ONE_BITS }, x) {
        Binary64 { bits: ONE_BITS }
    } else {
        x
    }
}

/// `(1 - fidelity) * d / (d - 1)` in dimension `d`, held between zero and
/// one.
pub open spec fn depolarizing(fidelity: Binary64, d: Binary64) -> Binary64 {
    let one = Binary64 { bits: ONE_BITS };
    clamped(quotient(product(difference(one, fidelity), d), difference(d, one)))
}

impl PublishedCalibration {
    /// Quantinuum Helios.
    pub fn quantinuum_helios_2026() -> (r: Self)
        ensures
            r.name@ == "Quantinuum Helios (Sandia benchmark, Nature, June 2026)"@,
            r.single_qubit_fidelity.bits == 0x3fef_ffcb_923a_29c7,
            r.two_qubit_fidelity.bits == 0x3fef_f987_3ffa_c1d3,
    {
        let (name, single, two) = helios_figures();
        PublishedCalibration {
            name,
            single_qubit_fidelity: Binary64 { bits: single },
            two_qubit_fidelity: Binary64 { bits: two },
        }
    }

    /// IBM Heron r2: 0.99982 for one qubit, 0.997 for two.
    pub fn ibm_heron_r2() -> (r: Self)
        ensures
            r.name@
                == "IBM Heron r2 (156-qubit superconducting; 2Q error ~0.3% per IBM; 1Q error 1.8e-4 per arXiv:2603.03496 backend snapshot 2025-12-26)"@,
            r.single_qubit_fidelity.bits == 0x3fef_fe86_833c_6003,
            r.two_qubit_fidelity.bits == 0x3fef_e76c_8b43_9581,
    {
        PublishedCalibration {
            name:
                "IBM Heron r2 (156-qubit superconducting; 2Q error ~0.3% per IBM; 1Q error 1.8e-4 per arXiv:2603.03496 backend snapshot 2025-12-26)",
            single_qubit_fidelity: Binary64 { bits: 0x3fef_fe86_833c_6003 },
            two_qubit_fidelity: Binary64 { bits: 0x3fef_e76c_8b43_9581 },
        }
    }

    /// Rigetti Ankaa-3: 0.9986 for one qubit, carried over from Ankaa-2, and
    /// 0.995 for two.
    pub fn rigetti_ankaa3() -> (r: Self)
        ensures
            r.name@
                == "Rigetti Ankaa-3 (84-qubit superconducting; 2Q fSim fidelity 99.5% per Rigetti, Dec 2024; 1Q fidelity 99.86% carried over from Ankaa-2 per arXiv:2410.05202, not Ankaa-3-specific)"@,
            r.single_qubit_fidelity.bits == 0x3fef_f487_fcb9_23a3,
            r.two_qubit_fidelity.bits == 0x3fef_d70a_3d70_a3d7,
    {
        PublishedCalibration {
            name:
                "Rigetti Ankaa-3 (84-qubit superconducting; 2Q fSim fidelity 99.5% per Rigetti, Dec 2024; 1Q fidelity 99.86% carried over from Ankaa-2 per arXiv:2410.05202, not Ankaa-3-specific)",
            single_qubit_fidelity: Binary64 { bits: 0x3fef_f487_fcb9_23a3 },
            two_qubit_fidelity: Binary64 { bits: 0x3fef_d70a_3d70_a3d7 },
        }
    }

    /// The error probability of a depolarizing channel with an average gate
    /// fidelity.
    pub fn fidelity_to_depolarizing_probability(fidelity: Binary64, num_qubits: usize) -> (r: Binary64)
        requires
            num_qubits < usize::BITS,
        ensures
            r == depolarizing(fidelity, of_nat(pow2(num_qubits as nat))),
    {
        let mut d: u64 = 1;
        let mut k: usize = 0;
        proof {
            lemma2_to64();
        }
        while k < num_qubits
            invariant
                k <= num_qubits < usize::BITS,
                d == pow2(k as nat),
            decreases num_qubits - k,
        {
            proof {
                lemma2_to64();
                lemma_pow2_unfold((k + 1) as nat);
                lemma_pow2_strictly_increases((k + 1) as nat, 64);
            }
            d = d * 2;
            k = k + 1;
        }
        let one = Binary64 { bits: ONE_BITS };
        let size = Binary64::from_u64(d);
        let x = one.minus(fidelity).times(size).over(size.minus(one));
        if x.lt(Binary64 { bits: 0 }) {
            Binary64 { bits: 0 }
        } else if one.lt(x) {
            one
        } else {
            x
        }
    }

    pub open spec fn single_error(self) -> Binary64 {
        depolarizing(self.single_qubit_fidelity, of_nat(2))
    }

    pub open spec fn two_error(self) -> Binary64 {
        depolarizing(self.two_qubit_fidelity, of_nat(4))
    }

    pub fn single_qubit_error_probability(&self) -> (r: Binary64)
        ensures
            r == self.single_error(),
    {
        proof {
            lemma2_to64();
        }
        Self::fidelity_to_depolarizing_probability(self.single_qubit_fidelity, 1)
    }

    pub fn two_qubit_error_probability(&self) -> (r: Binary64)
        ensures
            r == self.two_error(),
    {
        proof {
            lemma2_to64();
        }
        Self::fidelity_to_depolarizing_probability(self.two_qubit_fidelity, 2)
    }
}

/// A power of a number with a whole exponent.
pub type PowerOf = spec_fn(Binary64, int) -> Binary64;

/// A function gives these powers.
pub open spec fn raises<P: Fn(Binary64, i32) -> Binary64>(f: P, p: PowerOf) -> bool {
    forall|x: Binary64, n: i32, y: Binary64| #[trigger]
        call_ensures(f, (x, n), y) ==> y == p(x, n as int)
}

/// A function can be asked for any power.
pub open spec fn always_raises<P: Fn(Binary64, i32) -> Binary64>(f: P) -> bool {
    forall|x: Binary64, n: i32| #[trigger] call_requires(f, (x, n))
}

/// A count as an exponent of thirty-two bits: the largest in place of a count
/// beyond it.
pub open spec fn exponent(n: nat) -> int {
    if n <= i32::MAX {
        n as int
    } else {
        i32::MAX as int
    }
}

fn exponent_of(n: usize) -> (r: i32)
    ensures
        r == exponent(n as nat),
{
    if n <= 0x7fff_ffff {
        n as i32
    } else {
        i32::MAX
    }
}

/// The product of the survival probabilities of all gates.
pub open spec fn survival(cal: PublishedCalibration, single: nat, double: nat, p: PowerOf) -> Binary64 {
    let one = Binary64 { bits: ONE_BITS };
    product(
        p(difference(one, cal.single_error()), exponent(single)),
        p(difference(one, cal.two_error()), exponent(double)),
    )
}

fn surviving<P: Fn(Binary64, i32) -> Binary64>(
    cal: &PublishedCalibration,
    single: usize,
    double: usize,
    power: &P,
) -> (r: Binary64)
    requires
        always_raises(*power),
    ensures
        forall|p: PowerOf| #[trigger]
            raises(*power, p) ==> r == survival(*cal, single as nat, double as nat, p),
{
    let one = Binary64 { bits: ONE_BITS };
    let a = power(one.minus(cal.single_qubit_error_probability()), exponent_of(single));
    let b = power(one.minus(cal.two_qubit_error_probability()), exponent_of(double));
    a.times(b)
}

/// The fidelity of a circuit whose gates err independently; `power` raises a
/// number to a whole power.
pub fn estimate_circuit_fidelity<P: Fn(Binary64, i32) -> Binary64>(
    circuit: &NativeCircuit,
    cal: &PublishedCalibration,
    power: &P,
) -> (r: Binary64)
    requires
        always_raises(*power),
    ensures
        forall|p: PowerOf| #[trigger]
            raises(*power, p) ==> r == survival(
                *cal,
                count_single(circuit.gates@),
                count_double(circuit.gates@),
                p,
            ),
{
    let (single, double) = circuit.gate_counts();
    surviving(cal, single, double, power)
}

/// The same for a backend's circuit.
pub fn estimate_backend_circuit_fidelity<P: Fn(Binary64, i32) -> Binary64>(
    circuit: &BackendCircuit,
    cal: &PublishedCalibration,
    power: &P,
) -> (r: Binary64)
    requires
        always_raises(*power),
    ensures
        forall|p: PowerOf| #[trigger]
            raises(*power, p) ==> r == survival(
                *cal,
                backend_single(circuit.gates@),
                backend_double(circuit.gates@),
                p,
            ),
{
    let (single, double) = circuit.gate_counts();
    surviving(cal, single, double, power)
}

} // verus!
