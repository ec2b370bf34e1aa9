//! Readout errors: a measured bit may be reported wrongly.
use crate::angle::TWO_BITS;
use crate::backend::Backend;
use crate::binary64::{below, quotient, sum, Binary64};
use vstd::prelude::*;

verus! {

/// How likely a device reports the wrong bit: `p01` that it reports one for
/// zero, `p10` that it reports zero for one.
#[derive(Debug, Clone, Copy)]
pub struct ReadoutCalibration {
    pub name: &'static str,
    pub backend: Backend,
    pub p01: Binary64,
    pub p10: Binary64,
}

impl ReadoutCalibration {
    /// The mean of both probabilities.
    pub fn average_error(&self) -> (r: Binary64)
        ensures
            r == quotient(sum(self.p01, self.p10), Binary64 { bits: TWO_BITS }),
    {
        self.p01.plus(self.p10).over(Binary64 { bits: TWO_BITS })
    }

    /// Quantinuum Helios: 4.8e-4 either way.
    pub fn quantinuum_helios_2026() -> (r: Self)
        ensures
            r.name@
                == "Quantinuum Helios (98-qubit trapped-ion; SPAM fidelity ~99.95%, error ~4.8e-4, from Quantinuum/Sandia Nature-validated benchmarking, Nov 2025 launch -- combined state-prep+measurement, not pure readout in isolation, and no published asymmetric p01/p10 split)"@,
            r.backend == Backend::TrappedIon,
            r.p01.bits == 0x3f3f_7510_4d55_1d69,
            r.p10.bits == 0x3f3f_7510_4d55_1d69,
    {
        ReadoutCalibration {
            name:
                "Quantinuum Helios (98-qubit trapped-ion; SPAM fidelity ~99.95%, error ~4.8e-4, from Quantinuum/Sandia Nature-validated benchmarking, Nov 2025 launch -- combined state-prep+measurement, not pure readout in isolation, and no published asymmetric p01/p10 split)",
            backend: Backend::TrappedIon,
            p01: Binary64 { bits: 0x3f3f_7510_4d55_1d69 },
            p10: Binary64 { bits: 0x3f3f_7510_4d55_1d69 },
        }
    }

    /// IBM Heron r2: 0.03 either way.
    pub fn ibm_heron_r2() -> (r: Self)
        ensures
            r.name@
                == "IBM Heron r2 (156-qubit superconducting, ibm_marrakesh; device-wide average readout-error rate 3%, Nov-Dec 2024 snapshot, per arXiv:2510.13577 Table S3 -- no published asymmetric p01/p10 split)"@,
            r.backend == Backend::IbmQ,
            r.p01.bits == 0x3f9e_b851_eb85_1eb8,
            r.p10.bits == 0x3f9e_b851_eb85_1eb8,
    {
        ReadoutCalibration {
            name:
                "IBM Heron r2 (156-qubit superconducting, ibm_marrakesh; device-wide average readout-error rate 3%, Nov-Dec 2024 snapshot, per arXiv:2510.13577 Table S3 -- no published asymmetric p01/p10 split)",
            backend: Backend::IbmQ,
            p01: Binary64 { bits: 0x3f9e_b851_eb85_1eb8 },
            p10: Binary64 { bits: 0x3f9e_b851_eb85_1eb8 },
        }
    }

    /// Rigetti Ankaa-3: 0.0240 for zero, 0.0726 for one.
    pub fn rigetti_ankaa3() -> (r: Self)
        ensures
            r.name@
                == "Rigetti Ankaa-3 (84-qubit superconducting); published confusion matrix P(1|0)=2.40%, P(0|1)=7.26%, per arXiv:2604.19832 Eq. (10)"@,
            r.backend == Backend::Rigetti,
            r.p01.bits == 0x3f98_9374_bc6a_7efa,
            r.p10.bits == 0x3fb2_95e9_e1b0_89a0,
    {
        ReadoutCalibration {
            name:
                "Rigetti Ankaa-3 (84-qubit superconducting); published confusion matrix P(1|0)=2.40%, P(0|1)=7.26%, per arXiv:2604.19832 Eq. (10)",
            backend: Backend::Rigetti,
            p01: Binary64 { bits: 0x3f98_9374_bc6a_7efa },
            p10: Binary64 { bits: 0x3fb2_95e9_e1b0_89a0 },
        }
    }

    /// Google Willow Chip 1: 0.0077 either way.
    pub fn google_willow_2024() -> (r: Self)
        ensures
            r.name@
                == "Google Willow Chip 1 (105-qubit superconducting, CZ-tuned; mean simultaneous repetitive measurement error 0.77%, per Google's own Willow spec sheet, published Dec 9 2024 -- no published asymmetric p01/p10 split)"@,
            r.backend == Backend::Google,
            r.p01.bits == 0x3f7f_8a09_02de_00d2,
            r.p10.bits == 0x3f7f_8a09_02de_00d2,
    {
        ReadoutCalibration {
            name:
                "Google Willow Chip 1 (105-qubit superconducting, CZ-tuned; mean simultaneous repetitive measurement error 0.77%, per Google's own Willow spec sheet, published Dec 9 2024 -- no published asymmetric p01/p10 split)",
            backend: Backend::Google,
            p01: Binary64 { bits: 0x3f7f_8a09_02de_00d2 },
            p10: Binary64 { bits: 0x3f7f_8a09_02de_00d2 },
        }
    }
}

/// The bit that a device reports for a measured one, by a sample between
/// zero and one.
pub fn corrupt_readout(true_bit: u8, cal: &ReadoutCalibration, uniform_sample: Binary64) -> (r: u8)
    requires
        true_bit <= 1 || !below(uniform_sample, cal.p10),
    ensures
        r == (if below(
            uniform_sample,
            if true_bit == 0 {
                cal.p01
            } else {
                cal.p10
            },
        ) {
            (1 - true_bit) as u8
        } else {
            true_bit
        }),
{
    let flip_probability = if true_bit == 0 {
        cal.p01
    } else {
        cal.p10
    };
    if uniform_sample.lt(flip_probability) {
        1 - true_bit
    } else {
        true_bit
    }
}

} // verus!
