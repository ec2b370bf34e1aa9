//! The backends and what sets them apart.
use crate::angle::{synthesizes, total, Euler, EulerOf, Turn, EPS_BITS};
use crate::backend::{h_gates, push_h, BackendGate};
use crate::binary64::{absolute, below, Binary64};
use crate::coupling::lattice::{heavy_hex_distance, heavy_hex_map, square_map, square_side};
use crate::coupling::{CouplingMap, Graph};
use crate::fidelity::PublishedCalibration;
use vstd::prelude::*;

verus! {

/// The axis of a backend's rotation besides Z.
#[derive(Debug, Clone, Copy, PartialEq, Eq, Structural)]
pub enum RotAxis {
    Ry,
    Rx,
}

/// The interaction that a two-qubit pulse of a backend stands for.
#[derive(Debug, Clone, Copy, PartialEq, Eq, Structural)]
pub enum NativeTwoQubitGate {
    /// A rotation by the angle that the amplitude encodes.
    ContinuousRzz,
    /// One fixed `Cx`.
    FixedCx,
    /// One fixed `Cz`.
    FixedCz,
}

/// One backend: its gate set and its connectivity.
pub trait BackendSpec {
    spec fn name(&self) -> Seq<char>;

    spec fn axis(&self) -> RotAxis;

    /// The gates of a two-qubit rotation about Z.
    spec fn zz_gates(&self, a: usize, b: usize, theta: Binary64, e: EulerOf) -> Seq<BackendGate>;

    spec fn direct_cx(&self) -> bool;

    /// The gates of a `Cx`, where the backend has one.
    spec fn cx_gates(&self, c: usize, t: usize, e: EulerOf) -> Seq<BackendGate>;

    /// Whether the native gates are the backend's own.
    spec fn canonical(&self) -> bool;

    spec fn two_qubit_gate(&self) -> NativeTwoQubitGate;

    fn id(&self) -> (r: &'static str)
        ensures
            r@ == self.name(),
    ;

    fn rot_axis(&self) -> (r: RotAxis)
        ensures
            r == self.axis(),
    ;

    fn push_two_qubit_zz<F: Fn(&Vec<Turn>) -> Euler>(
        &self,
        out: &mut Vec<BackendGate>,
        a: usize,
        b: usize,
        theta: Binary64,
        euler: &F,
    )
        requires
            total(*euler),
        ensures
            forall|e: EulerOf| #[trigger]
                synthesizes(*euler, e) ==> final(out)@ == old(out)@ + self.zz_gates(a, b, theta, e),
    ;

    fn has_native_cx(&self) -> (r: bool)
        ensures
            r == self.direct_cx(),
    ;

    fn push_native_cx<F: Fn(&Vec<Turn>) -> Euler>(
        &self,
        out: &mut Vec<BackendGate>,
        control: usize,
        target: usize,
        euler: &F,
    )
        requires
            total(*euler),
            self.direct_cx(),
        ensures
            forall|e: EulerOf| #[trigger]
                synthesizes(*euler, e) ==> final(out)@ == old(out)@ + self.cx_gates(
                    control,
                    target,
                    e,
                ),
    ;

    fn is_native_decompose_target(&self) -> (r: bool)
        ensures
            r == self.canonical(),
    ;

    fn native_two_qubit_gate(&self) -> (r: NativeTwoQubitGate)
        ensures
            r == self.two_qubit_gate(),
    ;
}

/// The backends of this library.
#[derive(Debug, Clone, Copy, PartialEq, Eq, Structural)]
pub enum Backend {
    /// A trapped-ion chain: `Rz`, `Ry`, `Rzz`.
    TrappedIon,
    /// A superconducting heavy-hex device: `Rz`, `Rx`, `Cx`.
    IbmQ,
    /// A superconducting square grid: `Rz`, `Rx`, `Cz`.
    Rigetti,
    /// A superconducting square grid: `Rz`, `Rx`, `Cz`.
    Google,
}

/// Whether an angle is next to nothing.
pub open spec fn tiny(a: Binary64) -> bool {
    below(absolute(a), Binary64 { bits: EPS_BITS })
}

fn is_tiny(a: Binary64) -> (r: bool)
    ensures
        r == tiny(a),
{
    a.abs().lt(Binary64 { bits: EPS_BITS })
}

/// A rotation between two `Cx`.
pub open spec fn zz_by_cx(a: usize, b: usize, theta: Binary64) -> Seq<BackendGate> {
    seq![BackendGate::Cx(a, b), BackendGate::Rz(b, theta), BackendGate::Cx(a, b)]
}

/// A rotation between two `Cz`, turned by `H` before and behind.
pub open spec fn zz_by_cz(a: usize, b: usize, theta: Binary64, e: EulerOf) -> Seq<BackendGate> {
    h_gates(RotAxis::Rx, b, e) + seq![
        BackendGate::Cz(a, b),
        BackendGate::Rot(b, theta),
        BackendGate::Cz(a, b),
    ] + h_gates(RotAxis::Rx, b, e)
}

fn push_zz_by_cz<F: Fn(&Vec<Turn>) -> Euler>(
    out: &mut Vec<BackendGate>,
    a: usize,
    b: usize,
    theta: Binary64,
    euler: &F,
)
    requires
        total(*euler),
    ensures
        forall|e: EulerOf| #[trigger]
            synthesizes(*euler, e) ==> final(out)@ == old(out)@ + zz_by_cz(a, b, theta, e),
{
    let ghost before = out@;
    push_h(out, RotAxis::Rx, b, euler);
    out.push(BackendGate::Cz(a, b));
    out.push(BackendGate::Rot(b, theta));
    out.push(BackendGate::Cz(a, b));
    push_h(out, RotAxis::Rx, b, euler);
    proof {
        assert forall|e: EulerOf| #[trigger] synthesizes(*euler, e) implies out@ == before + zz_by_cz(
            a,
            b,
            theta,
            e,
        ) by {
            assert(out@ =~= before + zz_by_cz(a, b, theta, e));
        }
    }
}

impl BackendSpec for Backend {
    open spec fn name(&self) -> Seq<char> {
        match self {
            Backend::TrappedIon => "TrappedIon"@,
            Backend::IbmQ => "IbmQ"@,
            Backend::Rigetti => "Rigetti"@,
            Backend::Google => "Google"@,
        }
    }

    open spec fn axis(&self) -> RotAxis {
        match self {
            Backend::TrappedIon => RotAxis::Ry,
            _ => RotAxis::Rx,
        }
    }

    open spec fn zz_gates(&self, a: usize, b: usize, theta: Binary64, e: EulerOf) -> Seq<BackendGate> {
        match self {
            Backend::TrappedIon => seq![BackendGate::Rzz(a, b, theta)],
            Backend::IbmQ => if tiny(theta) {
                Seq::empty()
            } else {
                zz_by_cx(a, b, theta)
            },
            _ => if tiny(theta) {
                Seq::empty()
            } else {
                zz_by_cz(a, b, theta, e)
            },
        }
    }

    open spec fn direct_cx(&self) -> bool {
        *self != Backend::TrappedIon
    }

    open spec fn cx_gates(&self, c: usize, t: usize, e: EulerOf) -> Seq<BackendGate> {
        match self {
            Backend::IbmQ => seq![BackendGate::Cx(c, t)],
            _ => h_gates(RotAxis::Rx, t, e) + seq![BackendGate::Cz(c, t)] + h_gates(
                RotAxis::Rx,
                t,
                e,
            ),
        }
    }

    open spec fn canonical(&self) -> bool {
        *self == Backend::TrappedIon
    }

    open spec fn two_qubit_gate(&self) -> NativeTwoQubitGate {
        match self {
            Backend::TrappedIon => NativeTwoQubitGate::ContinuousRzz,
            Backend::IbmQ => NativeTwoQubitGate::FixedCx,
            _ => NativeTwoQubitGate::FixedCz,
        }
    }

    fn id(&self) -> (r: &'static str) {
        match self {
            Backend::TrappedIon => "TrappedIon",
            Backend::IbmQ => "IbmQ",
            Backend::Rigetti => "Rigetti",
            Backend::Google => "Google",
        }
    }

    fn rot_axis(&self) -> (r: RotAxis) {
        match self {
            Backend::TrappedIon => RotAxis::Ry,
            _ => RotAxis::Rx,
        }
    }

    fn push_two_qubit_zz<F: Fn(&Vec<Turn>) -> Euler>(
        &self,
        out: &mut Vec<BackendGate>,
        a: usize,
        b: usize,
        theta: Binary64,
        euler: &F,
    ) {
        let ghost before = out@;
        match self {
            Backend::TrappedIon => {
                out.push(BackendGate::Rzz(a, b, theta));
                assert(out@ =~= before + seq![BackendGate::Rzz(a, b, theta)]);
            },
            Backend::IbmQ => {
                if !is_tiny(theta) {
                    out.push(BackendGate::Cx(a, b));
                    out.push(BackendGate::Rz(b, theta));
                    out.push(BackendGate::Cx(a, b));
                    assert(out@ =~= before + zz_by_cx(a, b, theta));
                } else {
                    assert(out@ =~= before + Seq::empty());
                }
            },
            _ => {
                if !is_tiny(theta) {
                    push_zz_by_cz(out, a, b, theta, euler);
                } else {
                    assert(out@ =~= before + Seq::empty());
                }
            },
        }
    }

    fn has_native_cx(&self) -> (r: bool) {
        *self != Backend::TrappedIon
    }

    fn push_native_cx<F: Fn(&Vec<Turn>) -> Euler>(
        &self,
        out: &mut Vec<BackendGate>,
        control: usize,
        target: usize,
        euler: &F,
    ) {
        let ghost before = out@;
        match self {
            Backend::IbmQ => {
                out.push(BackendGate::Cx(control, target));
                assert(out@ =~= before + seq![BackendGate::Cx(control, target)]);
            },
            _ => {
                push_h(out, RotAxis::Rx, target, euler);
                out.push(BackendGate::Cz(control, target));
                push_h(out, RotAxis::Rx, target, euler);
                proof {
                    assert forall|e: EulerOf| #[trigger] synthesizes(*euler, e) implies out@ == before
                        + self.cx_gates(control, target, e) by {
                        assert(out@ =~= before + self.cx_gates(control, target, e));
                    }
                }
            },
        }
    }

    fn is_native_decompose_target(&self) -> (r: bool) {
        *self == Backend::TrappedIon
    }

    fn native_two_qubit_gate(&self) -> (r: NativeTwoQubitGate) {
        match self {
            Backend::TrappedIon => NativeTwoQubitGate::ContinuousRzz,
            Backend::IbmQ => NativeTwoQubitGate::FixedCx,
            _ => NativeTwoQubitGate::FixedCz,
        }
    }
}

impl Backend {
    /// The published fidelities of the device behind the backend. There are
    /// none here for [`Backend::Google`].
    pub fn calibration(self) -> (r: PublishedCalibration)
        requires
            self != Backend::Google,
        ensures
            r.single_qubit_fidelity.bits == (match self {
                Backend::TrappedIon => 0x3fef_ffcb_923a_29c7u64,
                Backend::IbmQ => 0x3fef_fe86_833c_6003u64,
                _ => 0x3fef_f487_fcb9_23a3u64,
            }),
            r.two_qubit_fidelity.bits == (match self {
                Backend::TrappedIon => 0x3fef_f987_3ffa_c1d3u64,
                Backend::IbmQ => 0x3fef_e76c_8b43_9581u64,
                _ => 0x3fef_d70a_3d70_a3d7u64,
            }),
            r.name@ == (match self {
                Backend::TrappedIon => "Quantinuum Helios (Sandia benchmark, Nature, June 2026)"@,
                Backend::IbmQ =>
                    "IBM Heron r2 (156-qubit superconducting; 2Q error ~0.3% per IBM; 1Q error 1.8e-4 per arXiv:2603.03496 backend snapshot 2025-12-26)"@,
                _ =>
                    "Rigetti Ankaa-3 (84-qubit superconducting; 2Q fSim fidelity 99.5% per Rigetti, Dec 2024; 1Q fidelity 99.86% carried over from Ankaa-2 per arXiv:2410.05202, not Ankaa-3-specific)"@,
            }),
    {
        match self {
            Backend::TrappedIon => PublishedCalibration::quantinuum_helios_2026(),
            Backend::IbmQ => PublishedCalibration::ibm_heron_r2(),
            _ => PublishedCalibration::rigetti_ankaa3(),
        }
    }

    /// The graph of the qubits that can interact: the first qubits of the
    /// smallest lattice of the backend's kind that has so many.
    pub open spec fn topology(self, num_qubits: nat, g: Graph) -> bool {
        if num_qubits <= 1 {
            g == (Graph { size: num_qubits, edges: Set::empty() })
        } else if self == Backend::IbmQ {
            exists|d: int| #[trigger]
                heavy_hex_distance(num_qubits, d) && g == heavy_hex_map(d, d).first(num_qubits)
        } else {
            exists|side: int| #[trigger]
                square_side(num_qubits, side) && g == square_map(side, side).first(num_qubits)
        }
    }

    /// Which qubits can interact, or `None` where all can: a heavy-hex
    /// lattice or a square one, cut to the number of qubits.
    pub fn coupling_map(self, num_qubits: usize) -> (r: Option<CouplingMap>)
        requires
            num_qubits <= usize::MAX / 16,
        ensures
            r is None <==> self == Backend::TrappedIon,
            r matches Some(map) ==> map@.size == num_qubits && map@.connected()
                && self.topology(num_qubits as nat, map@),
    {
        match self {
            Backend::TrappedIon => None,
            Backend::IbmQ => Some(CouplingMap::heavy_hex_for(num_qubits)),
            Backend::Rigetti => Some(CouplingMap::square_grid_for(num_qubits)),
            Backend::Google => Some(CouplingMap::square_grid_for(num_qubits)),
        }
    }
}

/// No two backends have the same name.
pub proof fn lemma_names_distinct(a: Backend, b: Backend)
    requires
        a.name() == b.name(),
    ensures
        a == b,
{
    reveal_strlit("TrappedIon");
    reveal_strlit("IbmQ");
    reveal_strlit("Rigetti");
    reveal_strlit("Google");
    assert("TrappedIon"@.len() == 10);
    assert("IbmQ"@.len() == 4);
    assert("Rigetti"@.len() == 7);
    assert("Google"@.len() == 6);
}

} // verus!
