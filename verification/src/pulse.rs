//! Schedules backend circuits as pulses on hardware channels.
use crate::angle::{EPS_BITS, PI_BITS};
use crate::backend::{Backend, BackendCircuit, BackendGate, BackendSpec};
use crate::binary64::{
    below, difference, lemma_difference_shrinks, lemma_sum_grows, product, quotient, rank, sum, Binary64,
};
use crate::ir::Conditions;
use crate::text::{decimal, push_decimal};
use std::collections::HashMap;
use vstd::prelude::*;

verus! {

broadcast use vstd::std_specs::hash::group_hash_axioms;

/// A hardware line.
#[derive(Debug, Clone, Copy, PartialEq, Eq, Hash, Structural)]
pub enum Channel {
    /// Single-qubit drive.
    Drive(usize),
    /// Two-qubit control, in the order of its qubits.
    Control(usize, usize),
    /// Readout.
    Readout(usize),
}

/// The shape of a pulse.
#[derive(Debug, Clone, Copy, PartialEq, Eq, Structural)]
pub enum Envelope {
    Drag { sigma_ns: Binary64, beta: Binary64 },
    GaussianSquare { sigma_ns: Binary64, risefall_ns: Binary64 },
}

/// A pulse to play, or a change of frame, which takes no time.
#[derive(Debug, Clone, Copy, PartialEq, Eq, Structural)]
pub enum PulseInstruction {
    Play {
        channel: Channel,
        start_time_ns: Binary64,
        duration_ns: Binary64,
        envelope: Envelope,
        amplitude: Binary64,
    },
    ShiftPhase { channel: Channel, start_time_ns: Binary64, angle_rad: Binary64 },
}

impl PulseInstruction {
    pub open spec fn line(self) -> Channel {
        match self {
            PulseInstruction::Play { channel, .. } => channel,
            PulseInstruction::ShiftPhase { channel, .. } => channel,
        }
    }

    pub open spec fn start(self) -> Binary64 {
        match self {
            PulseInstruction::Play { start_time_ns, .. } => start_time_ns,
            PulseInstruction::ShiftPhase { start_time_ns, .. } => start_time_ns,
        }
    }

    pub open spec fn end(self) -> Binary64 {
        match self {
            PulseInstruction::Play { start_time_ns, duration_ns, .. } => sum(
                start_time_ns,
                duration_ns,
            ),
            PulseInstruction::ShiftPhase { start_time_ns, .. } => start_time_ns,
        }
    }

    pub fn channel(&self) -> (r: Channel)
        ensures
            r == self.line(),
    {
        match self {
            PulseInstruction::Play { channel, .. } => *channel,
            PulseInstruction::ShiftPhase { channel, .. } => *channel,
        }
    }

    pub fn start_time_ns(&self) -> (r: Binary64)
        ensures
            r == self.start(),
    {
        match self {
            PulseInstruction::Play { start_time_ns, .. } => *start_time_ns,
            PulseInstruction::ShiftPhase { start_time_ns, .. } => *start_time_ns,
        }
    }

    pub fn end_time_ns(&self) -> (r: Binary64)
        ensures
            r == self.end(),
    {
        match self {
            PulseInstruction::Play { start_time_ns, duration_ns, .. } => start_time_ns.plus(
                *duration_ns,
            ),
            PulseInstruction::ShiftPhase { start_time_ns, .. } => *start_time_ns,
        }
    }
}

/// The larger of two numbers; a number rather than no number.
pub open spec fn larger(a: Binary64, b: Binary64) -> Binary64 {
    if a.nan() {
        b
    } else if b.nan() {
        a
    } else if below(a, b) {
        b
    } else {
        a
    }
}

pub fn max_of(a: Binary64, b: Binary64) -> (r: Binary64)
    ensures
        r == larger(a, b),
{
    if a.is_nan() {
        b
    } else if b.is_nan() {
        a
    } else if a.lt(b) {
        b
    } else {
        a
    }
}

/// The pulses of one circuit.
#[derive(Debug)]
pub struct Schedule {
    pub backend: Backend,
    pub instructions: Vec<PulseInstruction>,
}

/// The latest end of the first `n` instructions.
pub open spec fn makespan(v: Seq<PulseInstruction>, n: nat) -> Binary64
    decreases n,
{
    if n == 0 {
        Binary64 { bits: 0 }
    } else {
        larger(makespan(v, (n - 1) as nat), v[n - 1].end())
    }
}

/// Whether the `i`-th instruction starts before the `j`-th, or with it and
/// stands in front of it.
pub open spec fn sooner(v: Seq<PulseInstruction>, i: int, j: int) -> bool {
    below(v[i].start(), v[j].start()) || (!below(v[j].start(), v[i].start()) && i < j)
}

/// Whether two pulses play on one channel, and the second starts before the
/// first has ended, by more than the tolerance.
pub open spec fn overlap(v: Seq<PulseInstruction>, i: int, j: int) -> bool {
    &&& v[i] is Play
    &&& v[j] is Play
    &&& v[i].line() == v[j].line()
    &&& sooner(v, i, j)
    &&& below(v[j].start(), difference(v[i].end(), Binary64 { bits: EPS_BITS }))
}

/// Whether no two pulses on one channel overlap.
pub open spec fn apart(v: Seq<PulseInstruction>) -> bool {
    forall|i: int, j: int| 0 <= i < v.len() && 0 <= j < v.len() && i != j ==> !#[trigger] overlap(v, i, j)
}

impl Schedule {
    /// When the last instruction ends.
    pub fn duration_ns(&self) -> (r: Binary64)
        ensures
            r == makespan(self.instructions@, self.instructions@.len()),
    {
        let mut end = Binary64 { bits: 0 };
        let mut i: usize = 0;
        while i < self.instructions.len()
            invariant
                0 <= i <= self.instructions.len(),
                end == makespan(self.instructions@, i as nat),
            decreases self.instructions.len() - i,
        {
            end = max_of(end, self.instructions[i].end_time_ns());
            i = i + 1;
        }
        end
    }

    /// Whether no two pulses on one channel overlap.
    pub fn has_no_overlaps(&self) -> (r: bool)
        requires
            forall|i: int, j: int|
                0 <= i < self.instructions.len() && 0 <= j < self.instructions.len() && i != j && (
                #[trigger] self.instructions@[i]) is Play && (#[trigger] self.instructions@[j]) is Play
                    && self.instructions@[i].line() == self.instructions@[j].line()
                    ==> !self.instructions@[i].start().nan(),
        ensures
            r == apart(self.instructions@),
    {
        let ghost v = self.instructions@;
        let mut i: usize = 0;
        while i < self.instructions.len()
            invariant
                v == self.instructions@,
                0 <= i <= v.len(),
                forall|a: int, b: int|
                    0 <= a < i && 0 <= b < v.len() && a != b ==> !#[trigger] overlap(v, a, b),
            decreases v.len() - i,
        {
            let mut j: usize = 0;
            while j < self.instructions.len()
                invariant
                    v == self.instructions@,
                    0 <= i < v.len(),
                    0 <= j <= v.len(),
                    forall|b: int| 0 <= b < j && i != b ==> !#[trigger] overlap(v, i as int, b),
                decreases v.len() - j,
            {
                if i != j && self.do_overlap(i, j) {
                    return false;
                }
                j = j + 1;
            }
            i = i + 1;
        }
        true
    }

    fn do_overlap(&self, i: usize, j: usize) -> (r: bool)
        requires
            i < self.instructions.len(),
            j < self.instructions.len(),
        ensures
            r == overlap(self.instructions@, i as int, j as int),
    {
        let first = &self.instructions[i];
        let second = &self.instructions[j];
        if let PulseInstruction::Play { channel: a, start_time_ns: s, .. } = first {
            if let PulseInstruction::Play { channel: b, start_time_ns: t, .. } = second {
                return *a == *b && (s.lt(*t) || (!t.lt(*s) && i < j)) && t.lt(
                    first.end_time_ns().minus(Binary64 { bits: EPS_BITS }),
                );
            }
        }
        false
    }
}

/// The pulse of a backend's rotation. The amplitude is proportional to the
/// angle.
#[derive(Debug, Clone, Copy, PartialEq, Eq, Structural)]
pub struct SingleQubitPulseCalibration {
    pub duration_ns: Binary64,
    pub sigma_ns: Binary64,
    pub drag_beta: Binary64,
    pub pi_amplitude: Binary64,
}

/// The pulse of a fixed two-qubit gate.
#[derive(Debug, Clone, Copy, PartialEq, Eq, Structural)]
pub struct TwoQubitPulseCalibration {
    pub duration_ns: Binary64,
    pub sigma_ns: Binary64,
    pub risefall_ns: Binary64,
    pub amplitude: Binary64,
}

/// The pulse of a two-qubit rotation. The amplitude is proportional to the
/// angle.
#[derive(Debug, Clone, Copy, PartialEq, Eq, Structural)]
pub struct TwoQubitContinuousPulseCalibration {
    pub duration_ns: Binary64,
    pub sigma_ns: Binary64,
    pub risefall_ns: Binary64,
    pub pi_amplitude: Binary64,
}

/// The pulses of a backend, the same for all its qubits.
#[derive(Debug, Clone, Copy, PartialEq, Eq, Structural)]
pub struct PulseCalibration {
    pub backend: Backend,
    pub rot: SingleQubitPulseCalibration,
    pub two_qubit: TwoQubitPulseCalibration,
    /// Present where the backend has a two-qubit rotation.
    pub rzz: Option<TwoQubitContinuousPulseCalibration>,
    pub readout_duration_ns: Binary64,
}

/// Figures for [`Backend::IbmQ`].
pub open spec fn heron_figures() -> PulseCalibration {
    PulseCalibration {
        backend: Backend::IbmQ,
        rot: SingleQubitPulseCalibration {
            duration_ns: Binary64 { bits: 0x4041_c7ae_147a_e148 },
            sigma_ns: Binary64 { bits: 0x4021_c7ae_147a_e148 },
            drag_beta: Binary64 { bits: 0xbff3_3333_3333_3333 },
            pi_amplitude: Binary64 { bits: 0x3fc9_9999_9999_999a },
        },
        two_qubit: TwoQubitPulseCalibration {
            duration_ns: Binary64 { bits: 0x4072_c000_0000_0000 },
            sigma_ns: Binary64 { bits: 0x4030_0000_0000_0000 },
            risefall_ns: Binary64 { bits: 0x4040_0000_0000_0000 },
            amplitude: Binary64 { bits: 0x3fd9_9999_9999_999a },
        },
        rzz: None,
        readout_duration_ns: Binary64 { bits: 0x40a9_c800_0000_0000 },
    }
}

/// Pulses for [`Backend::IbmQ`]: rotations of 35.56 ns, `Cx` of 300 ns,
/// readout of 3300 ns.
pub fn ibm_heron_r2_pulse_calibration() -> (r: PulseCalibration)
    ensures
        r == heron_figures(),
{
    PulseCalibration {
        backend: Backend::IbmQ,
        rot: SingleQubitPulseCalibration {
            duration_ns: Binary64 { bits: 0x4041_c7ae_147a_e148 },
            sigma_ns: Binary64 { bits: 0x4021_c7ae_147a_e148 },
            drag_beta: Binary64 { bits: 0xbff3_3333_3333_3333 },
            pi_amplitude: Binary64 { bits: 0x3fc9_9999_9999_999a },
        },
        two_qubit: TwoQubitPulseCalibration {
            duration_ns: Binary64 { bits: 0x4072_c000_0000_0000 },
            sigma_ns: Binary64 { bits: 0x4030_0000_0000_0000 },
            risefall_ns: Binary64 { bits: 0x4040_0000_0000_0000 },
            amplitude: Binary64 { bits: 0x3fd9_9999_9999_999a },
        },
        rzz: None,
        readout_duration_ns: Binary64 { bits: 0x40a9_c800_0000_0000 },
    }
}

/// Figures for [`Backend::Rigetti`].
pub open spec fn ankaa_figures() -> PulseCalibration {
    PulseCalibration {
        backend: Backend::Rigetti,
        rot: SingleQubitPulseCalibration {
            duration_ns: Binary64 { bits: 0x4040_0000_0000_0000 },
            sigma_ns: Binary64 { bits: 0x4020_0000_0000_0000 },
            drag_beta: Binary64 { bits: 0xbff0_0000_0000_0000 },
            pi_amplitude: Binary64 { bits: 0x3fc7_0a3d_70a3_d70a },
        },
        two_qubit: TwoQubitPulseCalibration {
            duration_ns: Binary64 { bits: 0x4066_8000_0000_0000 },
            sigma_ns: Binary64 { bits: 0x4024_0000_0000_0000 },
            risefall_ns: Binary64 { bits: 0x4034_0000_0000_0000 },
            amplitude: Binary64 { bits: 0x3fd6_6666_6666_6666 },
        },
        rzz: None,
        readout_duration_ns: Binary64 { bits: 0x4089_0000_0000_0000 },
    }
}

/// Pulses for [`Backend::Rigetti`]: rotations of 32 ns, `Cz` of 180 ns,
/// readout of 800 ns.
pub fn rigetti_ankaa3_pulse_calibration() -> (r: PulseCalibration)
    ensures
        r == ankaa_figures(),
{
    PulseCalibration {
        backend: Backend::Rigetti,
        rot: SingleQubitPulseCalibration {
            duration_ns: Binary64 { bits: 0x4040_0000_0000_0000 },
            sigma_ns: Binary64 { bits: 0x4020_0000_0000_0000 },
            drag_beta: Binary64 { bits: 0xbff0_0000_0000_0000 },
            pi_amplitude: Binary64 { bits: 0x3fc7_0a3d_70a3_d70a },
        },
        two_qubit: TwoQubitPulseCalibration {
            duration_ns: Binary64 { bits: 0x4066_8000_0000_0000 },
            sigma_ns: Binary64 { bits: 0x4024_0000_0000_0000 },
            risefall_ns: Binary64 { bits: 0x4034_0000_0000_0000 },
            amplitude: Binary64 { bits: 0x3fd6_6666_6666_6666 },
        },
        rzz: None,
        readout_duration_ns: Binary64 { bits: 0x4089_0000_0000_0000 },
    }
}

/// Figures for [`Backend::TrappedIon`].
pub open spec fn ion_figures() -> PulseCalibration {
    PulseCalibration {
        backend: Backend::TrappedIon,
        rot: SingleQubitPulseCalibration {
            duration_ns: Binary64 { bits: 0x40b3_8800_0000_0000 },
            sigma_ns: Binary64 { bits: 0x4093_8800_0000_0000 },
            drag_beta: Binary64 { bits: 0 },
            pi_amplitude: Binary64 { bits: 0x3f57_4dfa_5ed6_4f2d },
        },
        two_qubit: TwoQubitPulseCalibration {
            duration_ns: Binary64 { bits: 0x40f8_6a00_0000_0000 },
            sigma_ns: Binary64 { bits: 0x40b3_8800_0000_0000 },
            risefall_ns: Binary64 { bits: 0x40c3_8800_0000_0000 },
            amplitude: Binary64 { bits: 0x3fe0_0000_0000_0000 },
        },
        rzz: Some(
            TwoQubitContinuousPulseCalibration {
                duration_ns: Binary64 { bits: 0x40f8_6a00_0000_0000 },
                sigma_ns: Binary64 { bits: 0x40b3_8800_0000_0000 },
                risefall_ns: Binary64 { bits: 0x40c3_8800_0000_0000 },
                pi_amplitude: Binary64 { bits: 0x3fe0_0000_0000_0000 },
            },
        ),
        readout_duration_ns: Binary64 { bits: 0x4108_6a00_0000_0000 },
    }
}

/// Pulses for [`Backend::TrappedIon`]: rotations of 5000 ns, two-qubit
/// rotations of 100000 ns, readout of 200000 ns.
pub fn trapped_ion_pulse_calibration() -> (r: PulseCalibration)
    ensures
        r == ion_figures(),
{
    PulseCalibration {
        backend: Backend::TrappedIon,
        rot: SingleQubitPulseCalibration {
            duration_ns: Binary64 { bits: 0x40b3_8800_0000_0000 },
            sigma_ns: Binary64 { bits: 0x4093_8800_0000_0000 },
            drag_beta: Binary64 { bits: 0 },
            pi_amplitude: Binary64 { bits: 0x3f57_4dfa_5ed6_4f2d },
        },
        two_qubit: TwoQubitPulseCalibration {
            duration_ns: Binary64 { bits: 0x40f8_6a00_0000_0000 },
            sigma_ns: Binary64 { bits: 0x40b3_8800_0000_0000 },
            risefall_ns: Binary64 { bits: 0x40c3_8800_0000_0000 },
            amplitude: Binary64 { bits: 0x3fe0_0000_0000_0000 },
        },
        rzz: Some(
            TwoQubitContinuousPulseCalibration {
                duration_ns: Binary64 { bits: 0x40f8_6a00_0000_0000 },
                sigma_ns: Binary64 { bits: 0x40b3_8800_0000_0000 },
                risefall_ns: Binary64 { bits: 0x40c3_8800_0000_0000 },
                pi_amplitude: Binary64 { bits: 0x3fe0_0000_0000_0000 },
            },
        ),
        readout_duration_ns: Binary64 { bits: 0x4108_6a00_0000_0000 },
    }
}

/// When each qubit is free again, and the instructions so far.
pub struct Timeline {
    pub busy: Map<usize, Binary64>,
    pub instrs: Seq<PulseInstruction>,
}

/// When a qubit is free.
pub open spec fn free_at(busy: Map<usize, Binary64>, q: usize) -> Binary64 {
    if busy.dom().contains(q) {
        busy[q]
    } else {
        Binary64 { bits: 0 }
    }
}

/// The amplitude for an angle: the share of a half turn.
pub open spec fn scaled_amplitude(pi_amplitude: Binary64, theta: Binary64) -> Binary64 {
    quotient(product(pi_amplitude, theta), Binary64 { bits: PI_BITS })
}

/// Plays a pulse on two qubits as soon as both are free.
pub open spec fn play_two(
    t: Timeline,
    a: usize,
    b: usize,
    duration: Binary64,
    sigma: Binary64,
    risefall: Binary64,
    amplitude: Binary64,
) -> Timeline {
    let start = larger(free_at(t.busy, a), free_at(t.busy, b));
    let end = sum(start, duration);
    Timeline {
        busy: t.busy.insert(a, end).insert(b, end),
        instrs: t.instrs.push(
            PulseInstruction::Play {
                channel: Channel::Control(a, b),
                start_time_ns: start,
                duration_ns: duration,
                envelope: Envelope::GaussianSquare { sigma_ns: sigma, risefall_ns: risefall },
                amplitude,
            },
        ),
    }
}

pub open spec fn missing_rzz(a: usize, b: usize, backend: Backend) -> Seq<char> {
    "pulse scheduling for Rzz (TrappedIon's native two-qubit gate, on qubits "@ + decimal(a as nat)
        + ","@ + decimal(b as nat) + ") has no calibration entry on backend "@ + backend.name()
        + " -- see this module's doc comment on backend coverage"@
}

/// Adds one gate: each starts as soon as its qubits are free, a rotation
/// about Z takes no time, and a conditioned gate takes the same place as one without
/// condition.
pub open spec fn scheduled(t: Timeline, cal: PulseCalibration, g: BackendGate) -> Result<
    Timeline,
    Seq<char>,
>
    decreases g,
{
    match g {
        BackendGate::Rz(q, theta) => Ok(
            Timeline {
                instrs: t.instrs.push(
                    PulseInstruction::ShiftPhase {
                        channel: Channel::Drive(q),
                        start_time_ns: free_at(t.busy, q),
                        angle_rad: theta,
                    },
                ),
                ..t
            },
        ),
        BackendGate::Rot(q, theta) => {
            let start = free_at(t.busy, q);
            Ok(
                Timeline {
                    busy: t.busy.insert(q, sum(start, cal.rot.duration_ns)),
                    instrs: t.instrs.push(
                        PulseInstruction::Play {
                            channel: Channel::Drive(q),
                            start_time_ns: start,
                            duration_ns: cal.rot.duration_ns,
                            envelope: Envelope::Drag {
                                sigma_ns: cal.rot.sigma_ns,
                                beta: cal.rot.drag_beta,
                            },
                            amplitude: scaled_amplitude(cal.rot.pi_amplitude, theta),
                        },
                    ),
                },
            )
        },
        BackendGate::Cx(a, b) | BackendGate::Cz(a, b) => Ok(
            play_two(
                t,
                a,
                b,
                cal.two_qubit.duration_ns,
                cal.two_qubit.sigma_ns,
                cal.two_qubit.risefall_ns,
                cal.two_qubit.amplitude,
            ),
        ),
        BackendGate::Rzz(a, b, theta) => match cal.rzz {
            None => Err(missing_rzz(a, b, cal.backend)),
            Some(c) => Ok(
                play_two(
                    t,
                    a,
                    b,
                    c.duration_ns,
                    c.sigma_ns,
                    c.risefall_ns,
                    scaled_amplitude(c.pi_amplitude, theta),
                ),
            ),
        },
        BackendGate::Measure(q, _) => {
            let start = free_at(t.busy, q);
            let edge = quotient(cal.readout_duration_ns, Binary64 { bits: 0x4020_0000_0000_0000 });
            Ok(
                Timeline {
                    busy: t.busy.insert(q, sum(start, cal.readout_duration_ns)),
                    instrs: t.instrs.push(
                        PulseInstruction::Play {
                            channel: Channel::Readout(q),
                            start_time_ns: start,
                            duration_ns: cal.readout_duration_ns,
                            envelope: Envelope::GaussianSquare { sigma_ns: edge, risefall_ns: edge },
                            amplitude: Binary64 { bits: 0x3ff0_0000_0000_0000 },
                        },
                    ),
                },
            )
        },
        BackendGate::If(_, inner) => scheduled(t, cal, *inner),
    }
}

/// Adds the first `n` gates.
pub open spec fn scheduled_all(gates: Seq<BackendGate>, cal: PulseCalibration, n: nat) -> Result<
    Timeline,
    Seq<char>,
>
    decreases n,
{
    if n == 0 {
        Ok(Timeline { busy: Map::empty(), instrs: Seq::empty() })
    } else {
        match scheduled_all(gates, cal, (n - 1) as nat) {
            Err(e) => Err(e),
            Ok(t) => scheduled(t, cal, gates[n - 1]),
        }
    }
}

proof fn lemma_schedule_fails(gates: Seq<BackendGate>, cal: PulseCalibration, n: nat, m: nat)
    requires
        n <= m,
        scheduled_all(gates, cal, n) is Err,
    ensures
        scheduled_all(gates, cal, m) == scheduled_all(gates, cal, n),
    decreases m - n,
{
    if n < m {
        lemma_schedule_fails(gates, cal, n, (m - 1) as nat);
    }
}

fn time_of(busy: &HashMap<usize, Binary64>, q: usize) -> (r: Binary64)
    ensures
        r == free_at(busy@, q),
{
    match busy.get(&q) {
        Some(t) => *t,
        None => Binary64 { bits: 0 },
    }
}

fn amplitude_for(pi_amplitude: Binary64, theta: Binary64) -> (r: Binary64)
    ensures
        r == scaled_amplitude(pi_amplitude, theta),
{
    pi_amplitude.times(theta).over(Binary64 { bits: PI_BITS })
}

fn push_two(
    busy: &mut HashMap<usize, Binary64>,
    out: &mut Vec<PulseInstruction>,
    a: usize,
    b: usize,
    duration: Binary64,
    sigma: Binary64,
    risefall: Binary64,
    amplitude: Binary64,
)
    ensures
        (Timeline { busy: final(busy)@, instrs: final(out)@ }) == play_two(
            Timeline { busy: old(busy)@, instrs: old(out)@ },
            a,
            b,
            duration,
            sigma,
            risefall,
            amplitude,
        ),
{
    let start = max_of(time_of(busy, a), time_of(busy, b));
    out.push(
        PulseInstruction::Play {
            channel: Channel::Control(a, b),
            start_time_ns: start,
            duration_ns: duration,
            envelope: Envelope::GaussianSquare { sigma_ns: sigma, risefall_ns: risefall },
            amplitude,
        },
    );
    let end = start.plus(duration);
    busy.insert(a, end);
    busy.insert(b, end);
}

fn schedule_one(
    g: &BackendGate,
    cal: &PulseCalibration,
    busy: &mut HashMap<usize, Binary64>,
    out: &mut Vec<PulseInstruction>,
) -> (r: Result<(), String>)
    ensures
        match r {
            Ok(_) => scheduled(Timeline { busy: old(busy)@, instrs: old(out)@ }, *cal, *g) == Ok::<
                Timeline,
                Seq<char>,
            >(Timeline { busy: final(busy)@, instrs: final(out)@ }),
            Err(text) => scheduled(Timeline { busy: old(busy)@, instrs: old(out)@ }, *cal, *g)
                == Err::<Timeline, Seq<char>>(text@),
        },
    decreases g,
{
    match g {
        BackendGate::Rz(q, theta) => {
            out.push(
                PulseInstruction::ShiftPhase {
                    channel: Channel::Drive(*q),
                    start_time_ns: time_of(busy, *q),
                    angle_rad: *theta,
                },
            );
            Ok(())
        },
        BackendGate::Rot(q, theta) => {
            let start = time_of(busy, *q);
            out.push(
                PulseInstruction::Play {
                    channel: Channel::Drive(*q),
                    start_time_ns: start,
                    duration_ns: cal.rot.duration_ns,
                    envelope: Envelope::Drag {
                        sigma_ns: cal.rot.sigma_ns,
                        beta: cal.rot.drag_beta,
                    },
                    amplitude: amplitude_for(cal.rot.pi_amplitude, *theta),
                },
            );
            busy.insert(*q, start.plus(cal.rot.duration_ns));
            Ok(())
        },
        BackendGate::Cx(a, b) | BackendGate::Cz(a, b) => {
            let c = cal.two_qubit;
            push_two(busy, out, *a, *b, c.duration_ns, c.sigma_ns, c.risefall_ns, c.amplitude);
            Ok(())
        },
        BackendGate::Rzz(a, b, theta) => {
            match cal.rzz {
                None => {
                    let mut s = String::from_str(
                        "pulse scheduling for Rzz (TrappedIon's native two-qubit gate, on qubits ",
                    );
                    push_decimal(&mut s, *a as u128);
                    s.append(",");
                    push_decimal(&mut s, *b as u128);
                    s.append(") has no calibration entry on backend ");
                    s.append(cal.backend.id());
                    s.append(" -- see this module's doc comment on backend coverage");
                    Err(s)
                },
                Some(c) => {
                    let amplitude = amplitude_for(c.pi_amplitude, *theta);
                    push_two(busy, out, *a, *b, c.duration_ns, c.sigma_ns, c.risefall_ns, amplitude);
                    Ok(())
                },
            }
        },
        BackendGate::Measure(q, _c) => {
            let start = time_of(busy, *q);
            let edge = cal.readout_duration_ns.over(Binary64 { bits: 0x4020_0000_0000_0000 });
            out.push(
                PulseInstruction::Play {
                    channel: Channel::Readout(*q),
                    start_time_ns: start,
                    duration_ns: cal.readout_duration_ns,
                    envelope: Envelope::GaussianSquare { sigma_ns: edge, risefall_ns: edge },
                    amplitude: Binary64 { bits: 0x3ff0_0000_0000_0000 },
                },
            );
            busy.insert(*q, start.plus(cal.readout_duration_ns));
            Ok(())
        },
        BackendGate::If(_, inner) => schedule_one(inner, cal, busy, out),
    }
}

pub open spec fn mismatch_text(cal: Backend, circuit: Backend) -> Seq<char> {
    "calibration is for "@ + cal.name() + " but circuit was lowered for "@ + circuit.name()
}

/// Schedules a circuit: every gate starts as soon as its qubits are free.
pub fn schedule(bc: &BackendCircuit, cal: &PulseCalibration) -> (r: Result<Schedule, String>)
    ensures
        match r {
            Ok(s) => {
                &&& bc.backend == cal.backend
                &&& s.backend == bc.backend
                &&& scheduled_all(bc.gates@, *cal, bc.gates@.len()) matches Ok(t) && s.instructions@
                    == t.instrs
            },
            Err(text) => {
                ||| bc.backend != cal.backend && text@ == mismatch_text(cal.backend, bc.backend)
                ||| bc.backend == cal.backend && scheduled_all(bc.gates@, *cal, bc.gates@.len())
                    == Err::<Timeline, Seq<char>>(text@)
            },
        },
{
    if bc.backend != cal.backend {
        let mut s = String::from_str("calibration is for ");
        s.append(cal.backend.id());
        s.append(" but circuit was lowered for ");
        s.append(bc.backend.id());
        return Err(s);
    }
    let mut busy: HashMap<usize, Binary64> = HashMap::new();
    let mut out: Vec<PulseInstruction> = Vec::new();
    let mut i: usize = 0;
    while i < bc.gates.len()
        invariant
            bc.backend == cal.backend,
            0 <= i <= bc.gates.len(),
            scheduled_all(bc.gates@, *cal, i as nat) == Ok::<Timeline, Seq<char>>(
                Timeline { busy: busy@, instrs: out@ },
            ),
        decreases bc.gates.len() - i,
    {
        match schedule_one(&bc.gates[i], cal, &mut busy, &mut out) {
            Ok(_) => {},
            Err(e) => {
                proof {
                    lemma_schedule_fails(bc.gates@, *cal, (i + 1) as nat, bc.gates@.len());
                }
                return Err(e);
            },
        }
        i = i + 1;
    }
    Ok(Schedule { backend: bc.backend, instructions: out })
}

/// Whether a channel drives or reads a qubit.
pub open spec fn on_qubit(c: Channel, q: usize) -> bool {
    match c {
        Channel::Drive(a) => a == q,
        Channel::Control(a, b) => a == q || b == q,
        Channel::Readout(a) => a == q,
    }
}

/// A time or a duration: a number, and not below zero.
pub open spec fn proper(t: Binary64) -> bool {
    !t.nan() && !t.negative()
}

/// Whether all durations of a calibration are proper.
pub open spec fn proper_calibration(cal: PulseCalibration) -> bool {
    &&& proper(cal.rot.duration_ns)
    &&& proper(cal.two_qubit.duration_ns)
    &&& proper(cal.readout_duration_ns)
    &&& cal.rzz matches Some(c) ==> proper(c.duration_ns)
}

/// Whether pulses on one qubit follow each other: a later one does not start
/// before an earlier one has ended.
pub open spec fn in_turn(v: Seq<PulseInstruction>) -> bool {
    forall|i: int, j: int, q: usize|
        #![trigger on_qubit(v[i].line(), q), on_qubit(v[j].line(), q)]
        0 <= i < j < v.len() && v[i] is Play && v[j] is Play && on_qubit(v[i].line(), q)
            && on_qubit(v[j].line(), q) ==> !below(v[j].start(), v[i].end())
}

pub open spec fn proper_times(v: Seq<PulseInstruction>) -> bool {
    forall|i: int|
        0 <= i < v.len() ==> proper((#[trigger] v[i]).start()) && proper(v[i].end()) && rank(
            v[i].start(),
        ) <= rank(v[i].end())
}

/// What holds while a schedule grows.
spec fn orderly(t: Timeline) -> bool {
    &&& forall|q: usize| proper(#[trigger] free_at(t.busy, q))
    &&& proper_times(t.instrs)
    &&& in_turn(t.instrs)
    &&& forall|i: int, q: usize|
        #![trigger on_qubit(t.instrs[i].line(), q)]
        0 <= i < t.instrs.len() && t.instrs[i] is Play && on_qubit(t.instrs[i].line(), q) ==> rank(
            t.instrs[i].end(),
        ) <= rank(free_at(t.busy, q))
}

proof fn lemma_play_keeps_order(t: Timeline, p: PulseInstruction, busy: Map<usize, Binary64>)
    requires
        orderly(t),
        proper(p.start()) && proper(p.end()) && rank(p.start()) <= rank(p.end()),
        forall|q: usize| #[trigger]
            free_at(busy, q) == if p is Play && on_qubit(p.line(), q) {
                p.end()
            } else {
                free_at(t.busy, q)
            },
        p is Play ==> forall|q: usize| #[trigger]
            on_qubit(p.line(), q) ==> rank(free_at(t.busy, q)) <= rank(p.start()),
    ensures
        orderly(Timeline { busy, instrs: t.instrs.push(p) }),
{
    let n = Timeline { busy, instrs: t.instrs.push(p) };
    assert forall|q: usize| proper(#[trigger] free_at(n.busy, q)) by {
        assert(proper(free_at(t.busy, q)));
    }
    assert forall|i: int, q: usize|
        #![trigger on_qubit(n.instrs[i].line(), q)]
        0 <= i < n.instrs.len() && n.instrs[i] is Play && on_qubit(
            n.instrs[i].line(),
            q,
        ) implies rank(n.instrs[i].end()) <= rank(free_at(n.busy, q)) by {
        if i < t.instrs.len() {
            assert(on_qubit(t.instrs[i].line(), q));
        }
    }
    assert forall|i: int, j: int, q: usize|
        #![trigger on_qubit(n.instrs[i].line(), q), on_qubit(n.instrs[j].line(), q)]
        0 <= i < j < n.instrs.len() && n.instrs[i] is Play && n.instrs[j] is Play && on_qubit(
            n.instrs[i].line(),
            q,
        ) && on_qubit(n.instrs[j].line(), q) implies !below(n.instrs[j].start(), n.instrs[i].end()) by {
        assert(on_qubit(t.instrs[i].line(), q));
        if j < t.instrs.len() {
            assert(on_qubit(t.instrs[j].line(), q));
        }
    }
}

proof fn lemma_play_two_keeps_order(
    t: Timeline,
    a: usize,
    b: usize,
    duration: Binary64,
    sigma: Binary64,
    risefall: Binary64,
    amplitude: Binary64,
)
    requires
        orderly(t),
        proper(duration),
    ensures
        orderly(play_two(t, a, b, duration, sigma, risefall, amplitude)),
{
    let n = play_two(t, a, b, duration, sigma, risefall, amplitude);
    let p = n.instrs.last();
    assert(proper(free_at(t.busy, a)) && proper(free_at(t.busy, b)));
    lemma_sum_grows(p.start(), duration);
    lemma_play_keeps_order(t, p, n.busy);
}

proof fn lemma_scheduled_keeps_order(t: Timeline, cal: PulseCalibration, g: BackendGate)
    requires
        orderly(t),
        proper_calibration(cal),
    ensures
        scheduled(t, cal, g) matches Ok(n) ==> orderly(n),
    decreases g,
{
    match g {
        BackendGate::Rz(q, _) => {
            assert(proper(free_at(t.busy, q)));
            let n = scheduled(t, cal, g)->Ok_0;
            lemma_play_keeps_order(t, n.instrs.last(), n.busy);
        },
        BackendGate::Rot(q, _) | BackendGate::Measure(q, _) => {
            assert(proper(free_at(t.busy, q)));
            let n = scheduled(t, cal, g)->Ok_0;
            let p = n.instrs.last();
            lemma_sum_grows(free_at(t.busy, q), p->duration_ns);
            lemma_play_keeps_order(t, p, n.busy);
        },
        BackendGate::Cx(a, b) | BackendGate::Cz(a, b) => {
            let c = cal.two_qubit;
            lemma_play_two_keeps_order(
                t,
                a,
                b,
                c.duration_ns,
                c.sigma_ns,
                c.risefall_ns,
                c.amplitude,
            );
        },
        BackendGate::Rzz(a, b, theta) => {
            if let Some(c) = cal.rzz {
                lemma_play_two_keeps_order(
                    t,
                    a,
                    b,
                    c.duration_ns,
                    c.sigma_ns,
                    c.risefall_ns,
                    scaled_amplitude(c.pi_amplitude, theta),
                );
            }
        },
        BackendGate::If(_, inner) => {
            lemma_scheduled_keeps_order(t, cal, *inner);
        },
    }
}

proof fn lemma_schedule_orderly(gates: Seq<BackendGate>, cal: PulseCalibration, n: nat)
    requires
        proper_calibration(cal),
        n <= gates.len(),
    ensures
        scheduled_all(gates, cal, n) matches Ok(t) ==> orderly(t),
    decreases n,
{
    if n > 0 {
        lemma_schedule_orderly(gates, cal, (n - 1) as nat);
        if let Ok(t) = scheduled_all(gates, cal, (n - 1) as nat) {
            lemma_scheduled_keeps_order(t, cal, gates[n - 1]);
        }
    }
}

/// In the schedule of a circuit no qubit has two pulses at a time, whatever
/// their channels.
pub proof fn lemma_schedule_in_turn(gates: Seq<BackendGate>, cal: PulseCalibration)
    requires
        proper_calibration(cal),
    ensures
        scheduled_all(gates, cal, gates.len()) matches Ok(t) ==> in_turn(t.instrs) && proper_times(
            t.instrs,
        ),
{
    lemma_schedule_orderly(gates, cal, gates.len());
}

/// In the schedule of a circuit no two pulses on one channel overlap.
pub proof fn lemma_schedule_has_no_overlaps(gates: Seq<BackendGate>, cal: PulseCalibration)
    requires
        proper_calibration(cal),
    ensures
        scheduled_all(gates, cal, gates.len()) matches Ok(t) ==> apart(t.instrs),
{
    if let Ok(t) = scheduled_all(gates, cal, gates.len()) {
        lemma_schedule_in_turn(gates, cal);
        let v = t.instrs;
        assert forall|i: int, j: int| 0 <= i < v.len() && 0 <= j < v.len() && i != j implies !#[trigger] overlap(
            v,
            i,
            j,
        ) by {
            if v[i] is Play && v[j] is Play && v[i].line() == v[j].line() {
                let q = match v[i].line() {
                    Channel::Drive(a) => a,
                    Channel::Control(a, b) => a,
                    Channel::Readout(a) => a,
                };
                assert(on_qubit(v[i].line(), q) && on_qubit(v[j].line(), q));
                assert(proper(v[i].start()) && proper(v[j].start()));
                lemma_difference_shrinks(v[i].end(), Binary64 { bits: EPS_BITS });
                if i < j {
                    assert(!below(v[j].start(), v[i].end()));
                } else {
                    assert(!below(v[i].start(), v[j].end()));
                }
            }
        }
    }
}

/// A rotation about Z delays nothing.
pub proof fn lemma_virtual_z(t: Timeline, cal: PulseCalibration, q: usize, theta: Binary64)
    ensures
        scheduled(t, cal, BackendGate::Rz(q, theta)) matches Ok(n) && n.busy == t.busy,
{
}

/// A conditioned gate takes its place in the schedule whether or not it will
/// run.
pub proof fn lemma_condition_keeps_slot(
    t: Timeline,
    cal: PulseCalibration,
    conditions: Conditions,
    g: BackendGate,
)
    ensures
        scheduled(t, cal, BackendGate::If(conditions, Box::new(g))) == scheduled(t, cal, g),
{
}

/// The published figures are proper, so what they schedule does not overlap.
pub proof fn lemma_figures_proper()
    ensures
        proper_calibration(heron_figures()),
        proper_calibration(ankaa_figures()),
        proper_calibration(ion_figures()),
{
}

/// A gate itself, without its conditions.
pub open spec fn unconditioned(g: BackendGate) -> BackendGate
    decreases g,
{
    match g {
        BackendGate::If(_, inner) => unconditioned(*inner),
        _ => g,
    }
}

/// Whether an instruction brings about a gate: a rotation about Z is a change
/// of frame by its angle on the drive of its qubit; any other is a pulse on
/// the drive of its qubit, on the control line of its pair in its order, or on
/// the readout line, as strong as its angle asks for.
pub open spec fn brings_about(p: PulseInstruction, g: BackendGate, cal: PulseCalibration) -> bool {
    match g {
        BackendGate::Rz(q, theta) => {
            &&& p matches PulseInstruction::ShiftPhase { channel, angle_rad, .. }
            &&& channel == Channel::Drive(q)
            &&& angle_rad == theta
        },
        BackendGate::Rot(q, theta) => {
            &&& p matches PulseInstruction::Play { channel, duration_ns, envelope, amplitude, .. }
            &&& channel == Channel::Drive(q)
            &&& duration_ns == cal.rot.duration_ns
            &&& envelope == (Envelope::Drag {
                sigma_ns: cal.rot.sigma_ns,
                beta: cal.rot.drag_beta,
            })
            &&& amplitude == quotient(
                product(cal.rot.pi_amplitude, theta),
                Binary64 { bits: PI_BITS },
            )
        },
        BackendGate::Cx(a, b) | BackendGate::Cz(a, b) => {
            &&& p matches PulseInstruction::Play { channel, duration_ns, envelope, amplitude, .. }
            &&& channel == Channel::Control(a, b)
            &&& duration_ns == cal.two_qubit.duration_ns
            &&& envelope == (Envelope::GaussianSquare {
                sigma_ns: cal.two_qubit.sigma_ns,
                risefall_ns: cal.two_qubit.risefall_ns,
            })
            &&& amplitude == cal.two_qubit.amplitude
        },
        BackendGate::Rzz(a, b, theta) => {
            &&& p matches PulseInstruction::Play { channel, duration_ns, envelope, amplitude, .. }
            &&& cal.rzz matches Some(c)
            &&& channel == Channel::Control(a, b)
            &&& duration_ns == c.duration_ns
            &&& envelope == (Envelope::GaussianSquare {
                sigma_ns: c.sigma_ns,
                risefall_ns: c.risefall_ns,
            })
            &&& amplitude == quotient(product(c.pi_amplitude, theta), Binary64 { bits: PI_BITS })
        },
        BackendGate::Measure(q, _) => {
            &&& p matches PulseInstruction::Play { channel, duration_ns, amplitude, .. }
            &&& channel == Channel::Readout(q)
            &&& duration_ns == cal.readout_duration_ns
            &&& amplitude == Binary64 { bits: 0x3ff0_0000_0000_0000 }
        },
        BackendGate::If(_, _) => false,
    }
}

/// Whether some pulse among the first `n` ends at a time on a qubit.
pub open spec fn ends_at(v: Seq<PulseInstruction>, n: int, q: usize, t: Binary64) -> bool {
    exists|k: int| 0 <= k < n && ends_there(v, k, q, t)
}

pub open spec fn ends_there(v: Seq<PulseInstruction>, k: int, q: usize, t: Binary64) -> bool {
    v[k] is Play && on_qubit(v[k].line(), q) && v[k].end() == t
}

/// Whether an instruction starts at once: at time zero, or when an earlier
/// pulse on one of its qubits ends.
pub open spec fn starts_at_once(v: Seq<PulseInstruction>, i: int) -> bool {
    ||| v[i].start() == (Binary64 { bits: 0 })
    ||| exists|q: usize| on_qubit(v[i].line(), q) && #[trigger] ends_at(v, i, q, v[i].start())
}

/// A qubit is busy up to the end of a pulse on it.
spec fn accounted(t: Timeline) -> bool {
    forall|q: usize|
        free_at(t.busy, q) == (Binary64 { bits: 0 }) || #[trigger] ends_at(
            t.instrs,
            t.instrs.len() as int,
            q,
            free_at(t.busy, q),
        )
}

proof fn lemma_ends_kept(v: Seq<PulseInstruction>, p: PulseInstruction, n: int, q: usize, t: Binary64)
    requires
        n <= v.len(),
    ensures
        ends_at(v, n, q, t) ==> ends_at(v.push(p), n, q, t) && ends_at(v.push(p), n + 1, q, t),
{
    if ends_at(v, n, q, t) {
        let k = choose|k: int| 0 <= k < n && ends_there(v, k, q, t);
        assert(ends_there(v.push(p), k, q, t));
    }
}

/// What one gate adds to a schedule.
proof fn lemma_one_instruction(t: Timeline, cal: PulseCalibration, g: BackendGate)
    requires
        accounted(t),
    ensures
        scheduled(t, cal, g) matches Ok(n) ==> {
            &&& n.instrs.len() == t.instrs.len() + 1
            &&& n.instrs.drop_last() == t.instrs
            &&& brings_about(n.instrs.last(), unconditioned(g), cal)
            &&& starts_at_once(n.instrs, t.instrs.len() as int)
            &&& accounted(n)
        },
    decreases g,
{
    if let BackendGate::If(_, inner) = g {
        lemma_one_instruction(t, cal, *inner);
    } else if let Ok(n) = scheduled(t, cal, g) {
        let m = t.instrs.len() as int;
        let p = n.instrs.last();
        assert(n.instrs == t.instrs.push(p));
        assert(n.instrs.drop_last() =~= t.instrs);
        let wires = g.wires();
        assert(wires.len() <= 2);
        assert(starts_at_once(n.instrs, m)) by {
            assert(on_qubit(p.line(), wires[0]));
            lemma_ends_kept(t.instrs, p, m, wires[0], p.start());
            assert(free_at(t.busy, wires[0]) == (Binary64 { bits: 0 }) || ends_at(
                t.instrs,
                m,
                wires[0],
                free_at(t.busy, wires[0]),
            ));
            if wires.len() == 2 {
                assert(on_qubit(p.line(), wires[1]));
                lemma_ends_kept(t.instrs, p, m, wires[1], p.start());
                assert(free_at(t.busy, wires[1]) == (Binary64 { bits: 0 }) || ends_at(
                    t.instrs,
                    m,
                    wires[1],
                    free_at(t.busy, wires[1]),
                ));
            }
        }
        assert forall|q: usize|
            free_at(n.busy, q) == (Binary64 { bits: 0 }) || #[trigger] ends_at(
                n.instrs,
                n.instrs.len() as int,
                q,
                free_at(n.busy, q),
            ) by {
            if p is Play && on_qubit(p.line(), q) {
                assert(ends_there(n.instrs, m, q, p.end()));
                assert(ends_at(n.instrs, m + 1, q, p.end()));
            } else {
                lemma_ends_kept(t.instrs, p, m, q, free_at(t.busy, q));
                assert(free_at(t.busy, q) == (Binary64 { bits: 0 }) || ends_at(
                    t.instrs,
                    m,
                    q,
                    free_at(t.busy, q),
                ));
            }
        }
    }
}

proof fn lemma_instructions(gates: Seq<BackendGate>, cal: PulseCalibration, n: nat)
    requires
        n <= gates.len(),
    ensures
        scheduled_all(gates, cal, n) matches Ok(t) ==> {
            &&& t.instrs.len() == n
            &&& accounted(t)
            &&& forall|i: int|
                0 <= i < n ==> brings_about(#[trigger] t.instrs[i], unconditioned(gates[i]), cal)
                    && starts_at_once(t.instrs, i)
        },
    decreases n,
{
    if n > 0 {
        lemma_instructions(gates, cal, (n - 1) as nat);
        if let Ok(t) = scheduled_all(gates, cal, (n - 1) as nat) {
            lemma_one_instruction(t, cal, gates[n - 1]);
            if let Ok(u) = scheduled_all(gates, cal, n) {
                assert(u.instrs =~= t.instrs.push(u.instrs.last()));
                assert forall|i: int| 0 <= i < n implies brings_about(
                    #[trigger] u.instrs[i],
                    unconditioned(gates[i]),
                    cal,
                ) && starts_at_once(u.instrs, i) by {
                    if i < n - 1 {
                        assert(u.instrs[i] == t.instrs[i]);
                        assert(starts_at_once(t.instrs, i));
                        if t.instrs[i].start() != (Binary64 { bits: 0 }) {
                            let q = choose|q: usize|
                                on_qubit(t.instrs[i].line(), q) && #[trigger] ends_at(
                                    t.instrs,
                                    i,
                                    q,
                                    t.instrs[i].start(),
                                );
                            lemma_ends_kept(
                                t.instrs,
                                u.instrs.last(),
                                i,
                                q,
                                t.instrs[i].start(),
                            );
                            assert(ends_at(u.instrs, i, q, u.instrs[i].start()));
                        }
                    }
                }
            }
        }
    }
}

/// Gate by gate, in their order, a schedule holds the instruction that brings
/// this gate about, and it starts as soon as its qubits are free.
pub proof fn lemma_schedule_plays_gates(gates: Seq<BackendGate>, cal: PulseCalibration)
    ensures
        scheduled_all(gates, cal, gates.len()) matches Ok(t) ==> {
            &&& t.instrs.len() == gates.len()
            &&& forall|i: int|
                0 <= i < gates.len() ==> brings_about(
                    #[trigger] t.instrs[i],
                    unconditioned(gates[i]),
                    cal,
                ) && starts_at_once(t.instrs, i)
        },
{
    lemma_instructions(gates, cal, gates.len());
}

/// A schedule fails where there is a rotation of two qubits and no pulse for
/// it, and nowhere else.
pub proof fn lemma_schedule_succeeds(gates: Seq<BackendGate>, cal: PulseCalibration, n: nat)
    requires
        n <= gates.len(),
    ensures
        scheduled_all(gates, cal, n) is Ok <==> cal.rzz is Some || forall|i: int|
            0 <= i < n ==> !(unconditioned(#[trigger] gates[i]) is Rzz),
    decreases n,
{
    if n > 0 {
        lemma_schedule_succeeds(gates, cal, (n - 1) as nat);
        if let Ok(t) = scheduled_all(gates, cal, (n - 1) as nat) {
            lemma_scheduled_succeeds(t, cal, gates[n - 1]);
        }
        if cal.rzz is None && forall|i: int|
            0 <= i < n - 1 ==> !(unconditioned(#[trigger] gates[i]) is Rzz) {
            assert forall|i: int| 0 <= i < n && !(unconditioned(gates[n - 1]) is Rzz) implies !(
            unconditioned(#[trigger] gates[i]) is Rzz) by {}
        }
    }
}

proof fn lemma_scheduled_succeeds(t: Timeline, cal: PulseCalibration, g: BackendGate)
    ensures
        scheduled(t, cal, g) is Ok <==> cal.rzz is Some || !(unconditioned(g) is Rzz),
    decreases g,
{
    if let BackendGate::If(_, inner) = g {
        lemma_scheduled_succeeds(t, cal, *inner);
    }
}

} // verus!
