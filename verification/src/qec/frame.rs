//! How errors travel through the circuits of a code.
//!
//! A frame says how a run with errors and corrections differs from the run
//! without: by bit flips and phase flips on qubits, and by measured bits. In
//! the run without errors the syndrome is all zero.
use super::bit_flip::{both, ThreeQubitBitFlipCode};
use super::phase_flip::ThreeQubitPhaseFlipCode;
use super::StabilizerCode;
use crate::ir::{Conditions, Gate};
use vstd::prelude::*;

verus! {

/// Which qubits carry a bit flip, which a phase flip, and which classical
/// bits are one.
pub struct Frame {
    pub x: Set<usize>,
    pub z: Set<usize>,
    pub bits: Set<usize>,
}

/// Adds an element that is not there, or takes out one that is.
pub open spec fn toggled(s: Set<usize>, q: usize, on: bool) -> Set<usize> {
    if !on {
        s
    } else if s.contains(q) {
        s.remove(q)
    } else {
        s.insert(q)
    }
}

/// With an element, or without.
pub open spec fn written(s: Set<usize>, q: usize, on: bool) -> Set<usize> {
    if on {
        s.insert(q)
    } else {
        s.remove(q)
    }
}

/// Whether classical bits have the listed values.
pub open spec fn met(c: Conditions, bits: Set<usize>) -> bool
    decreases c,
{
    match c {
        Conditions::Always => true,
        Conditions::When(b, v, rest) => bits.contains(b) == v && met(*rest, bits),
    }
}

impl Frame {
    /// What a gate makes of a frame. `X`, `Y` and `Z` are errors or
    /// corrections; `H` exchanges the two kinds of flips; `Cx` carries bit
    /// flips to its target and phase flips to its control.
    pub open spec fn after(self, g: Gate) -> Frame
        decreases g,
    {
        match g {
            Gate::X(q) => Frame { x: toggled(self.x, q, true), ..self },
            Gate::Y(q) => Frame { x: toggled(self.x, q, true), z: toggled(self.z, q, true), ..self },
            Gate::Z(q) => Frame { z: toggled(self.z, q, true), ..self },
            Gate::H(q) => Frame {
                x: written(self.x, q, self.z.contains(q)),
                z: written(self.z, q, self.x.contains(q)),
                ..self
            },
            Gate::Cx(c, t) => Frame {
                x: toggled(self.x, t, self.x.contains(c)),
                z: toggled(self.z, c, self.z.contains(t)),
                ..self
            },
            Gate::Measure(q, c) => Frame { bits: written(self.bits, c, self.x.contains(q)), ..self },
            Gate::If(c, inner) => if met(c, self.bits) {
                self.after(*inner)
            } else {
                self
            },
            _ => self,
        }
    }

    /// What the first `n` gates make of a frame.
    pub open spec fn through(self, gates: Seq<Gate>, n: nat) -> Frame
        decreases n,
    {
        if n == 0 {
            self
        } else {
            self.through(gates, (n - 1) as nat).after(gates[n - 1])
        }
    }
}

/// No difference.
pub open spec fn no_flips() -> Frame {
    Frame { x: Set::empty(), z: Set::empty(), bits: Set::empty() }
}

/// Three data qubits, two ancillas and two classical bits, all different.
pub open spec fn separate(data: Seq<usize>, ancillas: Seq<usize>, bits: Seq<usize>) -> bool {
    &&& data.len() == 3
    &&& ancillas.len() == 2
    &&& bits.len() == 2
    &&& data[0] != data[1] && data[0] != data[2] && data[1] != data[2]
    &&& ancillas[0] != ancillas[1]
    &&& bits[0] != bits[1]
    &&& forall|i: int, j: int| 0 <= i < 3 && 0 <= j < 2 ==> #[trigger] data[i] != #[trigger] ancillas[j]
}

/// The gates of a round behind the encoding: syndrome, correction, decoding.
pub open spec fn recovery<C: StabilizerCode>(
    code: C,
    data: Seq<usize>,
    ancillas: Seq<usize>,
    bits: Seq<usize>,
) -> Seq<Gate> {
    code.extraction(data, ancillas, bits) + code.correction(data, bits) + code.decoding(data)
}

/// Gates one after the other.
pub proof fn lemma_through_joined(f: Frame, a: Seq<Gate>, b: Seq<Gate>, n: nat)
    requires
        n <= b.len(),
    ensures
        f.through(a + b, (a.len() + n) as nat) == f.through(a, a.len()).through(b, n),
    decreases n,
{
    if n == 0 {
        lemma_through_same(f, a + b, a, a.len());
    } else {
        lemma_through_joined(f, a, b, (n - 1) as nat);
        assert((a + b)[a.len() + n - 1] == b[n - 1]);
    }
}

proof fn lemma_through_same(f: Frame, a: Seq<Gate>, b: Seq<Gate>, n: nat)
    requires
        n <= a.len(),
        n <= b.len(),
        forall|i: int| 0 <= i < n ==> a[i] == b[i],
    ensures
        f.through(a, n) == f.through(b, n),
    decreases n,
{
    if n > 0 {
        lemma_through_same(f, a, b, (n - 1) as nat);
    }
}

/// The gates of a round, part by part.
proof fn lemma_recovery<C: StabilizerCode>(
    code: C,
    f: Frame,
    data: Seq<usize>,
    ancillas: Seq<usize>,
    bits: Seq<usize>,
)
    ensures
        ({
            let e = code.extraction(data, ancillas, bits);
            let c = code.correction(data, bits);
            let d = code.decoding(data);
            let all = recovery(code, data, ancillas, bits);
            f.through(all, all.len()) == f.through(e, e.len()).through(c, c.len()).through(d, d.len())
        }),
{
    let e = code.extraction(data, ancillas, bits);
    let c = code.correction(data, bits);
    let d = code.decoding(data);
    lemma_through_joined(f, e + c, d, d.len());
    lemma_through_joined(f, e, c, c.len());
}

/// The syndrome of the bit-flip code: the parities of neighbors.
proof fn lemma_bit_flip_syndrome(
    f: Frame,
    data: Seq<usize>,
    ancillas: Seq<usize>,
    bits: Seq<usize>,
)
    requires
        separate(data, ancillas, bits),
        !f.x.contains(ancillas[0]),
        !f.x.contains(ancillas[1]),
        !f.z.contains(ancillas[0]),
        !f.z.contains(ancillas[1]),
    ensures
        ({
            let e = ThreeQubitBitFlipCode.extraction(data, ancillas, bits);
            let g = f.through(e, e.len());
            &&& g.bits.contains(bits[0]) == (f.x.contains(data[0]) != f.x.contains(data[1]))
            &&& g.bits.contains(bits[1]) == (f.x.contains(data[1]) != f.x.contains(data[2]))
            &&& forall|i: int| 0 <= i < 3 ==> g.x.contains(#[trigger] data[i]) == f.x.contains(data[i])
            &&& forall|i: int| 0 <= i < 3 ==> g.z.contains(#[trigger] data[i]) == f.z.contains(data[i])
        }),
{
    let e = ThreeQubitBitFlipCode.extraction(data, ancillas, bits);
    assert(data[0] != ancillas[0] && data[0] != ancillas[1]);
    assert(data[1] != ancillas[0] && data[1] != ancillas[1]);
    assert(data[2] != ancillas[0] && data[2] != ancillas[1]);
    let f1 = f.after(e[0]);
    let f2 = f1.after(e[1]);
    let f3 = f2.after(e[2]);
    let f4 = f3.after(e[3]);
    let f5 = f4.after(e[4]);
    let f6 = f5.after(e[5]);
    assert(f.through(e, 0) == f);
    assert(f.through(e, 1) == f1);
    assert(f.through(e, 2) == f2);
    assert(f.through(e, 3) == f3);
    assert(f.through(e, 4) == f4);
    assert(f.through(e, 5) == f5);
    assert(f.through(e, 6) == f6);
}

/// The corrections flip the qubit that a syndrome stands for.
proof fn lemma_bit_flip_correction(f: Frame, data: Seq<usize>, bits: Seq<usize>)
    requires
        data.len() == 3,
        bits.len() == 2,
    ensures
        ({
            let c = ThreeQubitBitFlipCode.correction(data, bits);
            let s = f.bits.contains(bits[0]);
            let t = f.bits.contains(bits[1]);
            f.through(c, c.len()) == (if s && !t {
                f.after(Gate::X(data[0]))
            } else if s && t {
                f.after(Gate::X(data[1]))
            } else if t {
                f.after(Gate::X(data[2]))
            } else {
                f
            })
        }),
{
    let c = ThreeQubitBitFlipCode.correction(data, bits);
    lemma_both(bits[0], true, bits[1], false, f.bits);
    lemma_both(bits[0], true, bits[1], true, f.bits);
    lemma_both(bits[0], false, bits[1], true, f.bits);
    assert(c[0] == Gate::If(both(bits[0], true, bits[1], false), Box::new(Gate::X(data[0]))));
    assert(c[1] == Gate::If(both(bits[0], true, bits[1], true), Box::new(Gate::X(data[1]))));
    assert(c[2] == Gate::If(both(bits[0], false, bits[1], true), Box::new(Gate::X(data[2]))));
    reveal_with_fuel(Frame::after, 3);
    assert(f.through(c, 0) == f);
    let f1 = f.through(c, 1);
    let f2 = f.through(c, 2);
    assert(f1 == f.after(c[0]));
    assert(f2 == f1.after(c[1]));
    assert(f.through(c, 3) == f2.after(c[2]));
    assert(f1.bits == f.bits && f2.bits == f.bits);
}

proof fn lemma_both(c: usize, v: bool, d: usize, w: bool, bits: Set<usize>)
    ensures
        met(both(c, v, d, w), bits) == (bits.contains(c) == v && bits.contains(d) == w),
{
    reveal_with_fuel(met, 3);
}

/// How the bit-flip code leaves the logical qubit: a bit flip stays where
/// more than one data qubit was flipped, a phase flip where an odd number
/// was.
pub proof fn lemma_bit_flip_round(
    f: Frame,
    data: Seq<usize>,
    ancillas: Seq<usize>,
    bits: Seq<usize>,
)
    requires
        separate(data, ancillas, bits),
        !f.x.contains(ancillas[0]),
        !f.x.contains(ancillas[1]),
        !f.z.contains(ancillas[0]),
        !f.z.contains(ancillas[1]),
    ensures
        ({
            let all = recovery(ThreeQubitBitFlipCode, data, ancillas, bits);
            let g = f.through(all, all.len());
            let a = f.x.contains(data[0]);
            let b = f.x.contains(data[1]);
            let c = f.x.contains(data[2]);
            &&& g.x.contains(data[0]) == ((a && b) || (a && c) || (b && c))
            &&& g.z.contains(data[0]) == ((f.z.contains(data[0]) != f.z.contains(data[1]))
                != f.z.contains(data[2]))
            &&& !g.x.contains(data[1])
            &&& !g.x.contains(data[2])
        }),
{
    let e = ThreeQubitBitFlipCode.extraction(data, ancillas, bits);
    let c = ThreeQubitBitFlipCode.correction(data, bits);
    let d = ThreeQubitBitFlipCode.decoding(data);
    lemma_recovery(ThreeQubitBitFlipCode, f, data, ancillas, bits);
    lemma_bit_flip_syndrome(f, data, ancillas, bits);
    let g = f.through(e, e.len());
    lemma_bit_flip_correction(g, data, bits);
    let h = g.through(c, c.len());
    assert(g.x.contains(data[0]) == f.x.contains(data[0]));
    assert(g.x.contains(data[1]) == f.x.contains(data[1]));
    assert(g.x.contains(data[2]) == f.x.contains(data[2]));
    assert(g.z.contains(data[0]) == f.z.contains(data[0]));
    assert(g.z.contains(data[1]) == f.z.contains(data[1]));
    assert(g.z.contains(data[2]) == f.z.contains(data[2]));
    assert(h.z == g.z);
    let h1 = h.after(d[0]);
    assert(h.through(d, 0) == h);
    assert(h.through(d, 1) == h1);
    assert(h.through(d, 2) == h1.after(d[1]));
}

/// The bit-flip code corrects a bit flip on any one of its qubits.
pub proof fn lemma_bit_flip_corrects(
    data: Seq<usize>,
    ancillas: Seq<usize>,
    bits: Seq<usize>,
    error: int,
)
    requires
        separate(data, ancillas, bits),
        0 <= error < 3,
    ensures
        ({
            let all = recovery(ThreeQubitBitFlipCode, data, ancillas, bits);
            let g = no_flips().after(Gate::X(data[error])).through(all, all.len());
            let h = no_flips().through(all, all.len());
            &&& !g.x.contains(data[0]) && !g.z.contains(data[0])
            &&& !h.x.contains(data[0]) && !h.z.contains(data[0])
        }),
{
    lemma_bit_flip_round(no_flips().after(Gate::X(data[error])), data, ancillas, bits);
    lemma_bit_flip_round(no_flips(), data, ancillas, bits);
}

/// The syndrome of the phase-flip code.
proof fn lemma_phase_flip_syndrome(
    f: Frame,
    data: Seq<usize>,
    ancillas: Seq<usize>,
    bits: Seq<usize>,
)
    requires
        separate(data, ancillas, bits),
        !f.x.contains(ancillas[0]),
        !f.x.contains(ancillas[1]),
        !f.z.contains(ancillas[0]),
        !f.z.contains(ancillas[1]),
    ensures
        ({
            let e = ThreeQubitPhaseFlipCode.extraction(data, ancillas, bits);
            let g = f.through(e, e.len());
            &&& g.bits.contains(bits[0]) == (f.z.contains(data[0]) != f.z.contains(data[1]))
            &&& g.bits.contains(bits[1]) == (f.z.contains(data[1]) != f.z.contains(data[2]))
            &&& forall|i: int| 0 <= i < 3 ==> g.x.contains(#[trigger] data[i]) == f.x.contains(data[i])
            &&& forall|i: int| 0 <= i < 3 ==> g.z.contains(#[trigger] data[i]) == f.z.contains(data[i])
        }),
{
    let e = ThreeQubitPhaseFlipCode.extraction(data, ancillas, bits);
    assert(data[0] != ancillas[0] && data[0] != ancillas[1]);
    assert(data[1] != ancillas[0] && data[1] != ancillas[1]);
    assert(data[2] != ancillas[0] && data[2] != ancillas[1]);
    let f1 = f.after(e[0]);
    let f2 = f1.after(e[1]);
    let f3 = f2.after(e[2]);
    let f4 = f3.after(e[3]);
    let f5 = f4.after(e[4]);
    let f6 = f5.after(e[5]);
    let f7 = f6.after(e[6]);
    let f8 = f7.after(e[7]);
    let f9 = f8.after(e[8]);
    let f10 = f9.after(e[9]);
    assert(f.through(e, 0) == f);
    assert(f.through(e, 1) == f1);
    assert(f.through(e, 2) == f2);
    assert(f.through(e, 3) == f3);
    assert(f.through(e, 4) == f4);
    assert(f.through(e, 5) == f5);
    assert(f.through(e, 6) == f6);
    assert(f.through(e, 7) == f7);
    assert(f.through(e, 8) == f8);
    assert(f.through(e, 9) == f9);
    assert(f.through(e, 10) == f10);
}

proof fn lemma_phase_flip_correction(f: Frame, data: Seq<usize>, bits: Seq<usize>)
    requires
        data.len() == 3,
        bits.len() == 2,
    ensures
        ({
            let c = ThreeQubitPhaseFlipCode.correction(data, bits);
            let s = f.bits.contains(bits[0]);
            let t = f.bits.contains(bits[1]);
            f.through(c, c.len()) == (if s && !t {
                f.after(Gate::Z(data[0]))
            } else if s && t {
                f.after(Gate::Z(data[1]))
            } else if t {
                f.after(Gate::Z(data[2]))
            } else {
                f
            })
        }),
{
    let c = ThreeQubitPhaseFlipCode.correction(data, bits);
    lemma_both(bits[0], true, bits[1], false, f.bits);
    lemma_both(bits[0], true, bits[1], true, f.bits);
    lemma_both(bits[0], false, bits[1], true, f.bits);
    assert(c[0] == Gate::If(both(bits[0], true, bits[1], false), Box::new(Gate::Z(data[0]))));
    assert(c[1] == Gate::If(both(bits[0], true, bits[1], true), Box::new(Gate::Z(data[1]))));
    assert(c[2] == Gate::If(both(bits[0], false, bits[1], true), Box::new(Gate::Z(data[2]))));
    reveal_with_fuel(Frame::after, 3);
    assert(f.through(c, 0) == f);
    let f1 = f.through(c, 1);
    let f2 = f.through(c, 2);
    assert(f1 == f.after(c[0]));
    assert(f2 == f1.after(c[1]));
    assert(f.through(c, 3) == f2.after(c[2]));
    assert(f1.bits == f.bits && f2.bits == f.bits);
}

/// How the phase-flip code leaves the logical qubit: a bit flip stays where
/// more than one data qubit had its phase flipped, a phase flip where an odd
/// number had its bit flipped.
pub proof fn lemma_phase_flip_round(
    f: Frame,
    data: Seq<usize>,
    ancillas: Seq<usize>,
    bits: Seq<usize>,
)
    requires
        separate(data, ancillas, bits),
        !f.x.contains(ancillas[0]),
        !f.x.contains(ancillas[1]),
        !f.z.contains(ancillas[0]),
        !f.z.contains(ancillas[1]),
    ensures
        ({
            let all = recovery(ThreeQubitPhaseFlipCode, data, ancillas, bits);
            let g = f.through(all, all.len());
            let a = f.z.contains(data[0]);
            let b = f.z.contains(data[1]);
            let c = f.z.contains(data[2]);
            &&& g.x.contains(data[0]) == ((a && b) || (a && c) || (b && c))
            &&& g.z.contains(data[0]) == ((f.x.contains(data[0]) != f.x.contains(data[1]))
                != f.x.contains(data[2]))
            &&& !g.x.contains(data[1])
            &&& !g.x.contains(data[2])
        }),
{
    let e = ThreeQubitPhaseFlipCode.extraction(data, ancillas, bits);
    let c = ThreeQubitPhaseFlipCode.correction(data, bits);
    let d = ThreeQubitPhaseFlipCode.decoding(data);
    lemma_recovery(ThreeQubitPhaseFlipCode, f, data, ancillas, bits);
    lemma_phase_flip_syndrome(f, data, ancillas, bits);
    let g = f.through(e, e.len());
    lemma_phase_flip_correction(g, data, bits);
    let h = g.through(c, c.len());
    assert(g.x.contains(data[0]) == f.x.contains(data[0]));
    assert(g.x.contains(data[1]) == f.x.contains(data[1]));
    assert(g.x.contains(data[2]) == f.x.contains(data[2]));
    assert(g.z.contains(data[0]) == f.z.contains(data[0]));
    assert(g.z.contains(data[1]) == f.z.contains(data[1]));
    assert(g.z.contains(data[2]) == f.z.contains(data[2]));
    assert(h.x == g.x);
    let h1 = h.after(d[0]);
    let h2 = h1.after(d[1]);
    let h3 = h2.after(d[2]);
    let h4 = h3.after(d[3]);
    assert(h.through(d, 0) == h);
    assert(h.through(d, 1) == h1);
    assert(h.through(d, 2) == h2);
    assert(h.through(d, 3) == h3);
    assert(h.through(d, 4) == h4);
    assert(h.through(d, 5) == h4.after(d[4]));
}

/// The phase-flip code corrects a phase flip on any one of its qubits.
pub proof fn lemma_phase_flip_corrects(
    data: Seq<usize>,
    ancillas: Seq<usize>,
    bits: Seq<usize>,
    error: int,
)
    requires
        separate(data, ancillas, bits),
        0 <= error < 3,
    ensures
        ({
            let all = recovery(ThreeQubitPhaseFlipCode, data, ancillas, bits);
            let g = no_flips().after(Gate::Z(data[error])).through(all, all.len());
            let h = no_flips().through(all, all.len());
            &&& !g.x.contains(data[0]) && !g.z.contains(data[0])
            &&& !h.x.contains(data[0]) && !h.z.contains(data[0])
        }),
{
    lemma_phase_flip_round(no_flips().after(Gate::Z(data[error])), data, ancillas, bits);
    lemma_phase_flip_round(no_flips(), data, ancillas, bits);
}

/// A phase flip anywhere on the bit-flip code, and a bit flip anywhere on the
/// phase-flip code, is a phase flip of the logical qubit.
pub proof fn lemma_other_flips_stay(
    data: Seq<usize>,
    ancillas: Seq<usize>,
    bits: Seq<usize>,
    error: int,
)
    requires
        separate(data, ancillas, bits),
        0 <= error < 3,
    ensures
        ({
            let a = recovery(ThreeQubitBitFlipCode, data, ancillas, bits);
            let b = recovery(ThreeQubitPhaseFlipCode, data, ancillas, bits);
            let g = no_flips().after(Gate::Z(data[error])).through(a, a.len());
            let h = no_flips().after(Gate::X(data[error])).through(b, b.len());
            &&& !g.x.contains(data[0]) && g.z.contains(data[0])
            &&& !h.x.contains(data[0]) && h.z.contains(data[0])
        }),
{
    lemma_bit_flip_round(no_flips().after(Gate::Z(data[error])), data, ancillas, bits);
    lemma_phase_flip_round(no_flips().after(Gate::X(data[error])), data, ancillas, bits);
}

/// Bit flips on two qubits of the bit-flip code are taken for one on the
/// third, and the logical qubit is flipped.
pub proof fn lemma_bit_flip_miscorrects(
    data: Seq<usize>,
    ancillas: Seq<usize>,
    bits: Seq<usize>,
    first: int,
    second: int,
)
    requires
        separate(data, ancillas, bits),
        0 <= first < second < 3,
    ensures
        ({
            let all = recovery(ThreeQubitBitFlipCode, data, ancillas, bits);
            let g = no_flips().after(Gate::X(data[first])).after(Gate::X(data[second])).through(
                all,
                all.len(),
            );
            g.x.contains(data[0]) && !g.z.contains(data[0])
        }),
{
    lemma_bit_flip_round(
        no_flips().after(Gate::X(data[first])).after(Gate::X(data[second])),
        data,
        ancillas,
        bits,
    );
}

/// Decoding undoes encoding: every flip comes out as it went in.
pub proof fn lemma_decoding_undoes_encoding(f: Frame, data: Seq<usize>)
    requires
        data.len() == 3,
        data[0] != data[1] && data[0] != data[2] && data[1] != data[2],
    ensures
        ({
            let a = ThreeQubitBitFlipCode.encoding(data) + ThreeQubitBitFlipCode.decoding(data);
            let b = ThreeQubitPhaseFlipCode.encoding(data) + ThreeQubitPhaseFlipCode.decoding(data);
            f.through(a, a.len()) == f && f.through(b, b.len()) == f
        }),
{
    let a = ThreeQubitBitFlipCode.encoding(data) + ThreeQubitBitFlipCode.decoding(data);
    let f1 = f.after(a[0]);
    let f2 = f1.after(a[1]);
    let f3 = f2.after(a[2]);
    let f4 = f3.after(a[3]);
    assert(f.through(a, 0) == f);
    assert(f.through(a, 1) == f1);
    assert(f.through(a, 2) == f2);
    assert(f.through(a, 3) == f3);
    assert(f.through(a, 4) == f4);
    assert(f3.x =~= f1.x && f3.z =~= f1.z);
    assert(f4.x =~= f.x && f4.z =~= f.z);
    let b = ThreeQubitPhaseFlipCode.encoding(data) + ThreeQubitPhaseFlipCode.decoding(data);
    let g1 = f.after(b[0]);
    let g2 = g1.after(b[1]);
    let g3 = g2.after(b[2]);
    let g4 = g3.after(b[3]);
    let g5 = g4.after(b[4]);
    let g6 = g5.after(b[5]);
    let g7 = g6.after(b[6]);
    let g8 = g7.after(b[7]);
    let g9 = g8.after(b[8]);
    let g10 = g9.after(b[9]);
    assert(f.through(b, 0) == f);
    assert(f.through(b, 1) == g1);
    assert(f.through(b, 2) == g2);
    assert(f.through(b, 3) == g3);
    assert(f.through(b, 4) == g4);
    assert(f.through(b, 5) == g5);
    assert(f.through(b, 6) == g6);
    assert(f.through(b, 7) == g7);
    assert(f.through(b, 8) == g8);
    assert(f.through(b, 9) == g9);
    assert(f.through(b, 10) == g10);
    assert(g8.x =~= g2.x && g8.z =~= g2.z);
    assert(g9.x =~= g1.x && g9.z =~= g1.z);
    assert(g10.x =~= f.x && g10.z =~= f.z);
}

} // verus!
