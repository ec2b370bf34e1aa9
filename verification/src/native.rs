//! Decomposition into rotations about Z and Y and one two-qubit rotation.
use crate::angle::{
    does_turn, euler_of_one, half, halved, synthesizes, total, turns, Euler, EulerOf, Turn,
    HALF_PI_BITS, PI_BITS,
};
use crate::binary64::{negated, Binary64};
use crate::ir::{Circuit, Conditions, Gate};
use vstd::prelude::*;

verus! {

/// A gate of the native set.
#[derive(Debug, PartialEq)]
pub enum NativeGate {
    Rz(usize, Binary64),
    Ry(usize, Binary64),
    Rzz(usize, usize, Binary64),
    Measure(usize, usize),
    /// A gate that acts only where classical bits have given values.
    If(Conditions, Box<NativeGate>),
}

impl NativeGate {
    pub fn copy(&self) -> (r: NativeGate)
        ensures
            r == *self,
        decreases self,
    {
        match self {
            NativeGate::Rz(q, t) => NativeGate::Rz(*q, *t),
            NativeGate::Ry(q, t) => NativeGate::Ry(*q, *t),
            NativeGate::Rzz(a, b, t) => NativeGate::Rzz(*a, *b, *t),
            NativeGate::Measure(q, c) => NativeGate::Measure(*q, *c),
            NativeGate::If(c, g) => NativeGate::If(c.copy(), Box::new(g.copy())),
        }
    }

    /// The qubits that a gate touches.
    pub open spec fn wires(self) -> Seq<usize>
        decreases self,
    {
        match self {
            NativeGate::Rz(q, _) | NativeGate::Ry(q, _) | NativeGate::Measure(q, _) => seq![q],
            NativeGate::Rzz(a, b, _) => seq![a, b],
            NativeGate::If(_, g) => g.wires(),
        }
    }
}

impl Clone for NativeGate {
    fn clone(&self) -> (r: Self)
        ensures
            r == *self,
    {
        self.copy()
    }
}

/// A circuit of native gates.
#[derive(Debug)]
pub struct NativeCircuit {
    pub num_qubits: usize,
    pub num_clbits: usize,
    pub gates: Vec<NativeGate>,
}

/// A copy of a list of gates.
pub fn copy_native(gates: &Vec<NativeGate>) -> (r: Vec<NativeGate>)
    ensures
        r@ == gates@,
{
    let mut out: Vec<NativeGate> = Vec::new();
    let mut i: usize = 0;
    while i < gates.len()
        invariant
            0 <= i <= gates.len(),
            out@ == gates@.take(i as int),
        decreases gates.len() - i,
    {
        out.push(gates[i].copy());
        i = i + 1;
    }
    assert(out@ =~= gates@);
    out
}

impl Clone for NativeCircuit {
    fn clone(&self) -> (r: Self)
        ensures
            r.num_qubits == self.num_qubits,
            r.num_clbits == self.num_clbits,
            r.gates@ == self.gates@,
    {
        NativeCircuit {
            num_qubits: self.num_qubits,
            num_clbits: self.num_clbits,
            gates: copy_native(&self.gates),
        }
    }
}

impl Default for NativeCircuit {
    fn default() -> (r: Self)
        ensures
            r.num_qubits == 0,
            r.num_clbits == 0,
            r.gates@ == Seq::<NativeGate>::empty(),
    {
        NativeCircuit { num_qubits: 0, num_clbits: 0, gates: Vec::new() }
    }
}

/// Whether a gate is a rotation of one qubit, conditioned or not.
pub open spec fn is_single(g: NativeGate) -> bool
    decreases g,
{
    match g {
        NativeGate::Rz(_, _) | NativeGate::Ry(_, _) => true,
        NativeGate::If(_, inner) => is_single(*inner),
        _ => false,
    }
}

/// Whether a gate is a rotation of two qubits, conditioned or not.
pub open spec fn is_double(g: NativeGate) -> bool
    decreases g,
{
    match g {
        NativeGate::Rzz(_, _, _) => true,
        NativeGate::If(_, inner) => is_double(*inner),
        _ => false,
    }
}

pub open spec fn count_single(gates: Seq<NativeGate>) -> nat
    decreases gates.len(),
{
    if gates.len() == 0 {
        0
    } else {
        count_single(gates.drop_last()) + (if is_single(gates.last()) {
            1nat
        } else {
            0
        })
    }
}

pub open spec fn count_double(gates: Seq<NativeGate>) -> nat
    decreases gates.len(),
{
    if gates.len() == 0 {
        0
    } else {
        count_double(gates.drop_last()) + (if is_double(gates.last()) {
            1nat
        } else {
            0
        })
    }
}

/// 1 for a rotation of one qubit, 2 for one of two, 0 for a measurement.
pub(crate) fn kind_of(g: &NativeGate) -> (r: u8)
    ensures
        (r == 1) == is_single(*g),
        (r == 2) == is_double(*g),
    decreases g,
{
    match g {
        NativeGate::Rz(_, _) => 1,
        NativeGate::Ry(_, _) => 1,
        NativeGate::Rzz(_, _, _) => 2,
        NativeGate::Measure(_, _) => 0,
        NativeGate::If(_, inner) => kind_of(inner),
    }
}

impl NativeCircuit {
    pub fn new(num_qubits: usize) -> (r: Self)
        ensures
            r.num_qubits == num_qubits,
            r.num_clbits == 0,
            r.gates@ == Seq::<NativeGate>::empty(),
    {
        NativeCircuit { num_qubits, num_clbits: 0, gates: Vec::new() }
    }

    /// Adds a gate at the end.
    pub fn push(&mut self, g: NativeGate)
        ensures
            final(self).num_qubits == old(self).num_qubits,
            final(self).num_clbits == old(self).num_clbits,
            final(self).gates@ == old(self).gates@.push(g),
    {
        self.gates.push(g);
    }

    /// Adds gates at the end.
    pub fn extend(&mut self, other: Vec<NativeGate>)
        ensures
            final(self).num_qubits == old(self).num_qubits,
            final(self).num_clbits == old(self).num_clbits,
            final(self).gates@ == old(self).gates@ + other@,
    {
        let mut more = other;
        self.gates.append(&mut more);
    }

    /// How many rotations of one qubit and of two qubits there are.
    /// Measurements count as neither.
    pub fn gate_counts(&self) -> (r: (usize, usize))
        ensures
            r.0 == count_single(self.gates@),
            r.1 == count_double(self.gates@),
            r.0 + r.1 <= self.gates.len(),
    {
        let mut single: usize = 0;
        let mut double: usize = 0;
        let mut i: usize = 0;
        assert(self.gates@.take(0) =~= Seq::empty());
        while i < self.gates.len()
            invariant
                0 <= i <= self.gates.len(),
                single + double <= i,
                single == count_single(self.gates@.take(i as int)),
                double == count_double(self.gates@.take(i as int)),
            decreases self.gates.len() - i,
        {
            assert(self.gates@.take(i + 1).drop_last() =~= self.gates@.take(i as int));
            let k = kind_of(&self.gates[i]);
            if k == 1 {
                single = single + 1;
            } else if k == 2 {
                double = double + 1;
            }
            i = i + 1;
        }
        assert(self.gates@.take(i as int) =~= self.gates@);
        (single, double)
    }
}

pub open spec fn pi() -> Binary64 {
    Binary64 { bits: PI_BITS }
}

/// A gate if its angle does something.
pub open spec fn if_turns(a: Binary64, g: NativeGate) -> Seq<NativeGate> {
    if turns(a) {
        seq![g]
    } else {
        Seq::empty()
    }
}

/// An operation on one qubit as three rotations.
pub open spec fn single_gates(q: usize, t: Turn, e: EulerOf) -> Seq<NativeGate> {
    let x = e(seq![t]);
    if_turns(x.delta, NativeGate::Rz(q, x.delta)) + if_turns(x.gamma, NativeGate::Ry(q, x.gamma))
        + if_turns(x.beta, NativeGate::Rz(q, x.beta))
}

/// A controlled phase: half of it on each qubit, and half of it taken back
/// where the qubits differ.
pub open spec fn phase_gates(a: usize, b: usize, lambda: Binary64) -> Seq<NativeGate> {
    let phi = half(lambda);
    if turns(phi) {
        seq![NativeGate::Rz(a, phi), NativeGate::Rz(b, phi), NativeGate::Rzz(a, b, negated(phi))]
    } else {
        Seq::empty()
    }
}

pub open spec fn cx_gates(c: usize, t: usize, e: EulerOf) -> Seq<NativeGate> {
    single_gates(t, Turn::H, e) + phase_gates(c, t, pi()) + single_gates(t, Turn::H, e)
}

/// A two-qubit rotation between operations that turn its axes.
pub open spec fn turned_rzz(
    a: usize,
    b: usize,
    theta: Binary64,
    before: Turn,
    after: Turn,
    e: EulerOf,
) -> Seq<NativeGate> {
    single_gates(a, before, e) + single_gates(b, before, e) + if_turns(
        theta,
        NativeGate::Rzz(a, b, theta),
    ) + single_gates(a, after, e) + single_gates(b, after, e)
}

/// Each gate under the same conditions.
pub open spec fn conditioned(c: Conditions, gates: Seq<NativeGate>) -> Seq<NativeGate> {
    gates.map_values(|g: NativeGate| NativeGate::If(c, Box::new(g)))
}

/// The native gates of a source gate.
pub open spec fn native_gates(g: Gate, e: EulerOf) -> Seq<NativeGate>
    decreases g,
{
    match g {
        Gate::Measure(q, c) => seq![NativeGate::Measure(q, c)],
        Gate::H(q) => single_gates(q, Turn::H, e),
        Gate::X(q) => single_gates(q, Turn::X, e),
        Gate::Y(q) => single_gates(q, Turn::Y, e),
        Gate::Z(q) => single_gates(q, Turn::Z, e),
        Gate::S(q) => single_gates(q, Turn::S, e),
        Gate::Sdg(q) => single_gates(q, Turn::Sdg, e),
        Gate::T(q) => single_gates(q, Turn::T, e),
        Gate::Tdg(q) => single_gates(q, Turn::Tdg, e),
        Gate::Rx(q, t) => single_gates(q, Turn::Rx(t), e),
        Gate::Ry(q, t) => if_turns(t, NativeGate::Ry(q, t)),
        Gate::Rz(q, t) => if_turns(t, NativeGate::Rz(q, t)),
        Gate::Rzz(a, b, t) => if_turns(t, NativeGate::Rzz(a, b, t)),
        Gate::Cp(a, b, l) => phase_gates(a, b, l),
        Gate::Cz(a, b) => phase_gates(a, b, pi()),
        Gate::Cx(c, t) => cx_gates(c, t, e),
        Gate::Swap(a, b) => cx_gates(a, b, e) + cx_gates(b, a, e) + cx_gates(a, b, e),
        Gate::Rxx(a, b, t) => turned_rzz(a, b, t, Turn::H, Turn::H, e),
        Gate::Ryy(a, b, t) => turned_rzz(
            a,
            b,
            t,
            Turn::Rx(Binary64 { bits: HALF_PI_BITS }),
            Turn::Rx(negated(Binary64 { bits: HALF_PI_BITS })),
            e,
        ),
        Gate::If(c, inner) => conditioned(c, native_gates(*inner, e)),
    }
}

/// The native gates of the first `n` source gates.
pub open spec fn all_native_gates(gates: Seq<Gate>, n: nat, e: EulerOf) -> Seq<NativeGate>
    decreases n,
{
    if n == 0 {
        Seq::empty()
    } else {
        all_native_gates(gates, (n - 1) as nat, e) + native_gates(gates[n - 1], e)
    }
}

pub(crate) fn push_if_turns(out: &mut Vec<NativeGate>, a: Binary64, g: NativeGate)
    ensures
        final(out)@ == old(out)@ + if_turns(a, g),
{
    let ghost before = out@;
    if does_turn(a) {
        out.push(g);
    }
    assert(out@ =~= before + if_turns(a, g));
}

pub(crate) fn push_single<F: Fn(&Vec<Turn>) -> Euler>(out: &mut Vec<NativeGate>, q: usize, t: Turn, euler: &F)
    requires
        total(*euler),
    ensures
        forall|e: EulerOf| #[trigger]
            synthesizes(*euler, e) ==> final(out)@ == old(out)@ + single_gates(q, t, e),
{
    let ghost before = out@;
    let x = euler_of_one(euler, t);
    push_if_turns(out, x.delta, NativeGate::Rz(q, x.delta));
    push_if_turns(out, x.gamma, NativeGate::Ry(q, x.gamma));
    push_if_turns(out, x.beta, NativeGate::Rz(q, x.beta));
    proof {
        assert forall|e: EulerOf| #[trigger] synthesizes(*euler, e) implies out@ == before
            + single_gates(q, t, e) by {
            assert(out@ =~= before + single_gates(q, t, e));
        }
    }
}

fn push_phase(out: &mut Vec<NativeGate>, a: usize, b: usize, lambda: Binary64)
    ensures
        final(out)@ == old(out)@ + phase_gates(a, b, lambda),
{
    let ghost before = out@;
    let phi = halved(lambda);
    if does_turn(phi) {
        out.push(NativeGate::Rz(a, phi));
        out.push(NativeGate::Rz(b, phi));
        out.push(NativeGate::Rzz(a, b, phi.neg()));
    }
    assert(out@ =~= before + phase_gates(a, b, lambda));
}

fn push_cx<F: Fn(&Vec<Turn>) -> Euler>(out: &mut Vec<NativeGate>, c: usize, t: usize, euler: &F)
    requires
        total(*euler),
    ensures
        forall|e: EulerOf| #[trigger]
            synthesizes(*euler, e) ==> final(out)@ == old(out)@ + cx_gates(c, t, e),
{
    let ghost before = out@;
    push_single(out, t, Turn::H, euler);
    push_phase(out, c, t, Binary64 { bits: PI_BITS });
    push_single(out, t, Turn::H, euler);
    proof {
        assert forall|e: EulerOf| #[trigger] synthesizes(*euler, e) implies out@ == before + cx_gates(
            c,
            t,
            e,
        ) by {
            assert(out@ =~= before + cx_gates(c, t, e));
        }
    }
}

fn push_turned_rzz<F: Fn(&Vec<Turn>) -> Euler>(
    out: &mut Vec<NativeGate>,
    a: usize,
    b: usize,
    theta: Binary64,
    first: Turn,
    last: Turn,
    euler: &F,
)
    requires
        total(*euler),
    ensures
        forall|e: EulerOf| #[trigger]
            synthesizes(*euler, e) ==> final(out)@ == old(out)@ + turned_rzz(
                a,
                b,
                theta,
                first,
                last,
                e,
            ),
{
    let ghost before = out@;
    push_single(out, a, first, euler);
    push_single(out, b, first, euler);
    push_if_turns(out, theta, NativeGate::Rzz(a, b, theta));
    push_single(out, a, last, euler);
    push_single(out, b, last, euler);
    proof {
        assert forall|e: EulerOf| #[trigger] synthesizes(*euler, e) implies out@ == before
            + turned_rzz(a, b, theta, first, last, e) by {
            assert(out@ =~= before + turned_rzz(a, b, theta, first, last, e));
        }
    }
}

/// Appends the native gates of a source gate.
pub fn decompose_gate<F: Fn(&Vec<Turn>) -> Euler>(out: &mut Vec<NativeGate>, gate: &Gate, euler: &F)
    requires
        total(*euler),
    ensures
        forall|e: EulerOf| #[trigger]
            synthesizes(*euler, e) ==> final(out)@ == old(out)@ + native_gates(*gate, e),
    decreases gate,
{
    let ghost before = out@;
    match gate {
        Gate::Measure(q, c) => {
            out.push(NativeGate::Measure(*q, *c));
        },
        Gate::H(q) => push_single(out, *q, Turn::H, euler),
        Gate::X(q) => push_single(out, *q, Turn::X, euler),
        Gate::Y(q) => push_single(out, *q, Turn::Y, euler),
        Gate::Z(q) => push_single(out, *q, Turn::Z, euler),
        Gate::S(q) => push_single(out, *q, Turn::S, euler),
        Gate::Sdg(q) => push_single(out, *q, Turn::Sdg, euler),
        Gate::T(q) => push_single(out, *q, Turn::T, euler),
        Gate::Tdg(q) => push_single(out, *q, Turn::Tdg, euler),
        Gate::Rx(q, t) => push_single(out, *q, Turn::Rx(*t), euler),
        Gate::Ry(q, t) => push_if_turns(out, *t, NativeGate::Ry(*q, *t)),
        Gate::Rz(q, t) => push_if_turns(out, *t, NativeGate::Rz(*q, *t)),
        Gate::Rzz(a, b, t) => push_if_turns(out, *t, NativeGate::Rzz(*a, *b, *t)),
        Gate::Cp(a, b, l) => push_phase(out, *a, *b, *l),
        Gate::Cz(a, b) => push_phase(out, *a, *b, Binary64 { bits: PI_BITS }),
        Gate::Cx(c, t) => push_cx(out, *c, *t, euler),
        Gate::Swap(a, b) => {
            push_cx(out, *a, *b, euler);
            push_cx(out, *b, *a, euler);
            push_cx(out, *a, *b, euler);
        },
        Gate::Rxx(a, b, t) => push_turned_rzz(out, *a, *b, *t, Turn::H, Turn::H, euler),
        Gate::Ryy(a, b, t) => {
            let quarter = Binary64 { bits: HALF_PI_BITS };
            push_turned_rzz(out, *a, *b, *t, Turn::Rx(quarter), Turn::Rx(quarter.neg()), euler);
        },
        Gate::If(c, inner) => {
            let mut body: Vec<NativeGate> = Vec::new();
            decompose_gate(&mut body, inner, euler);
            push_conditioned(out, c, &body);
            assert forall|e: EulerOf| #[trigger] synthesizes(*euler, e) implies out@ == before
                + native_gates(*gate, e) by {
                assert(Seq::<NativeGate>::empty() + native_gates(**inner, e) =~= native_gates(
                    **inner,
                    e,
                ));
            }
        },
    }
    proof {
        assert forall|e: EulerOf| #[trigger] synthesizes(*euler, e) implies out@ == before
            + native_gates(*gate, e) by {
            assert(out@ =~= before + native_gates(*gate, e));
        }
    }
}

fn push_conditioned(out: &mut Vec<NativeGate>, c: &Conditions, body: &Vec<NativeGate>)
    ensures
        final(out)@ == old(out)@ + conditioned(*c, body@),
{
    let ghost before = out@;
    let mut i: usize = 0;
    assert(out@ =~= before + conditioned(*c, body@.take(0)));
    while i < body.len()
        invariant
            0 <= i <= body.len(),
            out@ == before + conditioned(*c, body@.take(i as int)),
        decreases body.len() - i,
    {
        out.push(NativeGate::If(c.copy(), Box::new(body[i].copy())));
        i = i + 1;
        assert(out@ =~= before + conditioned(*c, body@.take(i as int)));
    }
    assert(body@.take(i as int) =~= body@);
}

/// The circuit in native gates. `euler` gives the Euler angles of a series
/// of single-qubit operations.
pub fn decompose<F: Fn(&Vec<Turn>) -> Euler>(circuit: &Circuit, euler: &F) -> (r: NativeCircuit)
    requires
        total(*euler),
    ensures
        r.num_qubits == circuit.num_qubits,
        r.num_clbits == circuit.num_clbits,
        forall|e: EulerOf| #[trigger]
            synthesizes(*euler, e) ==> r.gates@ == all_native_gates(
                circuit.gates@,
                circuit.gates@.len(),
                e,
            ),
{
    let mut out: Vec<NativeGate> = Vec::new();
    let mut i: usize = 0;
    while i < circuit.gates.len()
        invariant
            total(*euler),
            0 <= i <= circuit.gates.len(),
            forall|e: EulerOf| #[trigger]
                synthesizes(*euler, e) ==> out@ == all_native_gates(circuit.gates@, i as nat, e),
        decreases circuit.gates.len() - i,
    {
        decompose_gate(&mut out, &circuit.gates[i], euler);
        i = i + 1;
    }
    NativeCircuit { num_qubits: circuit.num_qubits, num_clbits: circuit.num_clbits, gates: out }
}

} // verus!
