//! Lowering to the native gate sets of hardware backends.
use crate::angle::{
    does_turn, euler_of_one, synthesizes, total, turns, Euler, EulerOf, Turn, HALF_PI_BITS,
};
use crate::binary64::{negated, Binary64};
use crate::coupling::CouplingMap;
use crate::ir::{Circuit, Conditions, Gate};
use crate::native::{all_native_gates, decompose_gate, native_gates, NativeGate};
use vstd::prelude::*;

pub mod lowering_law;
pub mod peephole;
pub mod peephole_action;
pub mod peephole_law;
pub mod resynthesis;
pub mod resynthesis_action;
pub mod resynthesis_law;
pub mod spec;


pub use crate::backend::peephole::optimize;
pub use crate::backend::resynthesis::resynthesize;
pub use crate::backend::spec::{Backend, BackendSpec, NativeTwoQubitGate, RotAxis};

verus! {

/// A gate of some backend. `Rot` is the backend's rotation besides `Rz`:
/// about Y or about X.
#[derive(Debug, PartialEq)]
pub enum BackendGate {
    Rz(usize, Binary64),
    Rot(usize, Binary64),
    Cx(usize, usize),
    Cz(usize, usize),
    Rzz(usize, usize, Binary64),
    Measure(usize, usize),
    /// A gate that acts only where classical bits have given values.
    If(Conditions, Box<BackendGate>),
}

impl BackendGate {
    pub fn copy(&self) -> (r: BackendGate)
        ensures
            r == *self,
        decreases self,
    {
        match self {
            BackendGate::Rz(q, t) => BackendGate::Rz(*q, *t),
            BackendGate::Rot(q, t) => BackendGate::Rot(*q, *t),
            BackendGate::Cx(a, b) => BackendGate::Cx(*a, *b),
            BackendGate::Cz(a, b) => BackendGate::Cz(*a, *b),
            BackendGate::Rzz(a, b, t) => BackendGate::Rzz(*a, *b, *t),
            BackendGate::Measure(q, c) => BackendGate::Measure(*q, *c),
            BackendGate::If(c, g) => BackendGate::If(c.copy(), Box::new(g.copy())),
        }
    }

    /// The qubits that a gate touches.
    pub open spec fn wires(self) -> Seq<usize>
        decreases self,
    {
        match self {
            BackendGate::Rz(q, _) | BackendGate::Rot(q, _) | BackendGate::Measure(q, _) => seq![q],
            BackendGate::Cx(a, b) | BackendGate::Cz(a, b) | BackendGate::Rzz(a, b, _) => seq![a, b],
            BackendGate::If(_, g) => g.wires(),
        }
    }

    pub fn qubits(&self) -> (r: Vec<usize>)
        ensures
            r@ == self.wires(),
            1 <= r.len() <= 2,
        decreases self,
    {
        let mut out: Vec<usize> = Vec::new();
        match self {
            BackendGate::Rz(q, _) | BackendGate::Rot(q, _) | BackendGate::Measure(q, _) => {
                out.push(*q);
            },
            BackendGate::Cx(a, b) | BackendGate::Cz(a, b) | BackendGate::Rzz(a, b, _) => {
                out.push(*a);
                out.push(*b);
            },
            BackendGate::If(_, g) => {
                out = g.qubits();
            },
        }
        assert(out@ =~= self.wires());
        out
    }
}

impl Clone for BackendGate {
    fn clone(&self) -> (r: Self)
        ensures
            r == *self,
    {
        self.copy()
    }
}

/// A circuit of a backend's gates.
#[derive(Debug)]
pub struct BackendCircuit {
    pub backend: Backend,
    pub num_qubits: usize,
    pub num_clbits: usize,
    pub gates: Vec<BackendGate>,
}

/// A copy of a list of gates.
pub fn copy_backend(gates: &Vec<BackendGate>) -> (r: Vec<BackendGate>)
    ensures
        r@ == gates@,
{
    let mut out: Vec<BackendGate> = Vec::new();
    let mut i: usize = 0;
    while i < gates.len()
        invariant
            0 <= i <= gates.len(),
            out@ == gates@.take(i as int),
        decreases gates.len() - i,
    {
        out.push(gates[i].copy());
        i = i + 1;
    }
    assert(out@ =~= gates@);
    out
}

impl Clone for BackendCircuit {
    fn clone(&self) -> (r: Self)
        ensures
            r.backend == self.backend,
            r.num_qubits == self.num_qubits,
            r.num_clbits == self.num_clbits,
            r.gates@ == self.gates@,
    {
        BackendCircuit {
            backend: self.backend,
            num_qubits: self.num_qubits,
            num_clbits: self.num_clbits,
            gates: copy_backend(&self.gates),
        }
    }
}

/// Whether a gate rotates one qubit, conditioned or not.
pub open spec fn is_single(g: BackendGate) -> bool
    decreases g,
{
    match g {
        BackendGate::Rz(_, _) | BackendGate::Rot(_, _) => true,
        BackendGate::If(_, inner) => is_single(*inner),
        _ => false,
    }
}

/// Whether a gate joins two qubits, conditioned or not.
pub open spec fn is_double(g: BackendGate) -> bool
    decreases g,
{
    match g {
        BackendGate::Cx(_, _) | BackendGate::Cz(_, _) | BackendGate::Rzz(_, _, _) => true,
        BackendGate::If(_, inner) => is_double(*inner),
        _ => false,
    }
}

pub open spec fn count_single(gates: Seq<BackendGate>) -> nat
    decreases gates.len(),
{
    if gates.len() == 0 {
        0
    } else {
        count_single(gates.drop_last()) + (if is_single(gates.last()) {
            1nat
        } else {
            0
        })
    }
}

pub open spec fn count_double(gates: Seq<BackendGate>) -> nat
    decreases gates.len(),
{
    if gates.len() == 0 {
        0
    } else {
        count_double(gates.drop_last()) + (if is_double(gates.last()) {
            1nat
        } else {
            0
        })
    }
}

/// 1 for a rotation of one qubit, 2 for a two-qubit gate, 0 for a
/// measurement.
fn kind_of(g: &BackendGate) -> (r: u8)
    ensures
        (r == 1) == is_single(*g),
        (r == 2) == is_double(*g),
    decreases g,
{
    match g {
        BackendGate::Rz(_, _) => 1,
        BackendGate::Rot(_, _) => 1,
        BackendGate::Cx(_, _) => 2,
        BackendGate::Cz(_, _) => 2,
        BackendGate::Rzz(_, _, _) => 2,
        BackendGate::Measure(_, _) => 0,
        BackendGate::If(_, inner) => kind_of(inner),
    }
}

impl BackendCircuit {
    pub fn new(backend: Backend, num_qubits: usize) -> (r: Self)
        ensures
            r.backend == backend,
            r.num_qubits == num_qubits,
            r.num_clbits == 0,
            r.gates@ == Seq::<BackendGate>::empty(),
    {
        BackendCircuit { backend, num_qubits, num_clbits: 0, gates: Vec::new() }
    }

    /// Adds a gate at the end.
    pub fn push(&mut self, g: BackendGate)
        ensures
            final(self).backend == old(self).backend,
            final(self).num_qubits == old(self).num_qubits,
            final(self).num_clbits == old(self).num_clbits,
            final(self).gates@ == old(self).gates@.push(g),
    {
        self.gates.push(g);
    }

    /// How many rotations of one qubit and how many two-qubit gates there
    /// are. Measurements count as neither.
    pub fn gate_counts(&self) -> (r: (usize, usize))
        ensures
            r.0 == count_single(self.gates@),
            r.1 == count_double(self.gates@),
            r.0 + r.1 <= self.gates.len(),
    {
        let mut single: usize = 0;
        let mut double: usize = 0;
        let mut i: usize = 0;
        assert(self.gates@.take(0) =~= Seq::empty());
        while i < self.gates.len()
            invariant
                0 <= i <= self.gates.len(),
                single + double <= i,
                single == count_single(self.gates@.take(i as int)),
                double == count_double(self.gates@.take(i as int)),
            decreases self.gates.len() - i,
        {
            assert(self.gates@.take(i + 1).drop_last() =~= self.gates@.take(i as int));
            let k = kind_of(&self.gates[i]);
            if k == 1 {
                single = single + 1;
            } else if k == 2 {
                double = double + 1;
            }
            i = i + 1;
        }
        assert(self.gates@.take(i as int) =~= self.gates@);
        (single, double)
    }
}


/// A rotation about Y in a backend's own rotation: as it is, or as one about
/// Z between quarter turns about X.
pub open spec fn ry_gates(axis: RotAxis, q: usize, theta: Binary64) -> Seq<BackendGate> {
    let quarter = Binary64 { bits: HALF_PI_BITS };
    match axis {
        RotAxis::Ry => seq![BackendGate::Rot(q, theta)],
        RotAxis::Rx => seq![
            BackendGate::Rot(q, quarter),
            BackendGate::Rz(q, theta),
            BackendGate::Rot(q, negated(quarter)),
        ],
    }
}

/// Appends a rotation about Y.
pub fn push_ry(out: &mut Vec<BackendGate>, axis: RotAxis, q: usize, theta: Binary64)
    ensures
        final(out)@ == old(out)@ + ry_gates(axis, q, theta),
{
    let ghost before = out@;
    let quarter = Binary64 { bits: HALF_PI_BITS };
    match axis {
        RotAxis::Ry => {
            out.push(BackendGate::Rot(q, theta));
        },
        RotAxis::Rx => {
            out.push(BackendGate::Rot(q, quarter));
            out.push(BackendGate::Rz(q, theta));
            out.push(BackendGate::Rot(q, quarter.neg()));
        },
    }
    assert(out@ =~= before + ry_gates(axis, q, theta));
}

pub open spec fn if_rz(q: usize, a: Binary64) -> Seq<BackendGate> {
    if turns(a) {
        seq![BackendGate::Rz(q, a)]
    } else {
        Seq::empty()
    }
}

pub open spec fn if_ry(axis: RotAxis, q: usize, a: Binary64) -> Seq<BackendGate> {
    if turns(a) {
        ry_gates(axis, q, a)
    } else {
        Seq::empty()
    }
}

/// A Hadamard gate by its Euler angles.
pub open spec fn h_gates(axis: RotAxis, q: usize, e: EulerOf) -> Seq<BackendGate> {
    let x = e(seq![Turn::H]);
    if_rz(q, x.delta) + if_ry(axis, q, x.gamma) + if_rz(q, x.beta)
}

/// Appends a Hadamard gate.
pub fn push_h<F: Fn(&Vec<Turn>) -> Euler>(
    out: &mut Vec<BackendGate>,
    axis: RotAxis,
    q: usize,
    euler: &F,
)
    requires
        total(*euler),
    ensures
        forall|e: EulerOf| #[trigger]
            synthesizes(*euler, e) ==> final(out)@ == old(out)@ + h_gates(axis, q, e),
{
    let ghost before = out@;
    let x = euler_of_one(euler, Turn::H);
    if does_turn(x.delta) {
        out.push(BackendGate::Rz(q, x.delta));
    }
    assert(out@ =~= before + if_rz(q, x.delta));
    if does_turn(x.gamma) {
        push_ry(out, axis, q, x.gamma);
    }
    assert(out@ =~= before + if_rz(q, x.delta) + if_ry(axis, q, x.gamma));
    if does_turn(x.beta) {
        out.push(BackendGate::Rz(q, x.beta));
    }
    proof {
        assert(out@ =~= before + if_rz(q, x.delta) + if_ry(axis, q, x.gamma) + if_rz(q, x.beta));
        assert forall|e: EulerOf| #[trigger] synthesizes(*euler, e) implies out@ == before + h_gates(
            axis,
            q,
            e,
        ) by {
            assert(out@ =~= before + h_gates(axis, q, e));
        }
    }
}

/// Each gate under the same conditions.
pub open spec fn conditioned(c: Conditions, gates: Seq<BackendGate>) -> Seq<BackendGate> {
    gates.map_values(|g: BackendGate| BackendGate::If(c, Box::new(g)))
}

fn push_conditioned(out: &mut Vec<BackendGate>, c: &Conditions, body: &Vec<BackendGate>)
    ensures
        final(out)@ == old(out)@ + conditioned(*c, body@),
{
    let ghost before = out@;
    let mut i: usize = 0;
    assert(out@ =~= before + conditioned(*c, body@.take(0)));
    while i < body.len()
        invariant
            0 <= i <= body.len(),
            out@ == before + conditioned(*c, body@.take(i as int)),
        decreases body.len() - i,
    {
        out.push(BackendGate::If(c.copy(), Box::new(body[i].copy())));
        i = i + 1;
        assert(out@ =~= before + conditioned(*c, body@.take(i as int)));
    }
    assert(body@.take(i as int) =~= body@);
}

/// A native gate in a backend's gates.
pub open spec fn expressed<S: BackendSpec>(s: S, g: NativeGate, e: EulerOf) -> Seq<BackendGate>
    decreases g,
{
    match g {
        NativeGate::Rz(q, t) => seq![BackendGate::Rz(q, t)],
        NativeGate::Ry(q, t) => ry_gates(s.axis(), q, t),
        NativeGate::Rzz(a, b, t) => s.zz_gates(a, b, t, e),
        NativeGate::Measure(q, c) => seq![BackendGate::Measure(q, c)],
        NativeGate::If(c, inner) => conditioned(c, expressed(s, *inner, e)),
    }
}

/// The first `n` native gates in a backend's gates.
pub open spec fn all_expressed<S: BackendSpec>(s: S, gates: Seq<NativeGate>, n: nat, e: EulerOf) -> Seq<
    BackendGate,
>
    decreases n,
{
    if n == 0 {
        Seq::empty()
    } else {
        all_expressed(s, gates, (n - 1) as nat, e) + expressed(s, gates[n - 1], e)
    }
}

/// A native gate under the backend's names.
pub open spec fn relabeled(g: NativeGate) -> BackendGate
    decreases g,
{
    match g {
        NativeGate::Rz(q, t) => BackendGate::Rz(q, t),
        NativeGate::Ry(q, t) => BackendGate::Rot(q, t),
        NativeGate::Rzz(a, b, t) => BackendGate::Rzz(a, b, t),
        NativeGate::Measure(q, c) => BackendGate::Measure(q, c),
        NativeGate::If(c, inner) => BackendGate::If(c, Box::new(relabeled(*inner))),
    }
}

/// A source gate in a backend's gates, before any optimization.
pub open spec fn lowered_gate<S: BackendSpec>(s: S, g: Gate, e: EulerOf) -> Seq<BackendGate>
    decreases g,
{
    match g {
        Gate::If(c, inner) => conditioned(c, lowered_gate(s, *inner, e)),
        Gate::Cx(c, t) => if s.direct_cx() {
            s.cx_gates(c, t, e)
        } else {
            all_expressed(s, native_gates(g, e), native_gates(g, e).len(), e)
        },
        Gate::Swap(a, b) => if s.direct_cx() {
            s.cx_gates(a, b, e) + s.cx_gates(b, a, e) + s.cx_gates(a, b, e)
        } else {
            all_expressed(s, native_gates(g, e), native_gates(g, e).len(), e)
        },
        _ => all_expressed(s, native_gates(g, e), native_gates(g, e).len(), e),
    }
}

pub open spec fn all_lowered<S: BackendSpec>(s: S, gates: Seq<Gate>, n: nat, e: EulerOf) -> Seq<
    BackendGate,
>
    decreases n,
{
    if n == 0 {
        Seq::empty()
    } else {
        all_lowered(s, gates, (n - 1) as nat, e) + lowered_gate(s, gates[n - 1], e)
    }
}

/// A bound on the rounds of optimization that no run gets to.
pub const MAX_ROUNDS: u64 = 0xffff_ffff_ffff_ffff;

/// Resynthesis and optimization in turn, until a round keeps the length.
pub open spec fn settled(axis: RotAxis, gates: Seq<BackendGate>, e: EulerOf, rounds: nat) -> Seq<
    BackendGate,
>
    decreases rounds,
{
    if rounds == 0 {
        gates
    } else {
        let next = crate::backend::peephole::optimized(
            crate::backend::resynthesis::resynthesized(gates, axis, e),
        );
        if next.len() == gates.len() {
            next
        } else {
            settled(axis, next, e, (rounds - 1) as nat)
        }
    }
}

/// A circuit in a backend's gates.
pub open spec fn lowered<S: BackendSpec>(s: S, gates: Seq<Gate>, e: EulerOf) -> Seq<BackendGate> {
    if s.canonical() {
        crate::backend::peephole::optimized(
            all_native_gates(gates, gates.len(), e).map_values(|g: NativeGate| relabeled(g)),
        )
    } else {
        settled(s.axis(), all_lowered(s, gates, gates.len(), e), e, MAX_ROUNDS as nat)
    }
}

/// Whether no list of gates on the way of [`settled`] is longer than a list
/// can be.
pub open spec fn rounds_fit(axis: RotAxis, gates: Seq<BackendGate>, e: EulerOf, rounds: nat) -> bool
    decreases rounds,
{
    rounds > 0 ==> {
        let turned = crate::backend::resynthesis::resynthesized(gates, axis, e);
        let next = crate::backend::peephole::optimized(turned);
        &&& turned.len() <= usize::MAX
        &&& next.len() != gates.len() ==> rounds_fit(axis, next, e, (rounds - 1) as nat)
    }
}

/// Whether some round, among the first `rounds`, keeps the length.
pub open spec fn settles(axis: RotAxis, gates: Seq<BackendGate>, e: EulerOf, rounds: nat) -> bool
    decreases rounds,
{
    let next = crate::backend::peephole::optimized(
        crate::backend::resynthesis::resynthesized(gates, axis, e),
    );
    rounds > 0 && (next.len() == gates.len() || settles(axis, next, e, (rounds - 1) as nat))
}

/// Once a round keeps the length, a higher bound on the rounds changes
/// nothing.
pub proof fn lemma_settled(
    axis: RotAxis,
    gates: Seq<BackendGate>,
    e: EulerOf,
    rounds: nat,
    more: nat,
)
    requires
        settles(axis, gates, e, rounds),
        rounds <= more,
    ensures
        settled(axis, gates, e, more) == settled(axis, gates, e, rounds),
    decreases rounds,
{
    let next = crate::backend::peephole::optimized(
        crate::backend::resynthesis::resynthesized(gates, axis, e),
    );
    if next.len() != gates.len() {
        lemma_settled(axis, next, e, (rounds - 1) as nat, (more - 1) as nat);
    }
}

/// The same for [`lowered`].
pub open spec fn lowering_fits<S: BackendSpec>(s: S, gates: Seq<Gate>, e: EulerOf) -> bool {
    if s.canonical() {
        all_native_gates(gates, gates.len(), e).len() <= usize::MAX
    } else {
        rounds_fit(s.axis(), all_lowered(s, gates, gates.len(), e), e, MAX_ROUNDS as nat)
    }
}

fn push_expressed<S: BackendSpec, F: Fn(&Vec<Turn>) -> Euler>(
    s: &S,
    out: &mut Vec<BackendGate>,
    g: &NativeGate,
    euler: &F,
)
    requires
        total(*euler),
    ensures
        forall|e: EulerOf| #[trigger]
            synthesizes(*euler, e) ==> final(out)@ == old(out)@ + expressed(*s, *g, e),
    decreases g,
{
    let ghost before = out@;
    match g {
        NativeGate::Rz(q, t) => {
            out.push(BackendGate::Rz(*q, *t));
            assert(out@ =~= before + seq![BackendGate::Rz(*q, *t)]);
        },
        NativeGate::Ry(q, t) => {
            push_ry(out, s.rot_axis(), *q, *t);
        },
        NativeGate::Rzz(a, b, t) => {
            s.push_two_qubit_zz(out, *a, *b, *t, euler);
        },
        NativeGate::Measure(q, c) => {
            out.push(BackendGate::Measure(*q, *c));
            assert(out@ =~= before + seq![BackendGate::Measure(*q, *c)]);
        },
        NativeGate::If(c, inner) => {
            let mut body: Vec<BackendGate> = Vec::new();
            push_expressed(s, &mut body, inner, euler);
            push_conditioned(out, c, &body);
            proof {
                assert forall|e: EulerOf| #[trigger] synthesizes(*euler, e) implies out@ == before
                    + expressed(*s, *g, e) by {
                    assert(Seq::<BackendGate>::empty() + expressed(*s, **inner, e) =~= expressed(
                        *s,
                        **inner,
                        e,
                    ));
                }
            }
        },
    }
}

fn push_by_native<S: BackendSpec, F: Fn(&Vec<Turn>) -> Euler>(
    s: &S,
    out: &mut Vec<BackendGate>,
    g: &Gate,
    euler: &F,
)
    requires
        total(*euler),
    ensures
        forall|e: EulerOf| #[trigger]
            synthesizes(*euler, e) ==> final(out)@ == old(out)@ + all_expressed(
                *s,
                native_gates(*g, e),
                native_gates(*g, e).len(),
                e,
            ),
{
    let ghost before = out@;
    let mut native: Vec<NativeGate> = Vec::new();
    decompose_gate(&mut native, g, euler);
    let mut i: usize = 0;
    proof {
        assert forall|e: EulerOf| #[trigger] synthesizes(*euler, e) implies native@ == native_gates(
            *g,
            e,
        ) && out@ == before + all_expressed(*s, native@, 0, e) by {
            assert(Seq::<NativeGate>::empty() + native_gates(*g, e) =~= native_gates(*g, e));
            assert(out@ =~= before + all_expressed(*s, native@, 0, e));
        }
    }
    while i < native.len()
        invariant
            total(*euler),
            0 <= i <= native.len(),
            forall|e: EulerOf| #[trigger]
                synthesizes(*euler, e) ==> out@ == before + all_expressed(*s, native@, i as nat, e),
        decreases native.len() - i,
    {
        let ghost middle = out@;
        push_expressed(s, out, &native[i], euler);
        proof {
            assert forall|e: EulerOf| #[trigger] synthesizes(*euler, e) implies out@ == before
                + all_expressed(*s, native@, (i + 1) as nat, e) by {
                assert(out@ =~= before + all_expressed(*s, native@, (i + 1) as nat, e));
            }
        }
        i = i + 1;
    }
}

fn push_lowered<S: BackendSpec, F: Fn(&Vec<Turn>) -> Euler>(
    s: &S,
    out: &mut Vec<BackendGate>,
    g: &Gate,
    euler: &F,
)
    requires
        total(*euler),
    ensures
        forall|e: EulerOf| #[trigger]
            synthesizes(*euler, e) ==> final(out)@ == old(out)@ + lowered_gate(*s, *g, e),
    decreases g,
{
    let ghost before = out@;
    let direct = s.has_native_cx();
    match g {
        Gate::If(c, inner) => {
            let mut body: Vec<BackendGate> = Vec::new();
            push_lowered(s, &mut body, inner, euler);
            push_conditioned(out, c, &body);
            proof {
                assert forall|e: EulerOf| #[trigger] synthesizes(*euler, e) implies out@ == before
                    + lowered_gate(*s, *g, e) by {
                    assert(Seq::<BackendGate>::empty() + lowered_gate(*s, **inner, e)
                        =~= lowered_gate(*s, **inner, e));
                }
            }
        },
        Gate::Cx(c, t) => {
            if direct {
                s.push_native_cx(out, *c, *t, euler);
            } else {
                push_by_native(s, out, g, euler);
            }
        },
        Gate::Swap(a, b) => {
            if direct {
                s.push_native_cx(out, *a, *b, euler);
                s.push_native_cx(out, *b, *a, euler);
                s.push_native_cx(out, *a, *b, euler);
                proof {
                    assert forall|e: EulerOf| #[trigger] synthesizes(*euler, e) implies out@ == before
                        + lowered_gate(*s, *g, e) by {
                        assert(out@ =~= before + lowered_gate(*s, *g, e));
                    }
                }
            } else {
                push_by_native(s, out, g, euler);
            }
        },
        _ => {
            push_by_native(s, out, g, euler);
        },
    }
}

fn relabel(g: &NativeGate) -> (r: BackendGate)
    ensures
        r == relabeled(*g),
    decreases g,
{
    match g {
        NativeGate::Rz(q, t) => BackendGate::Rz(*q, *t),
        NativeGate::Ry(q, t) => BackendGate::Rot(*q, *t),
        NativeGate::Rzz(a, b, t) => BackendGate::Rzz(*a, *b, *t),
        NativeGate::Measure(q, c) => BackendGate::Measure(*q, *c),
        NativeGate::If(c, inner) => BackendGate::If(c.copy(), Box::new(relabel(inner))),
    }
}

/// The gates of a circuit in a backend's gates. `euler` gives the Euler
/// angles of a series of single-qubit operations.
pub fn lower_gates<S: BackendSpec, F: Fn(&Vec<Turn>) -> Euler>(s: &S, circuit: &Circuit, euler: &F) -> (r:
    Vec<BackendGate>)
    requires
        total(*euler),
    ensures
        forall|e: EulerOf| #[trigger]
            synthesizes(*euler, e) ==> r@ == lowered(*s, circuit.gates@, e) && lowering_fits(
                *s,
                circuit.gates@,
                e,
            ),
{
    let mut out: Vec<BackendGate> = Vec::new();
    let mut i: usize = 0;
    if s.is_native_decompose_target() {
        let native = crate::native::decompose(circuit, euler);
        while i < native.gates.len()
            invariant
                0 <= i <= native.gates.len(),
                out.len() == i,
                forall|k: int| 0 <= k < i ==> #[trigger] out@[k] == relabeled(native.gates@[k]),
            decreases native.gates.len() - i,
        {
            out.push(relabel(&native.gates[i]));
            i = i + 1;
        }
        assert(out@ =~= native.gates@.map_values(|g: NativeGate| relabeled(g)));
        return crate::backend::peephole::optimize_gates(&out);
    }
    while i < circuit.gates.len()
        invariant
            total(*euler),
            0 <= i <= circuit.gates.len(),
            forall|e: EulerOf| #[trigger]
                synthesizes(*euler, e) ==> out@ == all_lowered(*s, circuit.gates@, i as nat, e),
        decreases circuit.gates.len() - i,
    {
        push_lowered(s, &mut out, &circuit.gates[i], euler);
        i = i + 1;
    }
    let axis = s.rot_axis();
    let mut rounds: u64 = MAX_ROUNDS;
    while rounds > 0
        invariant
            total(*euler),
            axis == s.axis(),
            !s.canonical(),
            forall|e: EulerOf| #[trigger]
                synthesizes(*euler, e) ==> lowered(*s, circuit.gates@, e) == settled(
                    axis,
                    out@,
                    e,
                    rounds as nat,
                ) && (rounds_fit(axis, out@, e, rounds as nat) ==> lowering_fits(
                    *s,
                    circuit.gates@,
                    e,
                )),
        decreases rounds,
    {
        let turned = crate::backend::resynthesis::resynthesize_gates(&out, axis, euler);
        let next = crate::backend::peephole::optimize_gates(&turned);
        assert(turned@.len() <= usize::MAX);
        if next.len() == out.len() {
            return next;
        }
        out = next;
        rounds = rounds - 1;
    }
    out
}

/// A circuit as the router leaves it: unchanged without a map.
pub open spec fn routed_by<R: Fn(&Circuit, &CouplingMap) -> Circuit>(
    router: R,
    circuit: &Circuit,
    coupling: Option<&CouplingMap>,
    routed: Circuit,
) -> bool {
    match coupling {
        Some(map) => call_ensures(router, (circuit, map), routed),
        None => routed == *circuit,
    }
}

/// Lowers a circuit to a backend. Where there is a coupling map, `router`
/// first brings the gates onto coupled qubits.
pub fn lower_with_coupling<
    R: Fn(&Circuit, &CouplingMap) -> Circuit,
    F: Fn(&Vec<Turn>) -> Euler,
>(
    circuit: &Circuit,
    backend: Backend,
    coupling: Option<&CouplingMap>,
    router: &R,
    euler: &F,
) -> (r: BackendCircuit)
    requires
        total(*euler),
        coupling matches Some(map) ==> call_requires(*router, (circuit, map)),
    ensures
        r.backend == backend,
        exists|routed: Circuit|
            {
                &&& #[trigger] routed_by(*router, circuit, coupling, routed)
                &&& r.num_qubits == routed.num_qubits
                &&& r.num_clbits == routed.num_clbits
                &&& forall|e: EulerOf| #[trigger]
                    synthesizes(*euler, e) ==> r.gates@ == lowered(backend, routed.gates@, e)
                        && lowering_fits(backend, routed.gates@, e)
            },
{
    match coupling {
        Some(map) => {
            let routed = router(circuit, map);
            assert(routed_by(*router, circuit, coupling, routed));
            BackendCircuit {
                backend,
                num_qubits: routed.num_qubits,
                num_clbits: routed.num_clbits,
                gates: lower_gates(&backend, &routed, euler),
            }
        },
        None => {
            assert(routed_by(*router, circuit, coupling, *circuit));
            BackendCircuit {
                backend,
                num_qubits: circuit.num_qubits,
                num_clbits: circuit.num_clbits,
                gates: lower_gates(&backend, circuit, euler),
            }
        },
    }
}

/// Lowers a circuit to a backend with the backend's own coupling map.
pub fn lower<R: Fn(&Circuit, &CouplingMap) -> Circuit, F: Fn(&Vec<Turn>) -> Euler>(
    circuit: &Circuit,
    backend: Backend,
    router: &R,
    euler: &F,
) -> (r: BackendCircuit)
    requires
        total(*euler),
        circuit.num_qubits <= usize::MAX / 16,
        forall|map: CouplingMap| #[trigger] call_requires(*router, (circuit, &map)),
    ensures
        r.backend == backend,
        exists|coupling: Option<&CouplingMap>, routed: Circuit|
            {
                &&& #[trigger] routed_by(*router, circuit, coupling, routed)
                &&& (coupling is None <==> backend == Backend::TrappedIon)
                &&& coupling matches Some(map) ==> map@.size == circuit.num_qubits
                    && map@.connected() && backend.topology(circuit.num_qubits as nat, map@)
                &&& r.num_qubits == routed.num_qubits
                &&& r.num_clbits == routed.num_clbits
                &&& forall|e: EulerOf| #[trigger]
                    synthesizes(*euler, e) ==> r.gates@ == lowered(backend, routed.gates@, e)
                        && lowering_fits(backend, routed.gates@, e)
            },
{
    match backend.coupling_map(circuit.num_qubits) {
        Some(map) => lower_with_coupling(circuit, backend, Some(&map), router, euler),
        None => lower_with_coupling(circuit, backend, None, router, euler),
    }
}

} // verus!
