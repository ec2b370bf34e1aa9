//! On which qubits the gates of compiled circuits act.
use crate::angle::{Euler, EulerOf, Turn, HALF_PI_BITS};
use crate::binary64::{negated, Binary64};
use crate::backend::{
    all_expressed, all_lowered, conditioned as backend_conditioned, expressed, h_gates, if_ry, if_rz,
    lowered, lowered_gate, lowering_fits, peephole, peephole_law, relabeled, resynthesis,
    resynthesis_law, rounds_fit, ry_gates, settled, Backend, BackendGate, BackendSpec, RotAxis,
    MAX_ROUNDS,
};
use crate::coupling::Graph;
use crate::ir::{Conditions, Gate};
use crate::native::{
    all_native_gates, conditioned, cx_gates, native_gates, phase_gates, pi, single_gates, turned_rzz,
    NativeGate,
};
use crate::optimize::{lemma_optimized, native_rule, optimized};
use crate::rewrite::{all, lemma_reaches_respects, respects};
use vstd::prelude::*;

verus! {

/// Which qubits there are, and which of them can interact.
pub struct Layout {
    pub wire: spec_fn(usize) -> bool,
    pub pair: spec_fn(usize, usize) -> bool,
}

impl Layout {
    /// Whether interaction does not depend on the order.
    pub open spec fn symmetric(self) -> bool {
        forall|a: usize, b: usize| #[trigger] (self.pair)(a, b) ==> (self.pair)(b, a)
    }

    /// Whether a gate on these qubits fits: they exist, and two of them can
    /// interact.
    pub open spec fn admits(self, wires: Seq<usize>) -> bool {
        &&& forall|i: int| 0 <= i < wires.len() ==> (self.wire)(#[trigger] wires[i])
        &&& wires.len() == 2 ==> (self.pair)(wires[0], wires[1])
    }

    pub open spec fn fits_gate(self) -> spec_fn(Gate) -> bool {
        |g: Gate| self.admits(g.wires())
    }

    pub open spec fn fits_native(self) -> spec_fn(NativeGate) -> bool {
        |g: NativeGate| self.admits(g.wires())
    }
}

proof fn lemma_all_joined<G>(kind: spec_fn(G) -> bool, a: Seq<G>, b: Seq<G>)
    requires
        all(kind, a),
        all(kind, b),
    ensures
        all(kind, a + b),
{
}

proof fn lemma_swapped(l: Layout, a: usize, b: usize)
    requires
        l.symmetric(),
        l.admits(seq![a, b]),
    ensures
        l.admits(seq![b, a]),
{
    assert(seq![a, b][0] == a && seq![a, b][1] == b);
}

proof fn lemma_single_fits(l: Layout, q: usize, t: Turn, e: EulerOf)
    requires
        l.admits(seq![q]),
    ensures
        all(l.fits_native(), single_gates(q, t, e)),
        single_gates(q, t, e).len() <= 3,
{
}

proof fn lemma_phase_fits(l: Layout, a: usize, b: usize, lambda: Binary64)
    requires
        l.admits(seq![a, b]),
    ensures
        all(l.fits_native(), phase_gates(a, b, lambda)),
        phase_gates(a, b, lambda).len() <= 3,
{
    assert(seq![a, b][0] == a && seq![a, b][1] == b);
}

proof fn lemma_cx_fits(l: Layout, c: usize, t: usize, e: EulerOf)
    requires
        l.admits(seq![c, t]),
    ensures
        all(l.fits_native(), cx_gates(c, t, e)),
        cx_gates(c, t, e).len() <= 9,
{
    assert(seq![c, t][0] == c && seq![c, t][1] == t);
    assert(l.admits(seq![t]));
    lemma_single_fits(l, t, Turn::H, e);
    lemma_phase_fits(l, c, t, pi());
}

proof fn lemma_turned_fits(
    l: Layout,
    a: usize,
    b: usize,
    theta: Binary64,
    x: Turn,
    y: Turn,
    e: EulerOf,
)
    requires
        l.admits(seq![a, b]),
    ensures
        all(l.fits_native(), turned_rzz(a, b, theta, x, y, e)),
        turned_rzz(a, b, theta, x, y, e).len() <= 13,
{
    assert(seq![a, b][0] == a && seq![a, b][1] == b);
    assert(l.admits(seq![a]) && l.admits(seq![b]));
    lemma_single_fits(l, a, x, e);
    lemma_single_fits(l, b, x, e);
    lemma_single_fits(l, a, y, e);
    lemma_single_fits(l, b, y, e);
}

proof fn lemma_conditioned_fits(l: Layout, c: Conditions, gates: Seq<NativeGate>)
    requires
        all(l.fits_native(), gates),
    ensures
        all(l.fits_native(), conditioned(c, gates)),
{
    let out = conditioned(c, gates);
    assert forall|i: int| 0 <= i < out.len() implies (l.fits_native())(#[trigger] out[i]) by {
        assert((l.fits_native())(gates[i]));
    }
}

/// The native gates of a gate act on its qubits, and there are at most
/// twenty-seven.
pub proof fn lemma_native_gates_fit(l: Layout, g: Gate, e: EulerOf)
    requires
        l.symmetric(),
        l.admits(g.wires()),
    ensures
        all(l.fits_native(), native_gates(g, e)),
        native_gates(g, e).len() <= 27,
    decreases g,
{
    match g {
        Gate::H(q) => lemma_single_fits(l, q, Turn::H, e),
        Gate::X(q) => lemma_single_fits(l, q, Turn::X, e),
        Gate::Y(q) => lemma_single_fits(l, q, Turn::Y, e),
        Gate::Z(q) => lemma_single_fits(l, q, Turn::Z, e),
        Gate::S(q) => lemma_single_fits(l, q, Turn::S, e),
        Gate::Sdg(q) => lemma_single_fits(l, q, Turn::Sdg, e),
        Gate::T(q) => lemma_single_fits(l, q, Turn::T, e),
        Gate::Tdg(q) => lemma_single_fits(l, q, Turn::Tdg, e),
        Gate::Rx(q, t) => lemma_single_fits(l, q, Turn::Rx(t), e),
        Gate::If(c, inner) => {
            lemma_native_gates_fit(l, *inner, e);
            lemma_conditioned_fits(l, c, native_gates(*inner, e));
        },
        Gate::Cx(a, b) => {
            lemma_cx_fits(l, a, b, e);
        },
        Gate::Swap(a, b) => {
            lemma_swapped(l, a, b);
            lemma_cx_fits(l, a, b, e);
            lemma_cx_fits(l, b, a, e);
            lemma_all_joined(l.fits_native(), cx_gates(a, b, e), cx_gates(b, a, e));
            lemma_all_joined(
                l.fits_native(),
                cx_gates(a, b, e) + cx_gates(b, a, e),
                cx_gates(a, b, e),
            );
        },
        Gate::Rxx(a, b, t) => lemma_turned_fits(l, a, b, t, Turn::H, Turn::H, e),
        Gate::Ryy(a, b, t) => {
            let quarter = Binary64 { bits: HALF_PI_BITS };
            lemma_turned_fits(
                l,
                a,
                b,
                t,
                Turn::Rx(quarter),
                Turn::Rx(negated(quarter)),
                e,
            );
        },
        Gate::Cp(a, b, lambda) => {
            lemma_phase_fits(l, a, b, lambda);
        },
        Gate::Cz(a, b) => {
            lemma_phase_fits(l, a, b, pi());
        },
        Gate::Rz(q, t) => {
            assert(NativeGate::Rz(q, t).wires() =~= g.wires());
        },
        Gate::Ry(q, t) => {
            assert(NativeGate::Ry(q, t).wires() =~= g.wires());
        },
        Gate::Measure(q, c) => {
            assert(NativeGate::Measure(q, c).wires() =~= g.wires());
        },
        Gate::Rzz(a, b, t) => {
            assert(NativeGate::Rzz(a, b, t).wires() =~= g.wires());
        },
    }
}

/// Decomposition keeps gates on the qubits and pairs of the source.
pub proof fn lemma_decomposed_fits(l: Layout, gates: Seq<Gate>, n: nat, e: EulerOf)
    requires
        l.symmetric(),
        n <= gates.len(),
        all(l.fits_gate(), gates),
    ensures
        all(l.fits_native(), all_native_gates(gates, n, e)),
        all_native_gates(gates, n, e).len() <= 27 * n,
    decreases n,
{
    if n > 0 {
        lemma_decomposed_fits(l, gates, (n - 1) as nat, e);
        assert((l.fits_gate())(gates[n - 1]));
        lemma_native_gates_fit(l, gates[n - 1], e);
        lemma_all_joined(
            l.fits_native(),
            all_native_gates(gates, (n - 1) as nat, e),
            native_gates(gates[n - 1], e),
        );
    }
}

/// The optimizer of native circuits moves no gate to other qubits.
pub proof fn lemma_optimized_fits(l: Layout, gates: Seq<NativeGate>)
    requires
        all(l.fits_native(), gates),
    ensures
        all(l.fits_native(), optimized(gates)),
{
    let kind = l.fits_native();
    assert(respects(native_rule(), kind)) by {
        assert forall|x: Seq<NativeGate>, y: Seq<NativeGate>| #[trigger]
            native_rule()(x, y) && all(kind, x) implies all(kind, y) by {
            if x.len() == 2 {
                assert(kind(x[0]));
                assert(x[0].wires() =~= y[0].wires());
            }
        }
    }
    lemma_optimized(gates);
    lemma_reaches_respects(native_rule(), kind, gates, optimized(gates));
}

/// Whether a gate is one that a backend has.
pub open spec fn in_gate_set(backend: Backend, g: BackendGate) -> bool
    decreases g,
{
    match g {
        BackendGate::Rz(_, _) | BackendGate::Rot(_, _) | BackendGate::Measure(_, _) => true,
        BackendGate::Cx(_, _) => backend == Backend::IbmQ,
        BackendGate::Cz(_, _) => backend == Backend::Rigetti || backend == Backend::Google,
        BackendGate::Rzz(_, _, _) => backend == Backend::TrappedIon,
        BackendGate::If(_, inner) => in_gate_set(backend, *inner),
    }
}

impl Layout {
    /// Whether a backend's gate fits: the backend has it, its qubits exist,
    /// and two of them can interact.
    pub open spec fn fits_backend(self, backend: Backend) -> spec_fn(BackendGate) -> bool {
        |g: BackendGate| in_gate_set(backend, g) && self.admits(g.wires())
    }
}

proof fn lemma_ry_fits(l: Layout, backend: Backend, axis: RotAxis, q: usize, t: Binary64)
    requires
        l.admits(seq![q]),
    ensures
        all(l.fits_backend(backend), ry_gates(axis, q, t)),
{
    let v = ry_gates(axis, q, t);
    assert forall|i: int| 0 <= i < v.len() implies (l.fits_backend(backend))(#[trigger] v[i]) by {
        assert(v[i].wires() == seq![q]);
    }
}

proof fn lemma_h_fits(l: Layout, backend: Backend, axis: RotAxis, q: usize, e: EulerOf)
    requires
        l.admits(seq![q]),
    ensures
        all(l.fits_backend(backend), h_gates(axis, q, e)),
{
    let x = e(seq![Turn::H]);
    let kind = l.fits_backend(backend);
    lemma_ry_fits(l, backend, axis, q, x.gamma);
    assert(all(kind, if_rz(q, x.delta)) && all(kind, if_rz(q, x.beta))) by {
        assert(BackendGate::Rz(q, x.delta).wires() == seq![q]);
        assert(BackendGate::Rz(q, x.beta).wires() == seq![q]);
    }
    assert(all(kind, if_ry(axis, q, x.gamma)));
    lemma_all_joined(kind, if_rz(q, x.delta), if_ry(axis, q, x.gamma));
    lemma_all_joined(kind, if_rz(q, x.delta) + if_ry(axis, q, x.gamma), if_rz(q, x.beta));
}

proof fn lemma_zz_fits(l: Layout, backend: Backend, a: usize, b: usize, t: Binary64, e: EulerOf)
    requires
        l.admits(seq![a, b]),
    ensures
        all(l.fits_backend(backend), backend.zz_gates(a, b, t, e)),
{
    let kind = l.fits_backend(backend);
    assert(seq![a, b][0] == a && seq![a, b][1] == b);
    assert(l.admits(seq![b]));
    assert(BackendGate::Rzz(a, b, t).wires() == seq![a, b]);
    assert(BackendGate::Cx(a, b).wires() == seq![a, b]);
    assert(BackendGate::Cz(a, b).wires() == seq![a, b]);
    assert(BackendGate::Rz(b, t).wires() == seq![b]);
    assert(BackendGate::Rot(b, t).wires() == seq![b]);
    if backend == Backend::Rigetti || backend == Backend::Google {
        let h = h_gates(RotAxis::Rx, b, e);
        let mid = seq![BackendGate::Cz(a, b), BackendGate::Rot(b, t), BackendGate::Cz(a, b)];
        lemma_h_fits(l, backend, RotAxis::Rx, b, e);
        assert(all(kind, mid));
        lemma_all_joined(kind, h, mid);
        lemma_all_joined(kind, h + mid, h);
    }
}

proof fn lemma_direct_cx_fits(l: Layout, backend: Backend, c: usize, t: usize, e: EulerOf)
    requires
        l.admits(seq![c, t]),
        backend.direct_cx(),
    ensures
        all(l.fits_backend(backend), backend.cx_gates(c, t, e)),
{
    let kind = l.fits_backend(backend);
    assert(seq![c, t][0] == c && seq![c, t][1] == t);
    assert(l.admits(seq![t]));
    assert(BackendGate::Cx(c, t).wires() == seq![c, t]);
    assert(BackendGate::Cz(c, t).wires() == seq![c, t]);
    if backend == Backend::Google {
        let h = h_gates(RotAxis::Rx, t, e);
        let mid = seq![BackendGate::Cz(c, t)];
        lemma_h_fits(l, backend, RotAxis::Rx, t, e);
        assert(all(kind, mid));
        lemma_all_joined(kind, h, mid);
        lemma_all_joined(kind, h + mid, h);
    }
}

proof fn lemma_backend_conditioned(l: Layout, backend: Backend, c: Conditions, gates: Seq<BackendGate>)
    requires
        all(l.fits_backend(backend), gates),
    ensures
        all(l.fits_backend(backend), backend_conditioned(c, gates)),
{
    let out = backend_conditioned(c, gates);
    assert forall|i: int| 0 <= i < out.len() implies (l.fits_backend(backend))(#[trigger] out[i]) by {
        assert((l.fits_backend(backend))(gates[i]));
    }
}

proof fn lemma_expressed_fits(l: Layout, backend: Backend, g: NativeGate, e: EulerOf)
    requires
        l.admits(g.wires()),
    ensures
        all(l.fits_backend(backend), expressed(backend, g, e)),
    decreases g,
{
    match g {
        NativeGate::Rz(q, t) => {
            assert(BackendGate::Rz(q, t).wires() == g.wires());
        },
        NativeGate::Ry(q, t) => lemma_ry_fits(l, backend, backend.axis(), q, t),
        NativeGate::Rzz(a, b, t) => lemma_zz_fits(l, backend, a, b, t, e),
        NativeGate::Measure(q, c) => {
            assert(BackendGate::Measure(q, c).wires() == g.wires());
        },
        NativeGate::If(c, inner) => {
            lemma_expressed_fits(l, backend, *inner, e);
            lemma_backend_conditioned(l, backend, c, expressed(backend, *inner, e));
        },
    }
}

proof fn lemma_all_expressed_fits(
    l: Layout,
    backend: Backend,
    gates: Seq<NativeGate>,
    n: nat,
    e: EulerOf,
)
    requires
        n <= gates.len(),
        all(l.fits_native(), gates),
    ensures
        all(l.fits_backend(backend), all_expressed(backend, gates, n, e)),
    decreases n,
{
    if n > 0 {
        lemma_all_expressed_fits(l, backend, gates, (n - 1) as nat, e);
        assert((l.fits_native())(gates[n - 1]));
        lemma_expressed_fits(l, backend, gates[n - 1], e);
        lemma_all_joined(
            l.fits_backend(backend),
            all_expressed(backend, gates, (n - 1) as nat, e),
            expressed(backend, gates[n - 1], e),
        );
    }
}

proof fn lemma_lowered_gate_fits(l: Layout, backend: Backend, g: Gate, e: EulerOf)
    requires
        l.symmetric(),
        l.admits(g.wires()),
    ensures
        all(l.fits_backend(backend), lowered_gate(backend, g, e)),
    decreases g,
{
    let kind = l.fits_backend(backend);
    lemma_native_gates_fit(l, g, e);
    lemma_all_expressed_fits(l, backend, native_gates(g, e), native_gates(g, e).len(), e);
    match g {
        Gate::If(c, inner) => {
            lemma_lowered_gate_fits(l, backend, *inner, e);
            lemma_backend_conditioned(l, backend, c, lowered_gate(backend, *inner, e));
        },
        Gate::Cx(c, t) => {
            if backend.direct_cx() {
                lemma_direct_cx_fits(l, backend, c, t, e);
            }
        },
        Gate::Swap(a, b) => {
            if backend.direct_cx() {
                lemma_swapped(l, a, b);
                lemma_direct_cx_fits(l, backend, a, b, e);
                lemma_direct_cx_fits(l, backend, b, a, e);
                let x = backend.cx_gates(a, b, e);
                let y = backend.cx_gates(b, a, e);
                lemma_all_joined(kind, x, y);
                lemma_all_joined(kind, x + y, x);
            }
        },
        _ => {},
    }
}

proof fn lemma_all_lowered_fits(l: Layout, backend: Backend, gates: Seq<Gate>, n: nat, e: EulerOf)
    requires
        l.symmetric(),
        n <= gates.len(),
        all(l.fits_gate(), gates),
    ensures
        all(l.fits_backend(backend), all_lowered(backend, gates, n, e)),
    decreases n,
{
    if n > 0 {
        lemma_all_lowered_fits(l, backend, gates, (n - 1) as nat, e);
        assert((l.fits_gate())(gates[n - 1]));
        lemma_lowered_gate_fits(l, backend, gates[n - 1], e);
        lemma_all_joined(
            l.fits_backend(backend),
            all_lowered(backend, gates, (n - 1) as nat, e),
            lowered_gate(backend, gates[n - 1], e),
        );
    }
}

/// The optimizer of backend circuits moves no gate to other qubits and makes
/// no gate of another kind.
pub proof fn lemma_peephole_fits(l: Layout, backend: Backend, gates: Seq<BackendGate>)
    requires
        gates.len() <= usize::MAX,
        all(l.fits_backend(backend), gates),
    ensures
        all(l.fits_backend(backend), peephole::optimized(gates)),
{
    let kind = l.fits_backend(backend);
    let rule = peephole_law::peephole_rule();
    assert(respects(rule, kind)) by {
        assert forall|x: Seq<BackendGate>, y: Seq<BackendGate>| #[trigger]
            rule(x, y) && all(kind, x) implies all(kind, y) by {
            if x.len() == 2 {
                assert(kind(x[0]) && kind(x[1]));
                if y.len() == 1 {
                    assert(x[0].wires() =~= y[0].wires());
                }
            } else if x.len() == 1 {
                assert(kind(x[0]));
                if y.len() == 1 {
                    assert(x[0].wires() =~= y[0].wires());
                }
            }
        }
    }
    peephole_law::lemma_optimized(gates);
    lemma_reaches_respects(rule, kind, gates, peephole::optimized(gates));
}

proof fn lemma_euler_fits(l: Layout, backend: Backend, axis: RotAxis, q: usize, x: Euler)
    requires
        l.admits(seq![q]),
    ensures
        all(l.fits_backend(backend), resynthesis::euler_gates(axis, q, x)),
{
    let v = resynthesis::euler_gates(axis, q, x);
    assert forall|i: int| 0 <= i < v.len() implies (l.fits_backend(backend))(#[trigger] v[i]) by {
        assert(v[i] is Rz || v[i] is Rot);
        assert(v[i].wires() == seq![q]);
    }
}

/// Nor does resynthesis.
pub proof fn lemma_resynthesis_fits(
    l: Layout,
    backend: Backend,
    gates: Seq<BackendGate>,
    axis: RotAxis,
    e: EulerOf,
)
    requires
        all(l.fits_backend(backend), gates),
    ensures
        all(l.fits_backend(backend), resynthesis::resynthesized(gates, axis, e)),
{
    let kind = l.fits_backend(backend);
    let rule = resynthesis_law::resynthesis_rule(axis, e);
    assert(respects(rule, kind)) by {
        assert forall|x: Seq<BackendGate>, y: Seq<BackendGate>| #[trigger]
            rule(x, y) && all(kind, x) implies all(kind, y) by {
            if resynthesis_law::exchanged(x, y) {
                assert(kind(x[0]) && kind(x[1]));
            } else {
                let (q, turns) = choose|q: usize, turns: Seq<Turn>| #[trigger]
                    resynthesis_law::is_run(x, axis, q, turns) && y == resynthesis::euler_gates(
                        axis,
                        q,
                        e(turns),
                    );
                assert(kind(x[0]));
                assert(resynthesis::as_turn(axis, x[0]) is Some);
                assert(x[0].wires() == seq![q]);
                lemma_euler_fits(l, backend, axis, q, e(turns));
            }
        }
    }
    resynthesis_law::lemma_resynthesized(gates, axis, e);
    lemma_reaches_respects(rule, kind, gates, resynthesis::resynthesized(gates, axis, e));
}

proof fn lemma_settled_fits(
    l: Layout,
    backend: Backend,
    axis: RotAxis,
    gates: Seq<BackendGate>,
    e: EulerOf,
    rounds: nat,
)
    requires
        all(l.fits_backend(backend), gates),
        rounds_fit(axis, gates, e, rounds),
    ensures
        all(l.fits_backend(backend), settled(axis, gates, e, rounds)),
    decreases rounds,
{
    if rounds > 0 {
        let turned = resynthesis::resynthesized(gates, axis, e);
        let next = peephole::optimized(turned);
        lemma_resynthesis_fits(l, backend, gates, axis, e);
        lemma_peephole_fits(l, backend, turned);
        if next.len() != gates.len() {
            lemma_settled_fits(l, backend, axis, next, e, (rounds - 1) as nat);
        }
    }
}

/// A lowered circuit has only gates of its backend, on the qubits of the
/// source, and two-qubit gates only on pairs that can interact, if those of
/// the source are. Every lowering that fits into memory does.
pub proof fn lemma_lowered_fits(l: Layout, backend: Backend, gates: Seq<Gate>, e: EulerOf)
    requires
        l.symmetric(),
        all(l.fits_gate(), gates),
        lowering_fits(backend, gates, e),
    ensures
        all(l.fits_backend(backend), lowered(backend, gates, e)),
{
    if backend.canonical() {
        let native = all_native_gates(gates, gates.len(), e);
        let plain = native.map_values(|g: NativeGate| relabeled(g));
        lemma_decomposed_fits(l, gates, gates.len(), e);
        assert forall|i: int| 0 <= i < plain.len() implies (l.fits_backend(backend))(
            #[trigger] plain[i],
        ) by {
            assert((l.fits_native())(native[i]));
            lemma_relabeled(native[i]);
        }
        lemma_peephole_fits(l, backend, plain);
    } else {
        lemma_all_lowered_fits(l, backend, gates, gates.len(), e);
        lemma_settled_fits(
            l,
            backend,
            backend.axis(),
            all_lowered(backend, gates, gates.len(), e),
            e,
            MAX_ROUNDS as nat,
        );
    }
}

proof fn lemma_relabeled(g: NativeGate)
    ensures
        relabeled(g).wires() == g.wires(),
        in_gate_set(Backend::TrappedIon, relabeled(g)),
    decreases g,
{
    if let NativeGate::If(_, inner) = g {
        lemma_relabeled(*inner);
    }
}

/// The layout of a coupling graph: its qubits, and pairs that it links in
/// either order.
pub open spec fn coupled(g: Graph) -> Layout {
    Layout { wire: |q: usize| q < g.size, pair: |a: usize, b: usize| g.adjacent(a, b) }
}

/// Coupling does not depend on the order.
pub proof fn lemma_coupled_symmetric(g: Graph)
    ensures
        coupled(g).symmetric(),
{
}

} // verus!
