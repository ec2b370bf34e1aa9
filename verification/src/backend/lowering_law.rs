//! Lowering to a backend keeps what gates do.
use crate::action::{
    acted, alike, controlled_flip, lemma_acted_scaled, lemma_alike_joined, lemma_alike_self,
    lemma_alike_transitive, performed, phased_both, signed_both, Reading,
};
use crate::amplitude::{
    lemma_doubled, linear, rotated, Amplitude, State,
};
use crate::angle::{turns, EulerOf, Turn, HALF_PI_BITS};
use crate::backend::spec::{tiny, zz_by_cx, zz_by_cz, Backend, BackendSpec, RotAxis};
use crate::backend::{
    all_expressed, all_lowered, conditioned, expressed, h_gates, if_ry, if_rz, lowered_gate, relabeled, ry_gates,
    BackendGate,
};
use crate::binary64::{negated, Binary64};
use crate::ir::Gate;
use crate::native::{
    cx_gates, if_turns, native_gates, phase_gates, pi, single_gates, turned_rzz, NativeGate,
};
use crate::native_law::{
    euler_rotations, halved_well, lemma_alike_from, lemma_alike_three, lemma_alike_under,
    lemma_conjugated, lemma_cx_by_cz, lemma_five, lemma_native_action, lemma_nothing, lemma_one,
    lemma_ry_state, lemma_swap_by_cx, lemma_three, lemma_tilt_acts, placed, source_of, sources,
    tilted, true_angles, turned_truly, under,
};
use vstd::prelude::*;

verus! {

/// A backend's gate as the source gate that it is.
pub open spec fn meaning(axis: RotAxis, g: BackendGate) -> Gate
    decreases g,
{
    match g {
        BackendGate::Rz(q, t) => Gate::Rz(q, t),
        BackendGate::Rot(q, t) => match axis {
            RotAxis::Rx => Gate::Rx(q, t),
            RotAxis::Ry => Gate::Ry(q, t),
        },
        BackendGate::Cx(a, b) => Gate::Cx(a, b),
        BackendGate::Cz(a, b) => Gate::Cz(a, b),
        BackendGate::Rzz(a, b, t) => Gate::Rzz(a, b, t),
        BackendGate::Measure(q, c) => Gate::Measure(q, c),
        BackendGate::If(c, inner) => Gate::If(c, Box::new(meaning(axis, *inner))),
    }
}

pub open spec fn meanings(axis: RotAxis, gates: Seq<BackendGate>) -> Seq<Gate> {
    gates.map_values(|g: BackendGate| meaning(axis, g))
}

pub proof fn lemma_meanings_joined(axis: RotAxis, x: Seq<BackendGate>, y: Seq<BackendGate>)
    ensures
        meanings(axis, x + y) == meanings(axis, x) + meanings(axis, y),
{
    assert(meanings(axis, x + y) =~= meanings(axis, x) + meanings(axis, y));
}

proof fn lemma_tiny(a: Binary64)
    ensures
        tiny(a) ==> !turns(a),
{
}

/// The gates of a rotation about Y do what it does.
pub proof fn lemma_ry_meaning(r: Reading, axis: RotAxis, q: usize, t: Binary64, a: usize, b: usize)
    requires
        r.faithful(),
        a != b,
        q == a || q == b,
    ensures
        alike(r, meanings(axis, ry_gates(axis, q, t)), seq![Gate::Ry(q, t)], a, b),
{
    let goal = seq![Gate::Ry(q, t)];
    match axis {
        RotAxis::Ry => {
            assert(meanings(axis, ry_gates(axis, q, t)) =~= goal);
            lemma_alike_self(r, goal, a, b);
        },
        RotAxis::Rx => {
            let quarter = Binary64 { bits: HALF_PI_BITS };
            let back = negated(quarter);
            let long = seq![Gate::Rx(q, quarter), Gate::Rz(q, t), Gate::Rx(q, back)];
            assert(meanings(axis, ry_gates(axis, q, t)) =~= long);
            let k = (r.eighths)(t);
            assert forall|s: State| #[trigger]
                performed(r, long, a, b, s) == performed(r, goal, a, b, s).scaled(4, 0) by {
                lemma_three(r, Gate::Rx(q, quarter), Gate::Rz(q, t), Gate::Rx(q, back), a, b, s);
                lemma_one(r, Gate::Ry(q, t), a, b, s);
                let u = tilted(s, q == a, false);
                lemma_tilt_acts(r, q, a, b, s);
                lemma_tilt_acts(r, q, a, b, rotated(u, u.signed(q == a), k));
                lemma_ry_state(s, q == a, k);
            }
            lemma_alike_from(r, long, goal, a, b, 4);
        },
    }
}

proof fn lemma_if_rz(r: Reading, axis: RotAxis, q: usize, t: Binary64, a: usize, b: usize)
    requires
        r.faithful(),
        a != b,
        q == a || q == b,
    ensures
        alike(r, meanings(axis, if_rz(q, t)), seq![Gate::Rz(q, t)], a, b),
        alike(r, meanings(axis, if_ry(axis, q, t)), seq![Gate::Ry(q, t)], a, b),
{
    if turns(t) {
        assert(meanings(axis, if_rz(q, t)) =~= seq![Gate::Rz(q, t)]);
        lemma_alike_self(r, seq![Gate::Rz(q, t)], a, b);
        lemma_ry_meaning(r, axis, q, t, a, b);
    } else {
        assert(meanings(axis, Seq::<BackendGate>::empty()) =~= Seq::<Gate>::empty());
        lemma_nothing(r, Gate::Rz(q, t), t, a, b);
        lemma_nothing(r, Gate::Ry(q, t), t, a, b);
    }
}

/// The gates of `H` do what it does.
pub proof fn lemma_h_meaning(r: Reading, e: EulerOf, axis: RotAxis, q: usize, a: usize, b: usize)
    requires
        r.faithful(),
        true_angles(r, e),
        a != b,
        q == a || q == b,
    ensures
        alike(r, meanings(axis, h_gates(axis, q, e)), seq![Gate::H(q)], a, b),
{
    let x = e(seq![Turn::H]);
    let s1 = if_rz(q, x.delta);
    let s2 = if_ry(axis, q, x.gamma);
    let s3 = if_rz(q, x.beta);
    let g1 = seq![Gate::Rz(q, x.delta)];
    let g2 = seq![Gate::Ry(q, x.gamma)];
    let g3 = seq![Gate::Rz(q, x.beta)];
    lemma_if_rz(r, axis, q, x.delta, a, b);
    lemma_if_rz(r, axis, q, x.gamma, a, b);
    lemma_if_rz(r, axis, q, x.beta, a, b);
    lemma_alike_three(
        r,
        meanings(axis, s1),
        g1,
        meanings(axis, s2),
        g2,
        meanings(axis, s3),
        g3,
        a,
        b,
    );
    lemma_meanings_joined(axis, s1, s2);
    lemma_meanings_joined(axis, s1 + s2, s3);
    assert(g1 + g2 + g3 =~= euler_rotations(q, x));
    assert(turned_truly(r, e, Turn::H, q, a, b));
    lemma_alike_transitive(
        r,
        meanings(axis, h_gates(axis, q, e)),
        euler_rotations(q, x),
        seq![Gate::H(q)],
        a,
        b,
    );
}

proof fn lemma_flip_axes(s: State, straight: bool)
    ensures
        controlled_flip(controlled_flip(s, straight), straight) == s,
        controlled_flip(s.signed(!straight), straight) == signed_both(controlled_flip(s, straight)),
        linear(|t: State| controlled_flip(t, straight)),
{
}

/// A rotation about Z between two `Cx` is one about ZZ.
pub proof fn lemma_rzz_by_cx(r: Reading, x: usize, y: usize, t: Binary64, a: usize, b: usize)
    requires
        a != b,
        (x == a && y == b) || (x == b && y == a),
    ensures
        alike(r, seq![Gate::Cx(x, y), Gate::Rz(y, t), Gate::Cx(x, y)], seq![Gate::Rzz(x, y, t)], a, b),
{
    let long = seq![Gate::Cx(x, y), Gate::Rz(y, t), Gate::Cx(x, y)];
    let goal = seq![Gate::Rzz(x, y, t)];
    let k = (r.eighths)(t);
    let straight = x == a;
    assert forall|s: State| #[trigger]
        performed(r, long, a, b, s) == performed(r, goal, a, b, s).scaled(0, 0) by {
        lemma_three(r, Gate::Cx(x, y), Gate::Rz(y, t), Gate::Cx(x, y), a, b, s);
        lemma_one(r, Gate::Rzz(x, y, t), a, b, s);
        let f = |t: State| controlled_flip(t, straight);
        let u = f(s);
        lemma_flip_axes(s, straight);
        lemma_flip_axes(u, straight);
        lemma_conjugated(f, u, u.signed(!straight), k);
        let end = rotated(s, signed_both(s), k);
        assert(end.roots(0) == end && end.turned(0) == end);
    }
    lemma_alike_from(r, long, goal, a, b, 0);
}

/// `H` on the second qubit behind `Cz`, before normalization.
#[verifier::opaque]
pub open spec fn sifted(s: State, straight: bool) -> State {
    let t = phased_both(s, 4);
    t.flipped(!straight).plus(t.signed(!straight))
}

proof fn lemma_sifted(s: State, straight: bool)
    ensures
        linear(|t: State| sifted(t, straight)),
        ({
            let h = s.flipped(!straight).plus(s.signed(!straight));
            sifted(phased_both(h, 4), straight) == s.plus(s)
        }),
{
    reveal(sifted);
    reveal_with_fuel(Amplitude::turned, 5);
}

proof fn lemma_sifted_axis(s: State, straight: bool)
    ensures
        sifted(s.flipped(!straight), straight) == signed_both(sifted(s, straight)),
{
    reveal(sifted);
    reveal_with_fuel(Amplitude::turned, 5);
}

proof fn lemma_sifted_acts(r: Reading, x: usize, y: usize, a: usize, b: usize, s: State)
    requires
        a != b,
        (x == a && y == b) || (x == b && y == a),
    ensures
        acted(r, Gate::H(y), a, b, acted(r, Gate::Cz(x, y), a, b, s)) == sifted(s, x == a),
{
    reveal(sifted);
}

/// A rotation about X between two `Cz`, between two `H`, is one about ZZ.
pub proof fn lemma_rzz_by_cz(r: Reading, x: usize, y: usize, t: Binary64, a: usize, b: usize)
    requires
        a != b,
        (x == a && y == b) || (x == b && y == a),
    ensures
        alike(
            r,
            seq![Gate::H(y), Gate::Cz(x, y), Gate::Rx(y, t), Gate::Cz(x, y), Gate::H(y)],
            seq![Gate::Rzz(x, y, t)],
            a,
            b,
        ),
{
    let long = seq![Gate::H(y), Gate::Cz(x, y), Gate::Rx(y, t), Gate::Cz(x, y), Gate::H(y)];
    let goal = seq![Gate::Rzz(x, y, t)];
    let k = (r.eighths)(t);
    let straight = x == a;
    assert forall|s: State| #[trigger]
        performed(r, long, a, b, s) == performed(r, goal, a, b, s).scaled(2, 0) by {
        lemma_five(
            r,
            Gate::H(y),
            Gate::Cz(x, y),
            Gate::Rx(y, t),
            Gate::Cz(x, y),
            Gate::H(y),
            a,
            b,
            s,
        );
        lemma_one(r, Gate::Rzz(x, y, t), a, b, s);
        let h = s.flipped(!straight).plus(s.signed(!straight));
        let u = phased_both(h, 4);
        assert(acted(r, Gate::H(y), a, b, s) == h);
        assert(acted(r, Gate::Cz(x, y), a, b, h) == u);
        let v = rotated(u, u.flipped(!straight), k);
        assert(acted(r, Gate::Rx(y, t), a, b, u) == v);
        lemma_sifted_acts(r, x, y, a, b, v);
        let f = |t: State| sifted(t, straight);
        lemma_sifted(s, straight);
        lemma_sifted_axis(u, straight);
        lemma_conjugated(f, u, u.flipped(!straight), k);
        lemma_doubled(s);
        assert(f(u) == s.scaled(2, 0));
        assert(f(u.flipped(!straight)) == signed_both(f(u)));
        lemma_acted_scaled(r, Gate::Rzz(x, y, t), a, b, s, 2, 0);
    }
    lemma_alike_from(r, long, goal, a, b, 2);
}

/// What a backend writes for a rotation about ZZ does what it does.
proof fn lemma_zz_meaning(
    r: Reading,
    e: EulerOf,
    backend: Backend,
    x: usize,
    y: usize,
    t: Binary64,
    a: usize,
    b: usize,
)
    requires
        r.faithful(),
        true_angles(r, e),
        a != b,
        (x == a && y == b) || (x == b && y == a),
    ensures
        alike(
            r,
            meanings(backend.axis(), backend.zz_gates(x, y, t, e)),
            seq![Gate::Rzz(x, y, t)],
            a,
            b,
        ),
{
    let axis = backend.axis();
    let goal = seq![Gate::Rzz(x, y, t)];
    lemma_tiny(t);
    if backend == Backend::TrappedIon {
        assert(meanings(axis, backend.zz_gates(x, y, t, e)) =~= goal);
        lemma_alike_self(r, goal, a, b);
    } else if tiny(t) {
        assert(meanings(axis, Seq::<BackendGate>::empty()) =~= Seq::<Gate>::empty());
        lemma_nothing(r, Gate::Rzz(x, y, t), t, a, b);
    } else if backend == Backend::IbmQ {
        let long = seq![Gate::Cx(x, y), Gate::Rz(y, t), Gate::Cx(x, y)];
        assert(meanings(axis, zz_by_cx(x, y, t)) =~= long);
        lemma_rzz_by_cx(r, x, y, t, a, b);
    } else {
        let h = h_gates(RotAxis::Rx, y, e);
        let mid = seq![BackendGate::Cz(x, y), BackendGate::Rot(y, t), BackendGate::Cz(x, y)];
        let hs = seq![Gate::H(y)];
        let ms = seq![Gate::Cz(x, y), Gate::Rx(y, t), Gate::Cz(x, y)];
        lemma_h_meaning(r, e, RotAxis::Rx, y, a, b);
        assert(meanings(axis, mid) =~= ms);
        lemma_alike_self(r, ms, a, b);
        lemma_alike_three(r, meanings(axis, h), hs, meanings(axis, mid), ms, meanings(axis, h), hs, a, b);
        lemma_meanings_joined(axis, h, mid);
        lemma_meanings_joined(axis, h + mid, h);
        let long = seq![Gate::H(y), Gate::Cz(x, y), Gate::Rx(y, t), Gate::Cz(x, y), Gate::H(y)];
        assert(hs + ms + hs =~= long);
        lemma_rzz_by_cz(r, x, y, t, a, b);
        lemma_alike_transitive(r, meanings(axis, zz_by_cz(x, y, t, e)), long, goal, a, b);
    }
}

/// What a backend writes for `Cx` does what it does.
pub proof fn lemma_cx_meaning(
    r: Reading,
    e: EulerOf,
    backend: Backend,
    x: usize,
    y: usize,
    a: usize,
    b: usize,
)
    requires
        r.faithful(),
        true_angles(r, e),
        backend.direct_cx(),
        a != b,
        (x == a && y == b) || (x == b && y == a),
    ensures
        alike(r, meanings(backend.axis(), backend.cx_gates(x, y, e)), seq![Gate::Cx(x, y)], a, b),
{
    let axis = backend.axis();
    if backend == Backend::IbmQ {
        assert(meanings(axis, backend.cx_gates(x, y, e)) =~= seq![Gate::Cx(x, y)]);
        lemma_alike_self(r, seq![Gate::Cx(x, y)], a, b);
    } else {
        let h = h_gates(RotAxis::Rx, y, e);
        let mid = seq![BackendGate::Cz(x, y)];
        let hs = seq![Gate::H(y)];
        let ms = seq![Gate::Cz(x, y)];
        lemma_h_meaning(r, e, RotAxis::Rx, y, a, b);
        assert(meanings(axis, mid) =~= ms);
        lemma_alike_self(r, ms, a, b);
        lemma_alike_three(r, meanings(axis, h), hs, meanings(axis, mid), ms, meanings(axis, h), hs, a, b);
        lemma_meanings_joined(axis, h, mid);
        lemma_meanings_joined(axis, h + mid, h);
        assert(hs + ms + hs =~= seq![Gate::H(y), Gate::Cz(x, y), Gate::H(y)]);
        lemma_cx_by_cz(r, x, y, a, b);
        lemma_alike_transitive(
            r,
            meanings(axis, backend.cx_gates(x, y, e)),
            hs + ms + hs,
            seq![Gate::Cx(x, y)],
            a,
            b,
        );
    }
}

/// What a backend writes for a native gate does what it does.
pub proof fn lemma_expressed_meaning(
    r: Reading,
    e: EulerOf,
    backend: Backend,
    g: NativeGate,
    a: usize,
    b: usize,
)
    requires
        r.faithful(),
        true_angles(r, e),
        a != b,
        placed(source_of(g), a, b),
    ensures
        alike(r, meanings(backend.axis(), expressed(backend, g, e)), seq![source_of(g)], a, b),
    decreases g,
{
    let axis = backend.axis();
    match g {
        NativeGate::Rz(q, t) => {
            assert(meanings(axis, expressed(backend, g, e)) =~= seq![source_of(g)]);
            lemma_alike_self(r, seq![source_of(g)], a, b);
        },
        NativeGate::Ry(q, t) => lemma_ry_meaning(r, axis, q, t, a, b),
        NativeGate::Rzz(x, y, t) => lemma_zz_meaning(r, e, backend, x, y, t, a, b),
        NativeGate::If(c, inner) => {
            lemma_expressed_meaning(r, e, backend, *inner, a, b);
            let body = expressed(backend, *inner, e);
            lemma_alike_under(r, c, meanings(axis, body), source_of(*inner), a, b);
            assert(meanings(axis, conditioned(c, body)) =~= under(c, meanings(axis, body)));
        },
        NativeGate::Measure(_, _) => {},
    }
}

proof fn lemma_all_expressed_meaning(
    r: Reading,
    e: EulerOf,
    backend: Backend,
    gates: Seq<NativeGate>,
    n: nat,
    a: usize,
    b: usize,
)
    requires
        r.faithful(),
        true_angles(r, e),
        a != b,
        n <= gates.len(),
        forall|i: int| 0 <= i < gates.len() ==> placed(source_of(#[trigger] gates[i]), a, b),
    ensures
        alike(
            r,
            meanings(backend.axis(), all_expressed(backend, gates, n, e)),
            sources(gates.take(n as int)),
            a,
            b,
        ),
    decreases n,
{
    let axis = backend.axis();
    if n == 0 {
        assert(meanings(axis, all_expressed(backend, gates, 0, e)) =~= Seq::<Gate>::empty());
        assert(sources(gates.take(0)) =~= Seq::<Gate>::empty());
        lemma_alike_self(r, Seq::<Gate>::empty(), a, b);
    } else {
        let front = all_expressed(backend, gates, (n - 1) as nat, e);
        let g = gates[n - 1];
        lemma_all_expressed_meaning(r, e, backend, gates, (n - 1) as nat, a, b);
        lemma_expressed_meaning(r, e, backend, g, a, b);
        lemma_meanings_joined(axis, front, expressed(backend, g, e));
        lemma_alike_joined(
            r,
            meanings(axis, front),
            sources(gates.take(n - 1)),
            meanings(axis, expressed(backend, g, e)),
            seq![source_of(g)],
            a,
            b,
        );
        assert(sources(gates.take(n - 1)) + seq![source_of(g)] =~= sources(gates.take(n as int)));
    }
}

/// Whether native gates are on a pair.
spec fn all_placed(gates: Seq<NativeGate>, a: usize, b: usize) -> bool {
    forall|i: int| 0 <= i < gates.len() ==> placed(source_of(#[trigger] gates[i]), a, b)
}

proof fn lemma_placed_joined(x: Seq<NativeGate>, y: Seq<NativeGate>, a: usize, b: usize)
    requires
        all_placed(x, a, b),
        all_placed(y, a, b),
    ensures
        all_placed(x + y, a, b),
{
}

proof fn lemma_single_placed(q: usize, t: Turn, e: EulerOf, a: usize, b: usize)
    requires
        q == a || q == b,
    ensures
        all_placed(single_gates(q, t, e), a, b),
{
}

proof fn lemma_cx_placed(x: usize, y: usize, e: EulerOf, a: usize, b: usize)
    requires
        (x == a && y == b) || (x == b && y == a),
    ensures
        all_placed(cx_gates(x, y, e), a, b),
{
    let h = single_gates(y, Turn::H, e);
    let p = phase_gates(x, y, pi());
    lemma_single_placed(y, Turn::H, e, a, b);
    assert(all_placed(p, a, b));
    lemma_placed_joined(h, p, a, b);
    lemma_placed_joined(h + p, h, a, b);
}

proof fn lemma_turned_placed(
    x: usize,
    y: usize,
    t: Binary64,
    before: Turn,
    after: Turn,
    e: EulerOf,
    a: usize,
    b: usize,
)
    requires
        (x == a && y == b) || (x == b && y == a),
    ensures
        all_placed(turned_rzz(x, y, t, before, after, e), a, b),
{
    let n1 = single_gates(x, before, e);
    let n2 = single_gates(y, before, e);
    let n3 = if_turns(t, NativeGate::Rzz(x, y, t));
    let n4 = single_gates(x, after, e);
    let n5 = single_gates(y, after, e);
    lemma_single_placed(x, before, e, a, b);
    lemma_single_placed(y, before, e, a, b);
    lemma_single_placed(x, after, e, a, b);
    lemma_single_placed(y, after, e, a, b);
    assert(all_placed(n3, a, b));
    lemma_placed_joined(n1, n2, a, b);
    lemma_placed_joined(n1 + n2, n3, a, b);
    lemma_placed_joined(n1 + n2 + n3, n4, a, b);
    lemma_placed_joined(n1 + n2 + n3 + n4, n5, a, b);
}

/// The native gates of a gate are on its pair.
proof fn lemma_natives_placed(g: Gate, e: EulerOf, a: usize, b: usize)
    requires
        placed(g, a, b),
    ensures
        all_placed(native_gates(g, e), a, b),
    decreases g,
{
    match g {
        Gate::H(q) => lemma_single_placed(q, Turn::H, e, a, b),
        Gate::X(q) => lemma_single_placed(q, Turn::X, e, a, b),
        Gate::Y(q) => lemma_single_placed(q, Turn::Y, e, a, b),
        Gate::Z(q) => lemma_single_placed(q, Turn::Z, e, a, b),
        Gate::S(q) => lemma_single_placed(q, Turn::S, e, a, b),
        Gate::Sdg(q) => lemma_single_placed(q, Turn::Sdg, e, a, b),
        Gate::T(q) => lemma_single_placed(q, Turn::T, e, a, b),
        Gate::Tdg(q) => lemma_single_placed(q, Turn::Tdg, e, a, b),
        Gate::Rx(q, t) => lemma_single_placed(q, Turn::Rx(t), e, a, b),
        Gate::Cx(x, y) => lemma_cx_placed(x, y, e, a, b),
        Gate::Swap(x, y) => {
            lemma_cx_placed(x, y, e, a, b);
            lemma_cx_placed(y, x, e, a, b);
            lemma_placed_joined(cx_gates(x, y, e), cx_gates(y, x, e), a, b);
            lemma_placed_joined(
                cx_gates(x, y, e) + cx_gates(y, x, e),
                cx_gates(x, y, e),
                a,
                b,
            );
        },
        Gate::Rxx(x, y, t) => lemma_turned_placed(x, y, t, Turn::H, Turn::H, e, a, b),
        Gate::Ryy(x, y, t) => {
            let quarter = Binary64 { bits: HALF_PI_BITS };
            lemma_turned_placed(
                x,
                y,
                t,
                Turn::Rx(quarter),
                Turn::Rx(negated(quarter)),
                e,
                a,
                b,
            );
        },
        Gate::If(c, inner) => {
            lemma_natives_placed(*inner, e, a, b);
            let body = native_gates(*inner, e);
            assert forall|i: int| 0 <= i < native_gates(g, e).len() implies placed(
                source_of(#[trigger] native_gates(g, e)[i]),
                a,
                b,
            ) by {
                assert(native_gates(g, e)[i] == NativeGate::If(c, Box::new(body[i])));
                assert(placed(source_of(body[i]), a, b));
            }
        },
        _ => {},
    }
}

/// The gates that a backend is given for a gate do what this gate does, up to
/// a global phase, if the Euler angles are true.
pub proof fn lemma_lowered_action(
    r: Reading,
    e: EulerOf,
    backend: Backend,
    g: Gate,
    a: usize,
    b: usize,
)
    requires
        r.faithful(),
        true_angles(r, e),
        a != b,
        placed(g, a, b),
        halved_well(r, g),
    ensures
        alike(r, meanings(backend.axis(), lowered_gate(backend, g, e)), seq![g], a, b),
    decreases g,
{
    let axis = backend.axis();
    match g {
        Gate::If(c, inner) => {
            lemma_lowered_action(r, e, backend, *inner, a, b);
            let body = lowered_gate(backend, *inner, e);
            lemma_alike_under(r, c, meanings(axis, body), *inner, a, b);
            assert(meanings(axis, conditioned(c, body)) =~= under(c, meanings(axis, body)));
            assert(Gate::If(c, Box::new(*inner)) == g);
        },
        Gate::Cx(x, y) if backend.direct_cx() => lemma_cx_meaning(r, e, backend, x, y, a, b),
        Gate::Swap(x, y) if backend.direct_cx() => {
            let f = backend.cx_gates(x, y, e);
            let h = backend.cx_gates(y, x, e);
            let fs = seq![Gate::Cx(x, y)];
            let hs = seq![Gate::Cx(y, x)];
            lemma_cx_meaning(r, e, backend, x, y, a, b);
            lemma_cx_meaning(r, e, backend, y, x, a, b);
            lemma_alike_three(r, meanings(axis, f), fs, meanings(axis, h), hs, meanings(axis, f), fs, a, b);
            lemma_meanings_joined(axis, f, h);
            lemma_meanings_joined(axis, f + h, f);
            assert(fs + hs + fs =~= seq![Gate::Cx(x, y), Gate::Cx(y, x), Gate::Cx(x, y)]);
            lemma_swap_by_cx(r, x, y, a, b);
            lemma_alike_transitive(
                r,
                meanings(axis, lowered_gate(backend, g, e)),
                fs + hs + fs,
                seq![g],
                a,
                b,
            );
        },
        _ => {
            let natives = native_gates(g, e);
            lemma_natives_placed(g, e, a, b);
            lemma_all_expressed_meaning(r, e, backend, natives, natives.len(), a, b);
            assert(natives.take(natives.len() as int) =~= natives);
            lemma_native_action(r, e, g, a, b);
            lemma_alike_transitive(
                r,
                meanings(axis, lowered_gate(backend, g, e)),
                sources(natives),
                seq![g],
                a,
                b,
            );
        },
    }
}

/// The names that a trapped-ion backend gives native gates keep what they are.
pub proof fn lemma_relabeled_meaning(g: NativeGate)
    ensures
        meaning(RotAxis::Ry, relabeled(g)) == source_of(g),
    decreases g,
{
    if let NativeGate::If(_, inner) = g {
        lemma_relabeled_meaning(*inner);
    }
}

/// The gates of a circuit on two qubits, as a backend is given them, do what
/// the circuit does.
#[verifier::rlimit(50)]
pub proof fn lemma_lowered_circuit_action(
    r: Reading,
    e: EulerOf,
    backend: Backend,
    gates: Seq<Gate>,
    n: nat,
    a: usize,
    b: usize,
)
    requires
        r.faithful(),
        true_angles(r, e),
        a != b,
        n <= gates.len(),
        forall|i: int|
            0 <= i < gates.len() ==> placed(#[trigger] gates[i], a, b) && halved_well(r, gates[i]),
    ensures
        alike(
            r,
            meanings(backend.axis(), all_lowered(backend, gates, n, e)),
            gates.take(n as int),
            a,
            b,
        ),
    decreases n,
{
    let axis = backend.axis();
    if n == 0 {
        assert(meanings(axis, all_lowered(backend, gates, 0, e)) =~= Seq::<Gate>::empty());
        assert(gates.take(0) =~= Seq::<Gate>::empty());
        lemma_alike_self(r, Seq::<Gate>::empty(), a, b);
    } else {
        let front = all_lowered(backend, gates, (n - 1) as nat, e);
        let g = gates[n - 1];
        let more = lowered_gate(backend, g, e);
        lemma_lowered_circuit_action(r, e, backend, gates, (n - 1) as nat, a, b);
        lemma_lowered_action(r, e, backend, g, a, b);
        lemma_one_more(r, axis, front, more, gates.take(n - 1), g, a, b);
        assert(all_lowered(backend, gates, n, e) == front + more);
        assert(gates.take(n - 1).push(g) =~= gates.take(n as int));
    }
}

proof fn lemma_one_more(
    r: Reading,
    axis: RotAxis,
    front: Seq<BackendGate>,
    more: Seq<BackendGate>,
    x: Seq<Gate>,
    g: Gate,
    a: usize,
    b: usize,
)
    requires
        alike(r, meanings(axis, front), x, a, b),
        alike(r, meanings(axis, more), seq![g], a, b),
    ensures
        alike(r, meanings(axis, front + more), x.push(g), a, b),
{
    lemma_meanings_joined(axis, front, more);
    lemma_alike_joined(r, meanings(axis, front), x, meanings(axis, more), seq![g], a, b);
    assert(x + seq![g] =~= x.push(g));
}

/// A measurement stays what it is.
pub proof fn lemma_lowered_measurement(backend: Backend, e: EulerOf, q: usize, c: usize)
    ensures
        meanings(backend.axis(), lowered_gate(backend, Gate::Measure(q, c), e)) == seq![
            Gate::Measure(q, c),
        ],
{
    let m = native_gates(Gate::Measure(q, c), e);
    assert(m.len() == 1);
    reveal_with_fuel(all_expressed, 2);
    assert(all_expressed(backend, m, 1, e) =~= seq![BackendGate::Measure(q, c)]);
    assert(meanings(backend.axis(), lowered_gate(backend, Gate::Measure(q, c), e)) =~= seq![
        Gate::Measure(q, c),
    ]);
}

} // verus!
