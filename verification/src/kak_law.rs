//! The native gates of a two-qubit operation do what it does.
use crate::action::{
    alike, lemma_alike_joined, lemma_alike_self, lemma_alike_transitive, Reading,
};
use crate::angle::{turns, Euler, EulerOf, Turn, HALF_PI_BITS};
use crate::binary64::{negated, product, Binary64};
use crate::ir::Gate;
use crate::kak::{both, core_gate, euler_natives, kak_gates, Kak, MINUS_TWO_BITS};
use crate::native::{if_turns, single_gates, NativeGate};
use crate::native_law::{
    euler_rotations, lemma_alike_three, lemma_if_turns, lemma_nothing, lemma_rxx_by_rzz,
    lemma_ryy_by_rzz, lemma_single, lemma_sources_joined, source_of, sources, true_angles, turn_gate,
};
use vstd::prelude::*;

verus! {

/// The angle of the rotation with a coefficient.
pub open spec fn core_angle(coefficient: Binary64) -> Binary64 {
    product(Binary64 { bits: MINUS_TWO_BITS }, coefficient)
}

/// Whether a coefficient next to nothing is read as no turn.
pub open spec fn reads_core(r: Reading, coefficient: Binary64) -> bool {
    !turns(coefficient) ==> (r.eighths)(core_angle(coefficient)) % 8 == 0
}

/// What a decomposed two-qubit operation is: operations on each qubit, then
/// rotations about XX, YY and ZZ by minus twice its coefficients, then
/// operations on each qubit.
pub open spec fn kak_series(k: Kak, q0: usize, q1: usize) -> Seq<Gate> {
    euler_rotations(q0, k.k3) + euler_rotations(q1, k.k4) + seq![
        Gate::Rxx(q0, q1, core_angle(k.a)),
        Gate::Ryy(q0, q1, core_angle(k.b)),
        Gate::Rzz(q0, q1, core_angle(k.c)),
    ] + euler_rotations(q0, k.k1) + euler_rotations(q1, k.k2)
}

proof fn lemma_euler_natives(r: Reading, q: usize, x: Euler, a: usize, b: usize)
    requires
        r.faithful(),
        a != b,
        q == a || q == b,
    ensures
        alike(r, sources(euler_natives(q, x)), euler_rotations(q, x), a, b),
{
    let g1 = NativeGate::Rz(q, x.delta);
    let g2 = NativeGate::Ry(q, x.gamma);
    let g3 = NativeGate::Rz(q, x.beta);
    let s1 = if_turns(x.delta, g1);
    let s2 = if_turns(x.gamma, g2);
    let s3 = if_turns(x.beta, g3);
    lemma_if_turns(r, x.delta, g1, a, b);
    lemma_if_turns(r, x.gamma, g2, a, b);
    lemma_if_turns(r, x.beta, g3, a, b);
    lemma_sources_joined(s1, s2);
    lemma_sources_joined(s1 + s2, s3);
    lemma_alike_three(
        r,
        sources(s1),
        seq![source_of(g1)],
        sources(s2),
        seq![source_of(g2)],
        sources(s3),
        seq![source_of(g3)],
        a,
        b,
    );
    assert(seq![source_of(g1)] + seq![source_of(g2)] + seq![source_of(g3)] =~= euler_rotations(q, x));
}

proof fn lemma_core(r: Reading, q0: usize, q1: usize, c: Binary64, a: usize, b: usize)
    requires
        r.faithful(),
        reads_core(r, c),
        a != b,
        (q0 == a && q1 == b) || (q0 == b && q1 == a),
    ensures
        alike(r, sources(core_gate(q0, q1, c)), seq![Gate::Rzz(q0, q1, core_angle(c))], a, b),
{
    let g = Gate::Rzz(q0, q1, core_angle(c));
    if turns(c) {
        assert(sources(core_gate(q0, q1, c)) =~= seq![g]);
        lemma_alike_self(r, seq![g], a, b);
    } else {
        assert(sources(core_gate(q0, q1, c)) =~= Seq::<Gate>::empty());
        lemma_nothing(r, g, core_angle(c), a, b);
    }
}

proof fn lemma_both(r: Reading, e: EulerOf, q0: usize, q1: usize, t: Turn, a: usize, b: usize)
    requires
        r.faithful(),
        true_angles(r, e),
        a != b,
        (q0 == a && q1 == b) || (q0 == b && q1 == a),
    ensures
        alike(r, sources(both(q0, q1, t, e)), seq![turn_gate(q0, t), turn_gate(q1, t)], a, b),
{
    let x = single_gates(q0, t, e);
    let y = single_gates(q1, t, e);
    lemma_single(r, e, q0, t, a, b);
    lemma_single(r, e, q1, t, a, b);
    lemma_sources_joined(x, y);
    lemma_alike_joined(r, sources(x), seq![turn_gate(q0, t)], sources(y), seq![turn_gate(q1, t)], a, b);
    assert(seq![turn_gate(q0, t)] + seq![turn_gate(q1, t)] =~= seq![turn_gate(q0, t), turn_gate(q1, t)]);
}

/// The rotation about XX.
proof fn lemma_xx_part(r: Reading, e: EulerOf, q0: usize, q1: usize, c: Binary64, a: usize, b: usize)
    requires
        r.faithful(),
        true_angles(r, e),
        reads_core(r, c),
        a != b,
        (q0 == a && q1 == b) || (q0 == b && q1 == a),
    ensures
        alike(
            r,
            sources(both(q0, q1, Turn::H, e)) + sources(core_gate(q0, q1, c)) + sources(
                both(q0, q1, Turn::H, e),
            ),
            seq![Gate::Rxx(q0, q1, core_angle(c))],
            a,
            b,
        ),
{
    let h = sources(both(q0, q1, Turn::H, e));
    let m = sources(core_gate(q0, q1, c));
    let hs = seq![turn_gate(q0, Turn::H), turn_gate(q1, Turn::H)];
    let t = core_angle(c);
    let ms = seq![Gate::Rzz(q0, q1, t)];
    lemma_both(r, e, q0, q1, Turn::H, a, b);
    lemma_core(r, q0, q1, c, a, b);
    lemma_alike_three(r, h, hs, m, ms, h, hs, a, b);
    lemma_rxx_by_rzz(r, q0, q1, t, a, b);
    let long = seq![Gate::H(q0), Gate::H(q1), Gate::Rzz(q0, q1, t), Gate::H(q0), Gate::H(q1)];
    assert(hs + ms + hs =~= long);
    lemma_alike_transitive(r, h + m + h, long, seq![Gate::Rxx(q0, q1, t)], a, b);
}

/// The rotation about YY.
proof fn lemma_yy_part(r: Reading, e: EulerOf, q0: usize, q1: usize, c: Binary64, a: usize, b: usize)
    requires
        r.faithful(),
        true_angles(r, e),
        reads_core(r, c),
        a != b,
        (q0 == a && q1 == b) || (q0 == b && q1 == a),
    ensures
        ({
            let quarter = Binary64 { bits: HALF_PI_BITS };
            alike(
                r,
                sources(both(q0, q1, Turn::Rx(quarter), e)) + sources(core_gate(q0, q1, c)) + sources(
                    both(q0, q1, Turn::Rx(negated(quarter)), e),
                ),
                seq![Gate::Ryy(q0, q1, core_angle(c))],
                a,
                b,
            )
        }),
{
    let quarter = Binary64 { bits: HALF_PI_BITS };
    let back = negated(quarter);
    let h = sources(both(q0, q1, Turn::Rx(quarter), e));
    let k = sources(both(q0, q1, Turn::Rx(back), e));
    let m = sources(core_gate(q0, q1, c));
    let hs = seq![Gate::Rx(q0, quarter), Gate::Rx(q1, quarter)];
    let ks = seq![Gate::Rx(q0, back), Gate::Rx(q1, back)];
    let t = core_angle(c);
    let ms = seq![Gate::Rzz(q0, q1, t)];
    lemma_both(r, e, q0, q1, Turn::Rx(quarter), a, b);
    lemma_both(r, e, q0, q1, Turn::Rx(back), a, b);
    lemma_core(r, q0, q1, c, a, b);
    lemma_alike_three(r, h, hs, m, ms, k, ks, a, b);
    lemma_ryy_by_rzz(r, q0, q1, t, a, b);
    let long = seq![
        Gate::Rx(q0, quarter),
        Gate::Rx(q1, quarter),
        Gate::Rzz(q0, q1, t),
        Gate::Rx(q0, back),
        Gate::Rx(q1, back),
    ];
    assert(hs + ms + ks =~= long);
    lemma_alike_transitive(r, h + m + k, long, seq![Gate::Ryy(q0, q1, t)], a, b);
}

proof fn lemma_grouped(base: Seq<Gate>, x: Seq<Gate>, y: Seq<Gate>, z: Seq<Gate>)
    ensures
        base + x + y + z == base + (x + y + z),
{
    assert(base + x + y + z =~= base + (x + y + z));
}

proof fn lemma_kak_sources(k: Kak, q0: usize, q1: usize, e: EulerOf)
    ensures
        ({
            let quarter = Binary64 { bits: HALF_PI_BITS };
            let h = sources(both(q0, q1, Turn::H, e));
            let f = sources(both(q0, q1, Turn::Rx(quarter), e));
            let g = sources(both(q0, q1, Turn::Rx(negated(quarter)), e));
            let sa = h + sources(core_gate(q0, q1, k.a)) + h;
            let sb = f + sources(core_gate(q0, q1, k.b)) + g;
            let sc = sources(core_gate(q0, q1, k.c));
            sources(kak_gates(k, q0, q1, e)) == sources(euler_natives(q0, k.k3)) + sources(
                euler_natives(q1, k.k4),
            ) + (sa + sb + sc) + sources(euler_natives(q0, k.k1)) + sources(
                euler_natives(q1, k.k2),
            )
        }),
{
    let quarter = Binary64 { bits: HALF_PI_BITS };
    let p1 = euler_natives(q0, k.k3);
    let p2 = euler_natives(q1, k.k4);
    let h = both(q0, q1, Turn::H, e);
    let ca = core_gate(q0, q1, k.a);
    let f = both(q0, q1, Turn::Rx(quarter), e);
    let cb = core_gate(q0, q1, k.b);
    let g = both(q0, q1, Turn::Rx(negated(quarter)), e);
    let cc = core_gate(q0, q1, k.c);
    let p3 = euler_natives(q0, k.k1);
    let p4 = euler_natives(q1, k.k2);
    lemma_joined_sources(p1, p2, h, ca, f, cb, g, cc, p3, p4);
}

proof fn lemma_joined_sources(
    p1: Seq<NativeGate>,
    p2: Seq<NativeGate>,
    h: Seq<NativeGate>,
    ca: Seq<NativeGate>,
    f: Seq<NativeGate>,
    cb: Seq<NativeGate>,
    g: Seq<NativeGate>,
    cc: Seq<NativeGate>,
    p3: Seq<NativeGate>,
    p4: Seq<NativeGate>,
)
    ensures
        sources(p1 + p2 + h + ca + h + f + cb + g + cc + p3 + p4) == sources(p1) + sources(p2) + ((
        sources(h) + sources(ca) + sources(h)) + (sources(f) + sources(cb) + sources(g)) + sources(
            cc,
        )) + sources(p3) + sources(p4),
{
    lemma_sources_joined(p1, p2);
    lemma_sources_joined(p1 + p2, h);
    lemma_sources_joined(p1 + p2 + h, ca);
    lemma_sources_joined(p1 + p2 + h + ca, h);
    lemma_sources_joined(p1 + p2 + h + ca + h, f);
    lemma_sources_joined(p1 + p2 + h + ca + h + f, cb);
    lemma_sources_joined(p1 + p2 + h + ca + h + f + cb, g);
    lemma_sources_joined(p1 + p2 + h + ca + h + f + cb + g, cc);
    lemma_sources_joined(p1 + p2 + h + ca + h + f + cb + g + cc, p3);
    lemma_sources_joined(p1 + p2 + h + ca + h + f + cb + g + cc + p3, p4);
    let base = sources(p1) + sources(p2);
    let sa = sources(h) + sources(ca) + sources(h);
    let sb = sources(f) + sources(cb) + sources(g);
    lemma_grouped(base, sources(h), sources(ca), sources(h));
    lemma_grouped(base + sa, sources(f), sources(cb), sources(g));
    lemma_grouped(base, sa, sb, sources(cc));
}

/// The native gates of a decomposed two-qubit operation do what its parts do.
pub proof fn lemma_kak_action(r: Reading, e: EulerOf, k: Kak, q0: usize, q1: usize, a: usize, b: usize)
    requires
        r.faithful(),
        true_angles(r, e),
        reads_core(r, k.a),
        reads_core(r, k.b),
        reads_core(r, k.c),
        a != b,
        (q0 == a && q1 == b) || (q0 == b && q1 == a),
    ensures
        alike(r, sources(kak_gates(k, q0, q1, e)), kak_series(k, q0, q1), a, b),
{
    let quarter = Binary64 { bits: HALF_PI_BITS };
    let p1 = euler_natives(q0, k.k3);
    let p2 = euler_natives(q1, k.k4);
    let h = both(q0, q1, Turn::H, e);
    let ca = core_gate(q0, q1, k.a);
    let f = both(q0, q1, Turn::Rx(quarter), e);
    let cb = core_gate(q0, q1, k.b);
    let g = both(q0, q1, Turn::Rx(negated(quarter)), e);
    let cc = core_gate(q0, q1, k.c);
    let p3 = euler_natives(q0, k.k1);
    let p4 = euler_natives(q1, k.k2);
    lemma_euler_natives(r, q0, k.k3, a, b);
    lemma_euler_natives(r, q1, k.k4, a, b);
    lemma_euler_natives(r, q0, k.k1, a, b);
    lemma_euler_natives(r, q1, k.k2, a, b);
    lemma_xx_part(r, e, q0, q1, k.a, a, b);
    lemma_yy_part(r, e, q0, q1, k.b, a, b);
    lemma_core(r, q0, q1, k.c, a, b);
    let x1 = euler_rotations(q0, k.k3);
    let x2 = euler_rotations(q1, k.k4);
    let xa = seq![Gate::Rxx(q0, q1, core_angle(k.a))];
    let xb = seq![Gate::Ryy(q0, q1, core_angle(k.b))];
    let xc = seq![Gate::Rzz(q0, q1, core_angle(k.c))];
    let x3 = euler_rotations(q0, k.k1);
    let x4 = euler_rotations(q1, k.k2);
    let sa = sources(h) + sources(ca) + sources(h);
    let sb = sources(f) + sources(cb) + sources(g);
    let sc = sources(cc);
    lemma_alike_three(r, sa, xa, sb, xb, sc, xc, a, b);
    lemma_alike_three(
        r,
        sources(p1),
        x1,
        sources(p2),
        x2,
        sa + sb + sc,
        xa + xb + xc,
        a,
        b,
    );
    lemma_alike_three(
        r,
        sources(p1) + sources(p2) + (sa + sb + sc),
        x1 + x2 + (xa + xb + xc),
        sources(p3),
        x3,
        sources(p4),
        x4,
        a,
        b,
    );
    lemma_kak_sources(k, q0, q1, e);
    assert(xa + xb + xc =~= seq![
        Gate::Rxx(q0, q1, core_angle(k.a)),
        Gate::Ryy(q0, q1, core_angle(k.b)),
        Gate::Rzz(q0, q1, core_angle(k.c)),
    ]);
}

} // verus!
