//! What the native optimizer does to neighbors keeps what they do.
use crate::action::{alike, lemma_alike_symmetric, Reading};
use crate::angle::{turns, wrapped};
use crate::binary64::{sum, Binary64};
use crate::ir::Gate;
use crate::ir_optimize_law::{angle_of, lemma_rotations_merge};
use crate::native::NativeGate;
use crate::native_law::{lemma_nothing, placed, source_of, sources};
use crate::optimize::{acts, merged, native_rule};
use vstd::prelude::*;

verus! {

/// Whether the sum of two angles, less its full turns, is read as one turn
/// after the other.
pub open spec fn reads_wrapped(r: Reading, s: Binary64, t: Binary64) -> bool {
    (r.eighths)(wrapped(sum(s, t))) % 8 == ((r.eighths)(s) + (r.eighths)(t)) as int % 8
}

/// The rotation that two neighbors are merged into does what they do.
pub proof fn lemma_native_merge_action(
    r: Reading,
    x: NativeGate,
    y: NativeGate,
    a: usize,
    b: usize,
)
    requires
        merged(x, y) is Some,
        reads_wrapped(r, angle_of(source_of(x)), angle_of(source_of(y))),
        a != b,
        placed(source_of(x), a, b),
        placed(source_of(y), a, b),
    ensures
        alike(
            r,
            seq![source_of(x), source_of(y)],
            seq![source_of(merged(x, y)->0)],
            a,
            b,
        ),
{
    lemma_rotations_merge(r, source_of(x), source_of(y), source_of(merged(x, y)->0), a, b);
}

/// A rotation that is dropped does nothing.
pub proof fn lemma_native_drop_action(r: Reading, g: NativeGate, a: usize, b: usize)
    requires
        r.faithful(),
        !acts(g),
        a != b,
        placed(source_of(g), a, b),
    ensures
        alike(r, seq![source_of(g)], Seq::empty(), a, b),
{
    let h = source_of(g);
    lemma_nothing(r, h, angle_of(h), a, b);
    lemma_alike_symmetric(r, Seq::empty(), seq![h], a, b);
}

/// Whatever the native optimizer does to neighbors keeps what they do.
pub proof fn lemma_native_rule_action(
    r: Reading,
    l: Seq<NativeGate>,
    t: Seq<NativeGate>,
    a: usize,
    b: usize,
)
    requires
        native_rule()(l, t),
        r.faithful(),
        l.len() == 2 ==> reads_wrapped(r, angle_of(source_of(l[0])), angle_of(source_of(l[1]))),
        a != b,
        forall|i: int| 0 <= i < l.len() ==> placed(source_of(#[trigger] l[i]), a, b),
    ensures
        alike(r, sources(l), sources(t), a, b),
{
    assert(placed(source_of(l[0]), a, b));
    if l.len() == 2 {
        assert(placed(source_of(l[1]), a, b));
        lemma_native_merge_action(r, l[0], l[1], a, b);
        assert(sources(l) =~= seq![source_of(l[0]), source_of(l[1])]);
        assert(sources(t) =~= seq![source_of(t[0])]);
    } else {
        lemma_native_drop_action(r, l[0], a, b);
        assert(sources(l) =~= seq![source_of(l[0])]);
        assert(sources(t) =~= Seq::<Gate>::empty());
    }
}

} // verus!
