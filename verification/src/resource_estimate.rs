//! What circuits cost a fault-tolerant machine: T gates and layers of them.
//!
//! A circuit is decomposed and optimized first. A rotation by a multiple of
//! a quarter turn is free of T gates, one by an odd multiple of an eighth
//! takes one, and any other is approximated.
use crate::angle::{synthesizes, total, Euler, EulerOf, Turn, EPS_BITS, HALF_PI_BITS, TAU_BITS};
use crate::binary64::{absolute, below, difference, quotient, remainder, sum, whole, Binary64};
use crate::fidelity::ONE_BITS;
use crate::ir::{Circuit, Conditions};
use crate::native::{all_native_gates, decompose, NativeCircuit, NativeGate};
use crate::optimize::{lemma_optimized, optimize, optimized};
use crate::placement::{lemma_decomposed_fits, lemma_optimized_fits, Layout};
use crate::rewrite::all;
use vstd::prelude::*;

verus! {

/// The bit pattern of `1e-10`, the precision of approximated rotations.
pub const DEFAULT_ROTATION_EPSILON: u64 = 0x3ddb_7cdf_d9d7_bdbb;

/// The bit pattern of a quarter of pi.
pub const QUARTER_PI_BITS: u64 = 0x3fe9_21fb_5444_2d18;

/// How the cost of a rotation was found.
#[derive(Debug, Clone, Copy, PartialEq, Eq, Structural)]
pub enum RotationSynthesis {
    /// A multiple of a full turn.
    Identity,
    /// A multiple of a quarter turn.
    Clifford,
    /// An odd multiple of an eighth turn.
    ExactT,
    /// Anything else, approximated.
    Approximate,
}

/// What one rotation costs.
#[derive(Debug, Clone, Copy, PartialEq, Eq, Structural)]
pub struct RotationCost {
    pub synthesis: RotationSynthesis,
    pub t_count: usize,
}

/// What a circuit costs.
#[derive(Debug, Clone, Copy)]
pub struct ResourceBudget {
    /// T gates in all.
    pub t_count: usize,
    /// The longest chain of T gates on one qubit.
    pub t_depth: usize,
    /// Clifford gates, the free parts of rotations included.
    pub clifford_count: usize,
    pub measurement_count: usize,
    /// Rotations with an exact cost.
    pub exact_rotations: usize,
    /// Rotations with an estimated cost.
    pub approximated_rotations: usize,
}

impl Default for ResourceBudget {
    fn default() -> (r: Self)
        ensures
            r.t_count == 0,
            r.t_depth == 0,
            r.clifford_count == 0,
            r.measurement_count == 0,
            r.exact_rotations == 0,
            r.approximated_rotations == 0,
    {
        ResourceBudget {
            t_count: 0,
            t_depth: 0,
            clifford_count: 0,
            measurement_count: 0,
            exact_rotations: 0,
            approximated_rotations: 0,
        }
    }
}

/// An angle between zero and a full turn.
pub open spec fn unwound(theta: Binary64) -> Binary64 {
    let r = remainder(theta, Binary64 { bits: TAU_BITS });
    if below(r, Binary64 { bits: 0 }) {
        sum(r, Binary64 { bits: TAU_BITS })
    } else {
        r
    }
}

/// Whether an angle is a multiple of a unit, to within the tolerance.
pub open spec fn multiple(angle: Binary64, unit: Binary64) -> bool {
    let x = quotient(angle, unit);
    below(absolute(difference(x, whole(x))), Binary64 { bits: EPS_BITS })
}

/// How a rotation is made.
pub open spec fn synthesis(theta: Binary64) -> RotationSynthesis {
    let a = unwound(theta);
    let eps = Binary64 { bits: EPS_BITS };
    if below(a, eps) || below(difference(Binary64 { bits: TAU_BITS }, a), eps) {
        RotationSynthesis::Identity
    } else if multiple(a, Binary64 { bits: HALF_PI_BITS }) {
        RotationSynthesis::Clifford
    } else if multiple(a, Binary64 { bits: QUARTER_PI_BITS }) {
        RotationSynthesis::ExactT
    } else {
        RotationSynthesis::Approximate
    }
}

/// A precision between zero and one; the default in place of any other.
pub open spec fn precision(epsilon: Binary64) -> Binary64 {
    if proper(epsilon) {
        epsilon
    } else {
        Binary64 { bits: DEFAULT_ROTATION_EPSILON }
    }
}

/// How many T gates a rotation takes that is approximated to a precision.
pub type CostOf = spec_fn(Binary64) -> usize;

/// A function gives these costs.
pub open spec fn prices<C: Fn(Binary64) -> usize>(f: C, c: CostOf) -> bool {
    forall|x: Binary64, n: usize| #[trigger] call_ensures(f, (x,), n) ==> n == c(x)
}

/// A function can be asked for any precision.
pub open spec fn always_prices<C: Fn(Binary64) -> usize>(f: C) -> bool {
    forall|x: Binary64| #[trigger] call_requires(f, (x,))
}

/// What a rotation costs.
pub open spec fn rotation_cost(theta: Binary64, epsilon: Binary64, c: CostOf) -> RotationCost {
    RotationCost {
        synthesis: synthesis(theta),
        t_count: match synthesis(theta) {
            RotationSynthesis::Identity | RotationSynthesis::Clifford => 0,
            RotationSynthesis::ExactT => 1,
            RotationSynthesis::Approximate => c(precision(epsilon)),
        },
    }
}

fn is_multiple(angle: Binary64, unit: Binary64) -> (r: bool)
    ensures
        r == multiple(angle, unit),
{
    let x = angle.over(unit);
    x.minus(x.round()).abs().lt(Binary64 { bits: EPS_BITS })
}

/// Classifies a rotation and gives its cost. `cost` gives the number of T
/// gates of a rotation that is approximated to a precision.
pub fn rotation_t_cost<C: Fn(Binary64) -> usize>(theta: Binary64, epsilon: Binary64, cost: &C) -> (r:
    RotationCost)
    requires
        always_prices(*cost),
    ensures
        r.synthesis == synthesis(theta),
        forall|c: CostOf| #[trigger] prices(*cost, c) ==> r == rotation_cost(theta, epsilon, c),
        !(synthesis(theta) is Approximate) ==> forall|c: CostOf|
            r == #[trigger] rotation_cost(theta, epsilon, c),
{
    let eps = Binary64 { bits: EPS_BITS };
    let tau = Binary64 { bits: TAU_BITS };
    let rest = theta.rem(tau);
    let angle = if rest.lt(Binary64 { bits: 0 }) {
        rest.plus(tau)
    } else {
        rest
    };
    if angle.lt(eps) || tau.minus(angle).lt(eps) {
        return RotationCost { synthesis: RotationSynthesis::Identity, t_count: 0 };
    }
    if is_multiple(angle, Binary64 { bits: HALF_PI_BITS }) {
        return RotationCost { synthesis: RotationSynthesis::Clifford, t_count: 0 };
    }
    if is_multiple(angle, Binary64 { bits: QUARTER_PI_BITS }) {
        return RotationCost { synthesis: RotationSynthesis::ExactT, t_count: 1 };
    }
    let zero = Binary64 { bits: 0 };
    let safe = if zero.lt(epsilon) && epsilon.lt(Binary64 { bits: ONE_BITS }) {
        epsilon
    } else {
        Binary64 { bits: DEFAULT_ROTATION_EPSILON }
    };
    RotationCost { synthesis: RotationSynthesis::Approximate, t_count: cost(safe) }
}

/// A budget in the making, with the number of T layers on each qubit.
pub struct Tally {
    pub t_count: nat,
    pub cliffords: nat,
    pub measurements: nat,
    pub exact: nat,
    pub approximated: nat,
    pub layers: Seq<nat>,
}

/// Nothing on some qubits.
pub open spec fn blank(num_qubits: nat) -> Tally {
    Tally {
        t_count: 0,
        cliffords: 0,
        measurements: 0,
        exact: 0,
        approximated: 0,
        layers: Seq::new(num_qubits, |q: int| 0nat),
    }
}

impl Tally {
    /// Adds a rotation. An exact one that is not the identity has a Clifford
    /// part.
    pub open spec fn recorded(self, cost: RotationCost) -> Tally {
        let t = Tally { t_count: self.t_count + cost.t_count as nat, ..self };
        match cost.synthesis {
            RotationSynthesis::Identity => Tally { exact: t.exact + 1, ..t },
            RotationSynthesis::Clifford | RotationSynthesis::ExactT => Tally {
                cliffords: t.cliffords + 1,
                exact: t.exact + 1,
                ..t
            },
            RotationSynthesis::Approximate => Tally { approximated: t.approximated + 1, ..t },
        }
    }

    /// Adds a gate. A two-qubit rotation is a rotation between two `Cx`, and
    /// its T gates are a layer on both qubits; a condition costs nothing.
    pub open spec fn costed(self, g: NativeGate, epsilon: Binary64, c: CostOf) -> Tally
        decreases g,
    {
        match g {
            NativeGate::Rz(q, angle) | NativeGate::Ry(q, angle) => {
                let cost = rotation_cost(angle, epsilon, c);
                let t = self.recorded(cost);
                if cost.t_count > 0 {
                    Tally {
                        layers: t.layers.update(q as int, t.layers[q as int] + 1),
                        ..t
                    }
                } else {
                    t
                }
            },
            NativeGate::Rzz(a, b, angle) => {
                let cost = rotation_cost(angle, epsilon, c);
                let t = Tally { cliffords: self.cliffords + 2, ..self }.recorded(cost);
                if cost.t_count > 0 {
                    let x = t.layers[a as int];
                    let y = t.layers[b as int];
                    let layer = (if y > x {
                        y
                    } else {
                        x
                    }) + 1;
                    Tally { layers: t.layers.update(a as int, layer).update(b as int, layer), ..t }
                } else {
                    t
                }
            },
            NativeGate::Measure(_, _) => Tally { measurements: self.measurements + 1, ..self },
            NativeGate::If(_, inner) => self.costed(*inner, epsilon, c),
        }
    }
}

/// The tally of the first `n` gates.
pub open spec fn tally(
    gates: Seq<NativeGate>,
    num_qubits: nat,
    epsilon: Binary64,
    c: CostOf,
    n: nat,
) -> Tally
    decreases n,
{
    if n == 0 {
        blank(num_qubits)
    } else {
        tally(gates, num_qubits, epsilon, c, (n - 1) as nat).costed(gates[n - 1], epsilon, c)
    }
}

/// The largest of the first `n` numbers.
pub open spec fn largest(v: Seq<nat>, n: nat) -> nat
    decreases n,
{
    if n == 0 {
        0
    } else {
        let rest = largest(v, (n - 1) as nat);
        if v[n - 1] > rest {
            v[n - 1]
        } else {
            rest
        }
    }
}

/// Whether a budget is what a tally says.
pub open spec fn budget_of(b: ResourceBudget, t: Tally) -> bool {
    &&& b.t_count == t.t_count
    &&& b.t_depth == largest(t.layers, t.layers.len())
    &&& b.clifford_count == t.cliffords
    &&& b.measurement_count == t.measurements
    &&& b.exact_rotations == t.exact
    &&& b.approximated_rotations == t.approximated
}

/// The tally while it is computed.
struct Account {
    budget: ResourceBudget,
    layers: Vec<usize>,
}

impl View for Account {
    type V = Tally;

    closed spec fn view(&self) -> Tally {
        Tally {
            t_count: self.budget.t_count as nat,
            cliffords: self.budget.clifford_count as nat,
            measurements: self.budget.measurement_count as nat,
            exact: self.budget.exact_rotations as nat,
            approximated: self.budget.approximated_rotations as nat,
            layers: self.layers@.map_values(|n: usize| n as nat),
        }
    }
}

impl Account {
    /// How much `n` gates can have added besides T gates.
    spec fn within(&self, n: nat) -> bool {
        &&& self.budget.clifford_count <= 3 * n
        &&& self.budget.measurement_count <= n
        &&& self.budget.exact_rotations <= n
        &&& self.budget.approximated_rotations <= n
        &&& forall|q: int| 0 <= q < self.layers.len() ==> #[trigger] self.layers@[q] <= n
    }

    fn record_rotation(&mut self, cost: RotationCost)
        requires
            old(self).budget.t_count + cost.t_count <= usize::MAX,
            old(self).budget.clifford_count < usize::MAX,
            old(self).budget.exact_rotations < usize::MAX,
            old(self).budget.approximated_rotations < usize::MAX,
        ensures
            final(self)@ == old(self)@.recorded(cost),
            final(self).layers@ == old(self).layers@,
            final(self).budget.clifford_count <= old(self).budget.clifford_count + 1,
            final(self).budget.exact_rotations <= old(self).budget.exact_rotations + 1,
            final(self).budget.approximated_rotations <= old(self).budget.approximated_rotations + 1,
            final(self).budget.measurement_count == old(self).budget.measurement_count,
    {
        self.budget.t_count = self.budget.t_count + cost.t_count;
        match cost.synthesis {
            RotationSynthesis::Identity => {
                self.budget.exact_rotations = self.budget.exact_rotations + 1;
            },
            RotationSynthesis::Clifford | RotationSynthesis::ExactT => {
                self.budget.clifford_count = self.budget.clifford_count + 1;
                self.budget.exact_rotations = self.budget.exact_rotations + 1;
            },
            RotationSynthesis::Approximate => {
                self.budget.approximated_rotations = self.budget.approximated_rotations + 1;
            },
        }
    }

    fn cost_native_gate<C: Fn(Binary64) -> usize>(
        &mut self,
        g: &NativeGate,
        epsilon: Binary64,
        cost: &C,
        Ghost(n): Ghost<nat>,
        Ghost(known): Ghost<CostOf>,
    )
        requires
            always_prices(*cost),
            prices(*cost, known),
            old(self).within(n),
            old(self)@.costed(*g, epsilon, known).t_count <= usize::MAX,
            3 * (n + 1) <= usize::MAX,
            forall|i: int|
                0 <= i < g.wires().len() ==> #[trigger] g.wires()[i] < old(self).layers.len(),
        ensures
            final(self).within(n + 1),
            final(self).layers.len() == old(self).layers.len(),
            forall|c: CostOf| #[trigger]
                prices(*cost, c) ==> final(self)@ == old(self)@.costed(*g, epsilon, c),
        decreases g,
    {
        let ghost before = self@;
        match g {
            NativeGate::Rz(q, angle) | NativeGate::Ry(q, angle) => {
                assert(g.wires()[0] == q);
                let x = rotation_t_cost(*angle, epsilon, cost);
                assert(x == rotation_cost(*angle, epsilon, known));
                self.record_rotation(x);
                if x.t_count > 0 {
                    let ghost was = self@;
                    let layer: usize = self.layers[*q] + 1;
                    self.layers.set(*q, layer);
                    assert(self@.layers =~= was.layers.update(*q as int, layer as nat));
                }
            },
            NativeGate::Rzz(a, b, angle) => {
                assert(g.wires()[0] == a && g.wires()[1] == b);
                self.budget.clifford_count = self.budget.clifford_count + 2;
                assert(self@ == (Tally { cliffords: before.cliffords + 2, ..before }));
                let x = rotation_t_cost(*angle, epsilon, cost);
                assert(x == rotation_cost(*angle, epsilon, known));
                self.record_rotation(x);
                if x.t_count > 0 {
                    let ghost was = self@;
                    let first: usize = self.layers[*a];
                    let second: usize = self.layers[*b];
                    let layer: usize = (if second > first {
                        second
                    } else {
                        first
                    }) + 1;
                    self.layers.set(*a, layer);
                    self.layers.set(*b, layer);
                    assert(self@.layers =~= was.layers.update(*a as int, layer as nat).update(
                        *b as int,
                        layer as nat,
                    ));
                }
            },
            NativeGate::Measure(_, _) => {
                self.budget.measurement_count = self.budget.measurement_count + 1;
            },
            NativeGate::If(_, inner) => {
                assert(inner.wires() == g.wires());
                assert forall|i: int| 0 <= i < inner.wires().len() implies (
                #[trigger] inner.wires()[i]) < self.layers.len() by {
                    assert(g.wires()[i] < self.layers.len());
                }
                self.cost_native_gate(inner, epsilon, cost, Ghost(n), Ghost(known));
            },
        }
    }
}

/// Another gate takes no T gate away.
proof fn lemma_costed_grows(t: Tally, g: NativeGate, epsilon: Binary64, c: CostOf)
    ensures
        t.t_count <= t.costed(g, epsilon, c).t_count,
    decreases g,
{
    if let NativeGate::If(_, inner) = g {
        lemma_costed_grows(t, *inner, epsilon, c);
    }
}

/// More gates take no fewer T gates.
pub proof fn lemma_tally_grows(
    gates: Seq<NativeGate>,
    num_qubits: nat,
    epsilon: Binary64,
    c: CostOf,
    n: nat,
    m: nat,
)
    requires
        n <= m,
    ensures
        tally(gates, num_qubits, epsilon, c, n).t_count <= tally(
            gates,
            num_qubits,
            epsilon,
            c,
            m,
        ).t_count,
    decreases m - n,
{
    if n < m {
        lemma_tally_grows(gates, num_qubits, epsilon, c, n, (m - 1) as nat);
        lemma_costed_grows(
            tally(gates, num_qubits, epsilon, c, (m - 1) as nat),
            gates[m - 1],
            epsilon,
            c,
        );
    }
}

proof fn lemma_costed_bounded(t: Tally, g: NativeGate, epsilon: Binary64, c: CostOf, most: nat)
    requires
        most >= 1,
        c(precision(epsilon)) <= most,
    ensures
        t.costed(g, epsilon, c).t_count <= t.t_count + most,
    decreases g,
{
    if let NativeGate::If(_, inner) = g {
        lemma_costed_bounded(t, *inner, epsilon, c, most);
    }
}

/// A gate takes no more T gates than one rotation that is approximated, or
/// one.
pub proof fn lemma_tally_bounded(
    gates: Seq<NativeGate>,
    num_qubits: nat,
    epsilon: Binary64,
    c: CostOf,
    n: nat,
    most: nat,
)
    requires
        most >= 1,
        c(precision(epsilon)) <= most,
    ensures
        tally(gates, num_qubits, epsilon, c, n).t_count <= n * most,
    decreases n,
{
    if n == 0 {
        assert(0 * most == 0);
    } else {
        let k = (n - 1) as nat;
        lemma_tally_bounded(gates, num_qubits, epsilon, c, k, most);
        lemma_costed_bounded(
            tally(gates, num_qubits, epsilon, c, k),
            gates[n - 1],
            epsilon,
            c,
            most,
        );
        assert(k * most + most == n * most) by (nonlinear_arith)
            requires
                n == k + 1,
        ;
    }
}

/// Whether every gate of a native circuit is on its qubits.
pub open spec fn in_range(gates: Seq<NativeGate>, num_qubits: usize) -> bool {
    forall|i: int, k: int|
        0 <= i < gates.len() && 0 <= k < gates[i].wires().len() ==> #[trigger] gates[i].wires()[k]
            < num_qubits
}

/// What a native circuit costs, as it stands.
pub fn cost_circuit<C: Fn(Binary64) -> usize>(
    circuit: &NativeCircuit,
    epsilon: Binary64,
    cost: &C,
) -> (r: ResourceBudget)
    requires
        always_prices(*cost),
        in_range(circuit.gates@, circuit.num_qubits),
        3 * circuit.gates.len() <= usize::MAX,
        exists|c: CostOf| #[trigger]
            prices(*cost, c) && tally(
                circuit.gates@,
                circuit.num_qubits as nat,
                epsilon,
                c,
                circuit.gates@.len(),
            ).t_count <= usize::MAX,
    ensures
        forall|c: CostOf| #[trigger]
            prices(*cost, c) ==> budget_of(
                r,
                tally(
                    circuit.gates@,
                    circuit.num_qubits as nat,
                    epsilon,
                    c,
                    circuit.gates@.len(),
                ),
            ),
        r.measurement_count <= circuit.gates.len(),
{
    let mut layers: Vec<usize> = Vec::new();
    while layers.len() < circuit.num_qubits
        invariant
            layers.len() <= circuit.num_qubits,
            forall|q: int| 0 <= q < layers.len() ==> layers@[q] == 0,
        decreases circuit.num_qubits - layers.len(),
    {
        layers.push(0);
    }
    let mut account = Account { budget: ResourceBudget::default(), layers };
    assert(account@.layers =~= blank(circuit.num_qubits as nat).layers);
    let ghost all_gates = circuit.gates@;
    let ghost size = circuit.num_qubits as nat;
    let ghost known = choose|c: CostOf| #[trigger]
        prices(*cost, c) && tally(all_gates, size, epsilon, c, all_gates.len()).t_count <= usize::MAX;
    let mut i: usize = 0;
    while i < circuit.gates.len()
        invariant
            always_prices(*cost),
            all_gates == circuit.gates@,
            size == circuit.num_qubits,
            in_range(all_gates, circuit.num_qubits),
            3 * all_gates.len() <= usize::MAX,
            prices(*cost, known),
            tally(all_gates, size, epsilon, known, all_gates.len()).t_count <= usize::MAX,
            i <= circuit.gates.len(),
            account.layers.len() == size,
            account.within(i as nat),
            forall|c: CostOf| #[trigger]
                prices(*cost, c) ==> account@ == tally(all_gates, size, epsilon, c, i as nat),
        decreases circuit.gates.len() - i,
    {
        proof {
            lemma_tally_grows(all_gates, size, epsilon, known, (i + 1) as nat, all_gates.len());
        }
        assert forall|k: int| 0 <= k < all_gates[i as int].wires().len() implies (
        #[trigger] all_gates[i as int].wires()[k]) < size by {}
        let ghost before = account@;
        account.cost_native_gate(
            &circuit.gates[i],
            epsilon,
            cost,
            Ghost(i as nat),
            Ghost(known),
        );
        i = i + 1;
        assert forall|c: CostOf| #[trigger] prices(*cost, c) implies account@ == tally(
            all_gates,
            size,
            epsilon,
            c,
            i as nat,
        ) by {
            assert(before == tally(all_gates, size, epsilon, c, (i - 1) as nat));
        }
    }
    let ghost done = account@;
    let mut depth: usize = 0;
    let mut q: usize = 0;
    while q < account.layers.len()
        invariant
            done == account@,
            q <= account.layers.len(),
            depth == largest(done.layers, q as nat),
        decreases account.layers.len() - q,
    {
        assert(done.layers[q as int] == account.layers@[q as int]);
        if account.layers[q] > depth {
            depth = account.layers[q];
        }
        q = q + 1;
    }
    let mut budget = account.budget;
    budget.t_depth = depth;
    budget
}

/// The layout that holds the qubits of a circuit.
pub open spec fn on_qubits(num_qubits: usize) -> Layout {
    Layout { wire: |q: usize| q < num_qubits, pair: |a: usize, b: usize| true }
}

/// What a circuit costs at a precision. `euler` gives the Euler angles of a
/// series of single-qubit operations, `cost` the number of T gates of a
/// rotation that is approximated to a precision.
pub fn estimate_circuit_resources_with_epsilon<
    F: Fn(&Vec<Turn>) -> Euler,
    C: Fn(Binary64) -> usize,
>(circuit: &Circuit, epsilon: Binary64, euler: &F, cost: &C) -> (r: ResourceBudget)
    requires
        total(*euler),
        always_prices(*cost),
        all(on_qubits(circuit.num_qubits).fits_gate(), circuit.gates@),
        81 * circuit.gates.len() <= usize::MAX,
        exists|e: EulerOf, c: CostOf| #[trigger]
            synthesizes(*euler, e) && #[trigger] prices(*cost, c) && circuit_tally(
                *circuit,
                epsilon,
                e,
                c,
            ).t_count <= usize::MAX,
    ensures
        forall|e: EulerOf, c: CostOf| #[trigger]
            synthesizes(*euler, e) && #[trigger] prices(*cost, c) ==> budget_of(
                r,
                circuit_tally(*circuit, epsilon, e, c),
            ),
{
    let native = optimize(&decompose(circuit, euler));
    proof {
        let (e, c) = choose|e: EulerOf, c: CostOf| #[trigger]
            synthesizes(*euler, e) && #[trigger] prices(*cost, c) && circuit_tally(
                *circuit,
                epsilon,
                e,
                c,
            ).t_count <= usize::MAX;
        let l = on_qubits(circuit.num_qubits);
        let plain = all_native_gates(circuit.gates@, circuit.gates@.len(), e);
        lemma_decomposed_fits(l, circuit.gates@, circuit.gates@.len(), e);
        lemma_optimized(plain);
        lemma_optimized_fits(l, plain);
        let gates = native.gates@;
        assert(gates == optimized(plain));
        assert(prices(*cost, c));
        assert forall|i: int, k: int|
            0 <= i < gates.len() && 0 <= k < gates[i].wires().len() implies (
        #[trigger] gates[i].wires()[k]) < circuit.num_qubits by {
            assert((l.fits_native())(gates[i]));
            assert((l.wire)(gates[i].wires()[k]));
        }
    }
    cost_circuit(&native, epsilon, cost)
}

/// The tally of the optimized native gates of a circuit.
pub open spec fn circuit_tally(circuit: Circuit, epsilon: Binary64, e: EulerOf, c: CostOf) -> Tally {
    let gates = optimized(all_native_gates(circuit.gates@, circuit.gates@.len(), e));
    tally(gates, circuit.num_qubits as nat, epsilon, c, gates.len())
}

/// What a circuit costs at the default precision.
pub fn estimate_circuit_resources<F: Fn(&Vec<Turn>) -> Euler, C: Fn(Binary64) -> usize>(
    circuit: &Circuit,
    euler: &F,
    cost: &C,
) -> (r: ResourceBudget)
    requires
        total(*euler),
        always_prices(*cost),
        all(on_qubits(circuit.num_qubits).fits_gate(), circuit.gates@),
        81 * circuit.gates.len() <= usize::MAX,
        exists|e: EulerOf, c: CostOf| #[trigger]
            synthesizes(*euler, e) && #[trigger] prices(*cost, c) && circuit_tally(
                *circuit,
                Binary64 { bits: DEFAULT_ROTATION_EPSILON },
                e,
                c,
            ).t_count <= usize::MAX,
    ensures
        forall|e: EulerOf, c: CostOf| #[trigger]
            synthesizes(*euler, e) && #[trigger] prices(*cost, c) ==> budget_of(
                r,
                circuit_tally(*circuit, Binary64 { bits: DEFAULT_ROTATION_EPSILON }, e, c),
            ),
{
    estimate_circuit_resources_with_epsilon(
        circuit,
        Binary64 { bits: DEFAULT_ROTATION_EPSILON },
        euler,
        cost,
    )
}

/// A finer precision does not cost less.
pub open spec fn falling(c: CostOf) -> bool {
    forall|x: Binary64, y: Binary64|
        proper(x) && proper(y) && !below(y, x) ==> #[trigger] c(x) >= #[trigger] c(y)
}

/// A precision between zero and one.
pub open spec fn proper(x: Binary64) -> bool {
    below(Binary64 { bits: 0 }, x) && below(x, Binary64 { bits: ONE_BITS })
}

/// A rotation is made in the same way at every precision. One that is made
/// exactly costs the same at each, and where a finer precision does not cost
/// less, no rotation costs less at a finer precision.
pub proof fn lemma_precision(theta: Binary64, fine: Binary64, coarse: Binary64, c: CostOf)
    requires
        proper(fine),
        proper(coarse),
        !below(coarse, fine),
    ensures
        rotation_cost(theta, fine, c).synthesis == rotation_cost(theta, coarse, c).synthesis,
        !(synthesis(theta) is Approximate) ==> rotation_cost(theta, fine, c) == rotation_cost(
            theta,
            coarse,
            c,
        ) && rotation_cost(theta, fine, c).t_count <= 1,
        falling(c) ==> rotation_cost(theta, fine, c).t_count >= rotation_cost(
            theta,
            coarse,
            c,
        ).t_count,
{
    assert(falling(c) ==> c(fine) >= c(coarse));
}

proof fn lemma_gate_precision(
    s: Tally,
    t: Tally,
    g: NativeGate,
    fine: Binary64,
    coarse: Binary64,
    c: CostOf,
)
    requires
        proper(fine),
        proper(coarse),
        !below(coarse, fine),
        falling(c),
        s.t_count >= t.t_count,
    ensures
        s.costed(g, fine, c).t_count >= t.costed(g, coarse, c).t_count,
    decreases g,
{
    match g {
        NativeGate::Rz(_, a) | NativeGate::Ry(_, a) | NativeGate::Rzz(_, _, a) => {
            lemma_precision(a, fine, coarse, c);
        },
        NativeGate::Measure(_, _) => {},
        NativeGate::If(_, inner) => lemma_gate_precision(s, t, *inner, fine, coarse, c),
    }
}

/// No circuit takes fewer T gates at a finer precision, where no rotation
/// does.
pub proof fn lemma_circuit_precision(
    gates: Seq<NativeGate>,
    num_qubits: nat,
    fine: Binary64,
    coarse: Binary64,
    c: CostOf,
    n: nat,
)
    requires
        proper(fine),
        proper(coarse),
        !below(coarse, fine),
        falling(c),
    ensures
        tally(gates, num_qubits, fine, c, n).t_count >= tally(
            gates,
            num_qubits,
            coarse,
            c,
            n,
        ).t_count,
    decreases n,
{
    if n > 0 {
        let k = (n - 1) as nat;
        lemma_circuit_precision(gates, num_qubits, fine, coarse, c, k);
        lemma_gate_precision(
            tally(gates, num_qubits, fine, c, k),
            tally(gates, num_qubits, coarse, c, k),
            gates[n - 1],
            fine,
            coarse,
            c,
        );
    }
}

/// A conditioned gate costs what it costs without the condition.
pub proof fn lemma_condition_is_free(
    t: Tally,
    conditions: Conditions,
    g: NativeGate,
    epsilon: Binary64,
    c: CostOf,
)
    ensures
        t.costed(NativeGate::If(conditions, Box::new(g)), epsilon, c) == t.costed(g, epsilon, c),
{
}

/// A measurement takes no T gate and no layer.
pub proof fn lemma_measurement_takes_no_t(
    t: Tally,
    q: usize,
    bit: usize,
    epsilon: Binary64,
    c: CostOf,
)
    ensures
        t.costed(NativeGate::Measure(q, bit), epsilon, c) == (Tally {
            measurements: t.measurements + 1,
            ..t
        }),
{
}

/// A two-qubit rotation takes as many T gates as a rotation of one qubit by
/// the same angle.
pub proof fn lemma_two_qubit_rotation(
    t: Tally,
    a: usize,
    b: usize,
    theta: Binary64,
    epsilon: Binary64,
    c: CostOf,
)
    ensures
        t.costed(NativeGate::Rzz(a, b, theta), epsilon, c).t_count == t.costed(
            NativeGate::Rz(b, theta),
            epsilon,
            c,
        ).t_count,
{
}

} // verus!
