//! Source circuits and the gates that programs are written in.
use crate::binary64::Binary64;
use crate::display::{debugged, shown};
use crate::text::{chars_of, decimal, push_decimal, spelled};
use vstd::prelude::*;
use vstd::std_specs::convert::FromSpecImpl;

verus! {

/// A qubit as the input program numbers it.
#[derive(Debug, Clone, Copy, PartialEq, Eq, Hash, PartialOrd, Ord, Structural)]
pub struct LogicalQubit(pub usize);

/// A qubit as the hardware numbers it.
#[derive(Debug, Clone, Copy, PartialEq, Eq, Hash, PartialOrd, Ord, Structural)]
pub struct PhysicalQubit(pub usize);

impl From<usize> for LogicalQubit {
    fn from(q: usize) -> (r: Self) {
        LogicalQubit(q)
    }
}

impl FromSpecImpl<usize> for LogicalQubit {
    open spec fn obeys_from_spec() -> bool {
        true
    }

    open spec fn from_spec(q: usize) -> Self {
        LogicalQubit(q)
    }
}

impl From<usize> for PhysicalQubit {
    fn from(q: usize) -> (r: Self) {
        PhysicalQubit(q)
    }
}

impl FromSpecImpl<usize> for PhysicalQubit {
    open spec fn obeys_from_spec() -> bool {
        true
    }

    open spec fn from_spec(q: usize) -> Self {
        PhysicalQubit(q)
    }
}

impl LogicalQubit {
    /// The name of the qubit: `q` and its number.
    pub fn to_text(&self) -> (r: String)
        ensures
            r@ == "q"@ + decimal(self.0 as nat),
    {
        let mut s = String::from_str("q");
        push_decimal(&mut s, self.0 as u128);
        s
    }
}

impl PhysicalQubit {
    /// The name of the qubit: `p` and its number.
    pub fn to_text(&self) -> (r: String)
        ensures
            r@ == "p"@ + decimal(self.0 as nat),
    {
        let mut s = String::from_str("p");
        push_decimal(&mut s, self.0 as u128);
        s
    }
}

/// What classical bits must hold for a gate to act: all of the listed ones
/// the listed values.
#[derive(Debug, PartialEq)]
pub enum Conditions {
    Always,
    When(usize, bool, Box<Conditions>),
}

impl Conditions {
    /// The listed bits and values, in order.
    pub open spec fn list(self) -> Seq<(usize, bool)>
        decreases self,
    {
        match self {
            Conditions::Always => Seq::empty(),
            Conditions::When(c, v, rest) => seq![(c, v)] + rest.list(),
        }
    }

    /// The condition that one classical bit has one value.
    pub fn bit(c: usize, v: bool) -> (r: Conditions)
        ensures
            r == Conditions::When(c, v, Box::new(Conditions::Always)),
            r.list() == seq![(c, v)],
    {
        let r = Conditions::When(c, v, Box::new(Conditions::Always));
        proof {
            reveal_with_fuel(Conditions::list, 2);
            assert(r.list() =~= seq![(c, v)]);
        }
        r
    }

    /// The conditions that two classical bits have given values.
    pub fn bits(c: usize, v: bool, d: usize, w: bool) -> (r: Conditions)
        ensures
            r == Conditions::When(
                c,
                v,
                Box::new(Conditions::When(d, w, Box::new(Conditions::Always))),
            ),
            r.list() == seq![(c, v), (d, w)],
    {
        let last = Conditions::bit(d, w);
        let r = Conditions::When(c, v, Box::new(last));
        assert(r.list() =~= seq![(c, v), (d, w)]);
        r
    }

    pub fn copy(&self) -> (r: Conditions)
        ensures
            r == *self,
        decreases self,
    {
        match self {
            Conditions::Always => Conditions::Always,
            Conditions::When(c, v, rest) => Conditions::When(*c, *v, Box::new(rest.copy())),
        }
    }

    /// The first listed bit that is not below `n`.
    pub open spec fn first_from(self, n: usize) -> Option<usize>
        decreases self,
    {
        match self {
            Conditions::Always => None,
            Conditions::When(c, v, rest) => if c >= n {
                Some(c)
            } else {
                rest.first_from(n)
            },
        }
    }

    fn find_from(&self, n: usize) -> (r: Option<usize>)
        ensures
            r == self.first_from(n),
        decreases self,
    {
        match self {
            Conditions::Always => None,
            Conditions::When(c, _v, rest) => if *c >= n {
                Some(*c)
            } else {
                rest.find_from(n)
            },
        }
    }

    /// The pairs of the list, separated by commas.
    pub open spec fn pairs_text(self) -> Seq<char>
        decreases self,
    {
        match self {
            Conditions::Always => Seq::empty(),
            Conditions::When(c, v, rest) => "("@ + decimal(c as nat) + ", "@ + bool_text(v) + ")"@ + (
            match *rest {
                Conditions::Always => Seq::empty(),
                _ => ", "@ + rest.pairs_text(),
            }),
        }
    }

    fn push_pairs(&self, s: &mut String)
        ensures
            final(s)@ == old(s)@ + self.pairs_text(),
        decreases self,
    {
        let ghost start = s@;
        match self {
            Conditions::Always => {
                assert(s@ =~= start + self.pairs_text());
            },
            Conditions::When(c, v, rest) => {
                s.append("(");
                push_decimal(s, *c as u128);
                s.append(", ");
                push_bool(s, *v);
                s.append(")");
                match &**rest {
                    Conditions::Always => {},
                    _ => {
                        s.append(", ");
                        rest.push_pairs(s);
                    },
                }
                assert(s@ =~= start + self.pairs_text());
            },
        }
    }
}

impl Clone for Conditions {
    fn clone(&self) -> (r: Self)
        ensures
            r == *self,
    {
        self.copy()
    }
}

impl Clone for Gate {
    fn clone(&self) -> (r: Self)
        ensures
            r == *self,
    {
        self.copy()
    }
}

pub open spec fn bool_text(b: bool) -> Seq<char> {
    if b {
        "true"@
    } else {
        "false"@
    }
}

fn push_bool(s: &mut String, b: bool)
    ensures
        final(s)@ == old(s)@ + bool_text(b),
{
    if b {
        s.append("true");
    } else {
        s.append("false");
    }
}

/// A gate of the source circuit. Angles are in radians.
#[derive(Debug, PartialEq)]
pub enum Gate {
    H(usize),
    X(usize),
    Y(usize),
    Z(usize),
    S(usize),
    Sdg(usize),
    T(usize),
    Tdg(usize),
    Rx(usize, Binary64),
    Ry(usize, Binary64),
    Rz(usize, Binary64),
    Cx(usize, usize),
    Cz(usize, usize),
    Swap(usize, usize),
    Rxx(usize, usize, Binary64),
    Ryy(usize, usize, Binary64),
    Rzz(usize, usize, Binary64),
    /// Controlled phase.
    Cp(usize, usize, Binary64),
    /// Measures a qubit into a classical bit.
    Measure(usize, usize),
    /// A gate that acts only where classical bits have given values.
    If(Conditions, Box<Gate>),
}

impl Gate {
    /// The qubits that a gate touches, in the order of its arguments.
    pub open spec fn wires(self) -> Seq<usize>
        decreases self,
    {
        match self {
            Gate::H(q) | Gate::X(q) | Gate::Y(q) | Gate::Z(q) | Gate::S(q) | Gate::Sdg(q) | Gate::T(q)
            | Gate::Tdg(q) | Gate::Rx(q, _) | Gate::Ry(q, _) | Gate::Rz(q, _) | Gate::Measure(
                q,
                _,
            ) => seq![q],
            Gate::Cx(a, b) | Gate::Cz(a, b) | Gate::Swap(a, b) | Gate::Rxx(a, b, _) | Gate::Ryy(
                a,
                b,
                _,
            ) | Gate::Rzz(a, b, _) | Gate::Cp(a, b, _) => seq![a, b],
            Gate::If(_, inner) => inner.wires(),
        }
    }

    /// The angle of a gate that has one.
    pub open spec fn angle(self) -> Option<Binary64>
        decreases self,
    {
        match self {
            Gate::Rx(_, a) | Gate::Ry(_, a) | Gate::Rz(_, a) | Gate::Rxx(_, _, a) | Gate::Ryy(_, _, a)
            | Gate::Rzz(_, _, a) | Gate::Cp(_, _, a) => Some(a),
            Gate::If(_, inner) => inner.angle(),
            _ => None,
        }
    }

    pub fn qubits(&self) -> (r: Vec<usize>)
        ensures
            r@ == self.wires(),
            1 <= r.len() <= 2,
        decreases self,
    {
        let mut out: Vec<usize> = Vec::new();
        match self {
            Gate::H(q) | Gate::X(q) | Gate::Y(q) | Gate::Z(q) | Gate::S(q) | Gate::Sdg(q) | Gate::T(q)
            | Gate::Tdg(q) | Gate::Rx(q, _) | Gate::Ry(q, _) | Gate::Rz(q, _) | Gate::Measure(
                q,
                _,
            ) => {
                out.push(*q);
            },
            Gate::Cx(a, b) | Gate::Cz(a, b) | Gate::Swap(a, b) | Gate::Rxx(a, b, _) | Gate::Ryy(
                a,
                b,
                _,
            ) | Gate::Rzz(a, b, _) | Gate::Cp(a, b, _) => {
                out.push(*a);
                out.push(*b);
            },
            Gate::If(_, inner) => {
                out = inner.qubits();
            },
        }
        assert(out@ =~= self.wires());
        out
    }

    fn parameter(&self) -> (r: Option<Binary64>)
        ensures
            r == self.angle(),
        decreases self,
    {
        match self {
            Gate::Rx(_, a) | Gate::Ry(_, a) | Gate::Rz(_, a) | Gate::Rxx(_, _, a) | Gate::Ryy(_, _, a)
            | Gate::Rzz(_, _, a) | Gate::Cp(_, _, a) => Some(*a),
            Gate::If(_, inner) => inner.parameter(),
            _ => None,
        }
    }

    pub fn copy(&self) -> (r: Gate)
        ensures
            r == *self,
        decreases self,
    {
        match self {
            Gate::H(q) => Gate::H(*q),
            Gate::X(q) => Gate::X(*q),
            Gate::Y(q) => Gate::Y(*q),
            Gate::Z(q) => Gate::Z(*q),
            Gate::S(q) => Gate::S(*q),
            Gate::Sdg(q) => Gate::Sdg(*q),
            Gate::T(q) => Gate::T(*q),
            Gate::Tdg(q) => Gate::Tdg(*q),
            Gate::Rx(q, a) => Gate::Rx(*q, *a),
            Gate::Ry(q, a) => Gate::Ry(*q, *a),
            Gate::Rz(q, a) => Gate::Rz(*q, *a),
            Gate::Cx(a, b) => Gate::Cx(*a, *b),
            Gate::Cz(a, b) => Gate::Cz(*a, *b),
            Gate::Swap(a, b) => Gate::Swap(*a, *b),
            Gate::Rxx(a, b, t) => Gate::Rxx(*a, *b, *t),
            Gate::Ryy(a, b, t) => Gate::Ryy(*a, *b, *t),
            Gate::Rzz(a, b, t) => Gate::Rzz(*a, *b, *t),
            Gate::Cp(a, b, t) => Gate::Cp(*a, *b, *t),
            Gate::Measure(q, c) => Gate::Measure(*q, *c),
            Gate::If(c, inner) => Gate::If(c.copy(), Box::new(inner.copy())),
        }
    }

    /// A gate written out: its name and its arguments.
    pub open spec fn text(self) -> Seq<char>
        decreases self,
    {
        match self {
            Gate::H(q) => one_text("H"@, q),
            Gate::X(q) => one_text("X"@, q),
            Gate::Y(q) => one_text("Y"@, q),
            Gate::Z(q) => one_text("Z"@, q),
            Gate::S(q) => one_text("S"@, q),
            Gate::Sdg(q) => one_text("Sdg"@, q),
            Gate::T(q) => one_text("T"@, q),
            Gate::Tdg(q) => one_text("Tdg"@, q),
            Gate::Rx(q, t) => one_angle_text("Rx"@, q, t),
            Gate::Ry(q, t) => one_angle_text("Ry"@, q, t),
            Gate::Rz(q, t) => one_angle_text("Rz"@, q, t),
            Gate::Cx(a, b) => two_text("Cx"@, a, b),
            Gate::Cz(a, b) => two_text("Cz"@, a, b),
            Gate::Swap(a, b) => two_text("Swap"@, a, b),
            Gate::Rxx(a, b, t) => two_angle_text("Rxx"@, a, b, t),
            Gate::Ryy(a, b, t) => two_angle_text("Ryy"@, a, b, t),
            Gate::Rzz(a, b, t) => two_angle_text("Rzz"@, a, b, t),
            Gate::Cp(a, b, t) => two_angle_text("Cp"@, a, b, t),
            Gate::Measure(q, c) => two_text("Measure"@, q, c),
            Gate::If(c, inner) => "If(["@ + c.pairs_text() + "], "@ + inner.text() + ")"@,
        }
    }

    fn push_text(&self, s: &mut String)
        ensures
            final(s)@ == old(s)@ + self.text(),
        decreases self,
    {
        match self {
            Gate::H(q) => push_one(s, "H", *q),
            Gate::X(q) => push_one(s, "X", *q),
            Gate::Y(q) => push_one(s, "Y", *q),
            Gate::Z(q) => push_one(s, "Z", *q),
            Gate::S(q) => push_one(s, "S", *q),
            Gate::Sdg(q) => push_one(s, "Sdg", *q),
            Gate::T(q) => push_one(s, "T", *q),
            Gate::Tdg(q) => push_one(s, "Tdg", *q),
            Gate::Rx(q, t) => push_one_angle(s, "Rx", *q, *t),
            Gate::Ry(q, t) => push_one_angle(s, "Ry", *q, *t),
            Gate::Rz(q, t) => push_one_angle(s, "Rz", *q, *t),
            Gate::Cx(a, b) => push_two(s, "Cx", *a, *b),
            Gate::Cz(a, b) => push_two(s, "Cz", *a, *b),
            Gate::Swap(a, b) => push_two(s, "Swap", *a, *b),
            Gate::Rxx(a, b, t) => push_two_angle(s, "Rxx", *a, *b, *t),
            Gate::Ryy(a, b, t) => push_two_angle(s, "Ryy", *a, *b, *t),
            Gate::Rzz(a, b, t) => push_two_angle(s, "Rzz", *a, *b, *t),
            Gate::Cp(a, b, t) => push_two_angle(s, "Cp", *a, *b, *t),
            Gate::Measure(q, c) => push_two(s, "Measure", *q, *c),
            Gate::If(c, inner) => {
                let ghost start = s@;
                s.append("If([");
                c.push_pairs(s);
                s.append("], ");
                inner.push_text(s);
                s.append(")");
                assert(s@ =~= start + self.text());
            },
        }
    }
}

pub open spec fn one_text(name: Seq<char>, q: usize) -> Seq<char> {
    name + "("@ + decimal(q as nat) + ")"@
}

pub open spec fn one_angle_text(name: Seq<char>, q: usize, t: Binary64) -> Seq<char> {
    name + "("@ + decimal(q as nat) + ", "@ + debugged(t) + ")"@
}

pub open spec fn two_text(name: Seq<char>, a: usize, b: usize) -> Seq<char> {
    name + "("@ + decimal(a as nat) + ", "@ + decimal(b as nat) + ")"@
}

pub open spec fn two_angle_text(name: Seq<char>, a: usize, b: usize, t: Binary64) -> Seq<char> {
    name + "("@ + decimal(a as nat) + ", "@ + decimal(b as nat) + ", "@ + debugged(t) + ")"@
}

fn push_one(s: &mut String, name: &str, q: usize)
    ensures
        final(s)@ == old(s)@ + one_text(name@, q),
{
    let ghost start = s@;
    s.append(name);
    s.append("(");
    push_decimal(s, q as u128);
    s.append(")");
    assert(s@ =~= start + one_text(name@, q));
}

fn push_one_angle(s: &mut String, name: &str, q: usize, t: Binary64)
    ensures
        final(s)@ == old(s)@ + one_angle_text(name@, q, t),
{
    let ghost start = s@;
    s.append(name);
    s.append("(");
    push_decimal(s, q as u128);
    s.append(", ");
    t.push_debug(s);
    s.append(")");
    assert(s@ =~= start + one_angle_text(name@, q, t));
}

fn push_two(s: &mut String, name: &str, a: usize, b: usize)
    ensures
        final(s)@ == old(s)@ + two_text(name@, a, b),
{
    let ghost start = s@;
    s.append(name);
    s.append("(");
    push_decimal(s, a as u128);
    s.append(", ");
    push_decimal(s, b as u128);
    s.append(")");
    assert(s@ =~= start + two_text(name@, a, b));
}

fn push_two_angle(s: &mut String, name: &str, a: usize, b: usize, t: Binary64)
    ensures
        final(s)@ == old(s)@ + two_angle_text(name@, a, b, t),
{
    let ghost start = s@;
    s.append(name);
    s.append("(");
    push_decimal(s, a as u128);
    s.append(", ");
    push_decimal(s, b as u128);
    s.append(", ");
    t.push_debug(s);
    s.append(")");
    assert(s@ =~= start + two_angle_text(name@, a, b, t));
}

/// A source circuit: its registers and its gates in order.
#[derive(Debug)]
pub struct Circuit {
    pub num_qubits: usize,
    pub num_clbits: usize,
    pub gates: Vec<Gate>,
}

/// A copy of a list of gates.
pub fn copy_gates(gates: &Vec<Gate>) -> (r: Vec<Gate>)
    ensures
        r@ == gates@,
{
    let mut out: Vec<Gate> = Vec::new();
    let mut i: usize = 0;
    while i < gates.len()
        invariant
            0 <= i <= gates.len(),
            out@ == gates@.take(i as int),
        decreases gates.len() - i,
    {
        out.push(gates[i].copy());
        i = i + 1;
    }
    assert(out@ =~= gates@);
    out
}

impl Clone for Circuit {
    fn clone(&self) -> (r: Self)
        ensures
            r.num_qubits == self.num_qubits,
            r.num_clbits == self.num_clbits,
            r.gates@ == self.gates@,
    {
        Circuit {
            num_qubits: self.num_qubits,
            num_clbits: self.num_clbits,
            gates: copy_gates(&self.gates),
        }
    }
}

impl Default for Circuit {
    fn default() -> (r: Self)
        ensures
            r.num_qubits == 0,
            r.num_clbits == 0,
            r.gates@ == Seq::<Gate>::empty(),
    {
        Circuit { num_qubits: 0, num_clbits: 0, gates: Vec::new() }
    }
}

/// The classical bit that a gate refers to although it is not below `n`.
pub open spec fn bad_clbit(g: Gate, n: usize) -> Option<usize> {
    match g {
        Gate::Measure(_, c) => if c >= n {
            Some(c)
        } else {
            None
        },
        Gate::If(conditions, _) => conditions.first_from(n),
        _ => None,
    }
}

/// Whether a gate puts a condition on a measurement or on another condition.
pub open spec fn bad_nesting(g: Gate) -> bool {
    g matches Gate::If(_, inner) && (*inner is Measure || *inner is If)
}

pub open spec fn fault_head(i: nat, g: Gate) -> Seq<char> {
    "gate "@ + decimal(i) + " ("@ + g.text() + "): "@
}

pub open spec fn qubit_fault(i: nat, g: Gate, q: usize, n: usize) -> Seq<char> {
    fault_head(i, g) + "qubit index "@ + decimal(q as nat) + " out of range for "@ + decimal(
        n as nat,
    ) + " qubit(s)"@
}

pub open spec fn clbit_fault(i: nat, g: Gate, c: usize, n: usize) -> Seq<char> {
    fault_head(i, g) + "classical bit index "@ + decimal(c as nat) + " out of range for "@ + decimal(
        n as nat,
    ) + " clbit(s)"@
}

pub open spec fn nesting_fault(i: nat, g: Gate) -> Seq<char> {
    fault_head(i, g) + "a condition cannot apply to a measurement or to another condition"@
}

pub open spec fn repeated_fault(i: nat, g: Gate, q: usize) -> Seq<char> {
    fault_head(i, g) + "a two-qubit gate's arguments must be distinct, both are "@ + decimal(q as nat)
}

pub open spec fn angle_fault(i: nat, g: Gate, a: Binary64) -> Seq<char> {
    fault_head(i, g) + "parameter "@ + shown(a) + " is not finite (NaN or infinite)"@
}

/// What is wrong with the `i`-th gate of a circuit, if anything: a qubit or a
/// classical bit outside its register, a condition on a measurement or on a
/// condition, a two-qubit gate on one qubit, an angle that is no number.
pub open spec fn gate_fault(i: nat, g: Gate, num_qubits: usize, num_clbits: usize) -> Option<Seq<char>> {
    let w = g.wires();
    if w[0] >= num_qubits {
        Some(qubit_fault(i, g, w[0], num_qubits))
    } else if w.len() > 1 && w[1] >= num_qubits {
        Some(qubit_fault(i, g, w[1], num_qubits))
    } else if bad_clbit(g, num_clbits) is Some {
        Some(clbit_fault(i, g, bad_clbit(g, num_clbits)->0, num_clbits))
    } else if bad_nesting(g) {
        Some(nesting_fault(i, g))
    } else if w.len() == 2 && w[0] == w[1] {
        Some(repeated_fault(i, g, w[0]))
    } else if g.angle() is Some && !g.angle()->0.finite() {
        Some(angle_fault(i, g, g.angle()->0))
    } else {
        None
    }
}

impl Circuit {
    /// The fault of the `i`-th gate.
    pub open spec fn fault(self, i: int) -> Option<Seq<char>> {
        gate_fault(i as nat, self.gates@[i], self.num_qubits, self.num_clbits)
    }

    /// Whether no gate has a fault.
    pub open spec fn valid(self) -> bool {
        forall|i: int| 0 <= i < self.gates.len() ==> #[trigger] self.fault(i) is None
    }

    pub fn new(num_qubits: usize) -> (r: Self)
        ensures
            r.num_qubits == num_qubits,
            r.num_clbits == 0,
            r.gates@ == Seq::<Gate>::empty(),
    {
        Circuit { num_qubits, num_clbits: 0, gates: Vec::new() }
    }

    /// Adds a gate at the end.
    pub fn push(&mut self, gate: Gate) -> (r: &mut Self)
        ensures
            r.num_qubits == old(self).num_qubits,
            r.num_clbits == old(self).num_clbits,
            r.gates@ == old(self).gates@.push(gate),
            *final(self) == *final(r),
    {
        self.gates.push(gate);
        self
    }

    /// Whether the circuit is well formed; if not, what is wrong with its
    /// first faulty gate.
    pub fn validate(&self) -> (r: Result<(), String>)
        ensures
            match r {
                Ok(_) => self.valid(),
                Err(text) => exists|i: int|
                    {
                        &&& 0 <= i < self.gates.len()
                        &&& #[trigger] self.fault(i) == Some(text@)
                        &&& forall|j: int| 0 <= j < i ==> #[trigger] self.fault(j) is None
                    },
            },
    {
        let mut i: usize = 0;
        while i < self.gates.len()
            invariant
                0 <= i <= self.gates.len(),
                forall|j: int| 0 <= j < i ==> #[trigger] self.fault(j) is None,
            decreases self.gates.len() - i,
        {
            match check_gate(i, &self.gates[i], self.num_qubits, self.num_clbits) {
                Some(text) => {
                    assert(self.fault(i as int) == Some(text@));
                    return Err(text);
                },
                None => {
                    assert(self.fault(i as int) is None);
                },
            }
            i = i + 1;
        }
        Ok(())
    }
}

fn head(i: usize, g: &Gate) -> (r: String)
    ensures
        r@ == fault_head(i as nat, *g),
{
    let mut s = String::from_str("gate ");
    push_decimal(&mut s, i as u128);
    s.append(" (");
    g.push_text(&mut s);
    s.append("): ");
    s
}

fn check_gate(i: usize, g: &Gate, num_qubits: usize, num_clbits: usize) -> (r: Option<String>)
    ensures
        match r {
            Some(text) => gate_fault(i as nat, *g, num_qubits, num_clbits) == Some(text@),
            None => gate_fault(i as nat, *g, num_qubits, num_clbits) is None,
        },
{
    let w = g.qubits();
    let mut k: usize = 0;
    while k < w.len()
        invariant
            w@ == g.wires(),
            1 <= w.len() <= 2,
            0 <= k <= w.len(),
            forall|m: int| 0 <= m < k ==> #[trigger] w@[m] < num_qubits,
        decreases w.len() - k,
    {
        if w[k] >= num_qubits {
            let mut s = head(i, g);
            s.append("qubit index ");
            push_decimal(&mut s, w[k] as u128);
            s.append(" out of range for ");
            push_decimal(&mut s, num_qubits as u128);
            s.append(" qubit(s)");
            assert(k == 1 ==> w@[0] < num_qubits);
            return Some(s);
        }
        k = k + 1;
    }
    assert(w@[0] < num_qubits);
    assert(w.len() > 1 ==> w@[1] < num_qubits);
    let bad = match g {
        Gate::Measure(_, c) => if *c >= num_clbits {
            Some(*c)
        } else {
            None
        },
        Gate::If(conditions, _) => conditions.find_from(num_clbits),
        _ => None,
    };
    if let Some(c) = bad {
        let mut s = head(i, g);
        s.append("classical bit index ");
        push_decimal(&mut s, c as u128);
        s.append(" out of range for ");
        push_decimal(&mut s, num_clbits as u128);
        s.append(" clbit(s)");
        return Some(s);
    }
    let nested = match g {
        Gate::If(_, inner) => match &**inner {
            Gate::Measure(_, _) => true,
            Gate::If(_, _) => true,
            _ => false,
        },
        _ => false,
    };
    if nested {
        let mut s = head(i, g);
        s.append("a condition cannot apply to a measurement or to another condition");
        return Some(s);
    }
    if w.len() == 2 && w[0] == w[1] {
        let mut s = head(i, g);
        s.append("a two-qubit gate's arguments must be distinct, both are ");
        push_decimal(&mut s, w[0] as u128);
        return Some(s);
    }
    if let Some(a) = g.parameter() {
        if !a.is_finite() {
            let mut s = head(i, g);
            s.append("parameter ");
            a.push_shown(&mut s);
            s.append(" is not finite (NaN or infinite)");
            return Some(s);
        }
    }
    None
}

impl Gate {
    /// The short name of a kind of gate.
    pub open spec fn mnemonic(self) -> Seq<char> {
        match self {
            Gate::Cp(_, _, _) => "cp"@,
            Gate::Cx(_, _) => "cx"@,
            Gate::Cz(_, _) => "cz"@,
            Gate::H(_) => "h"@,
            Gate::If(_, _) => "if"@,
            Gate::Measure(_, _) => "measure"@,
            Gate::Rx(_, _) => "rx"@,
            Gate::Rxx(_, _, _) => "rxx"@,
            Gate::Ry(_, _) => "ry"@,
            Gate::Ryy(_, _, _) => "ryy"@,
            Gate::Rz(_, _) => "rz"@,
            Gate::Rzz(_, _, _) => "rzz"@,
            Gate::S(_) => "s"@,
            Gate::Sdg(_) => "sdg"@,
            Gate::Swap(_, _) => "swap"@,
            Gate::T(_) => "t"@,
            Gate::Tdg(_) => "tdg"@,
            Gate::X(_) => "x"@,
            Gate::Y(_) => "y"@,
            Gate::Z(_) => "z"@,
        }
    }

    pub fn kind(&self) -> (r: &'static str)
        ensures
            r@ == self.mnemonic(),
    {
        match self {
            Gate::Cp(_, _, _) => "cp",
            Gate::Cx(_, _) => "cx",
            Gate::Cz(_, _) => "cz",
            Gate::H(_) => "h",
            Gate::If(_, _) => "if",
            Gate::Measure(_, _) => "measure",
            Gate::Rx(_, _) => "rx",
            Gate::Rxx(_, _, _) => "rxx",
            Gate::Ry(_, _) => "ry",
            Gate::Ryy(_, _, _) => "ryy",
            Gate::Rz(_, _) => "rz",
            Gate::Rzz(_, _, _) => "rzz",
            Gate::S(_) => "s",
            Gate::Sdg(_) => "sdg",
            Gate::Swap(_, _) => "swap",
            Gate::T(_) => "t",
            Gate::Tdg(_) => "tdg",
            Gate::X(_) => "x",
            Gate::Y(_) => "y",
            Gate::Z(_) => "z",
        }
    }
}

/// How many of the first `n` gates have a name.
pub open spec fn named_count(gates: Seq<Gate>, name: Seq<char>, n: nat) -> nat
    decreases n,
{
    if n == 0 {
        0
    } else {
        named_count(gates, name, (n - 1) as nat) + if gates[n - 1].mnemonic() == name {
            1nat
        } else {
            0
        }
    }
}

/// The names of all kinds of gates, in the order of the alphabet.
pub open spec fn mnemonics() -> Seq<Seq<char>> {
    seq![
        "cp"@,
        "cx"@,
        "cz"@,
        "h"@,
        "if"@,
        "measure"@,
        "rx"@,
        "rxx"@,
        "ry"@,
        "ryy"@,
        "rz"@,
        "rzz"@,
        "s"@,
        "sdg"@,
        "swap"@,
        "t"@,
        "tdg"@,
        "x"@,
        "y"@,
        "z"@,
    ]
}

/// The first `k` names that occur, each with how often it does.
pub open spec fn counts(gates: Seq<Gate>, k: nat) -> Seq<(Seq<char>, nat)>
    decreases k,
{
    if k == 0 {
        Seq::empty()
    } else {
        let name = mnemonics()[k - 1];
        let n = named_count(gates, name, gates.len());
        if n > 0 {
            counts(gates, (k - 1) as nat).push((name, n))
        } else {
            counts(gates, (k - 1) as nat)
        }
    }
}

/// Names and numbers as they stand for texts and natural numbers.
pub open spec fn entries(v: Seq<(&'static str, usize)>) -> Seq<(Seq<char>, nat)> {
    v.map_values(|e: (&'static str, usize)| (e.0@, e.1 as nat))
}

fn count_named(gates: &Vec<Gate>, name: &str) -> (r: usize)
    ensures
        r == named_count(gates@, name@, gates@.len()),
{
    let wanted = chars_of(name);
    let mut total: usize = 0;
    let mut i: usize = 0;
    while i < gates.len()
        invariant
            wanted@ == name@,
            total <= i <= gates.len(),
            total == named_count(gates@, name@, i as nat),
        decreases gates.len() - i,
    {
        if spelled(&wanted, gates[i].kind()) {
            total = total + 1;
        }
        i = i + 1;
    }
    total
}

impl Circuit {
    /// How often each kind of gate occurs, by its short name, in the order of
    /// the alphabet.
    pub fn gate_counts(&self) -> (r: Vec<(&'static str, usize)>)
        ensures
            entries(r@) == counts(self.gates@, mnemonics().len()),
    {
        let names: [&'static str; 20] = [
            "cp",
            "cx",
            "cz",
            "h",
            "if",
            "measure",
            "rx",
            "rxx",
            "ry",
            "ryy",
            "rz",
            "rzz",
            "s",
            "sdg",
            "swap",
            "t",
            "tdg",
            "x",
            "y",
            "z",
        ];
        let mut out: Vec<(&'static str, usize)> = Vec::new();
        assert(entries(out@) =~= counts(self.gates@, 0));
        let mut k: usize = 0;
        while k < 20
            invariant
                k <= 20,
                forall|j: int| 0 <= j < 20 ==> (#[trigger] names@[j])@ == mnemonics()[j],
                entries(out@) == counts(self.gates@, k as nat),
            decreases 20 - k,
        {
            let n: usize = count_named(&self.gates, names[k]);
            assert(names@[k as int]@ == mnemonics()[k as int]);
            if n > 0 {
                let ghost before = out@;
                out.push((names[k], n));
                assert(entries(out@) =~= entries(before).push((names@[k as int]@, n as nat)));
            }
            k = k + 1;
        }
        out
    }
}

} // verus!
