//! Draws circuits of all three levels as text or as an SVG document.
//!
//! Every gate has one of five shapes. A conditioned gate is drawn as if it
//! were not.
use crate::backend::{BackendCircuit, BackendGate, BackendSpec, RotAxis};
use crate::binary64::Binary64;
use crate::display::fixed;
use crate::ir::{Circuit, Gate};
use crate::native::{NativeCircuit, NativeGate};
use crate::text::{decimal, push_decimal};
use crate::backend::lowering_law::meaning;
use crate::native_law::source_of;
use vstd::prelude::*;

pub mod ascii;
pub mod columns;
pub mod svg;

verus! {

/// One instruction of a diagram.
#[derive(Debug, PartialEq)]
pub enum DiagramInstr {
    /// A box on one wire.
    Single { qubit: usize, label: String },
    /// Control dots and a target: a box, or a dot where there is no label.
    Controlled { controls: Vec<usize>, target: usize, target_label: Option<String> },
    /// A box over two wires.
    Span { qubits: (usize, usize), label: String },
    /// Two crosses joined by a line.
    Swap { a: usize, b: usize },
    /// A measurement into a classical bit.
    Measure { qubit: usize, clbit: usize },
}

/// What an instruction draws.
pub enum Shape {
    Single { qubit: usize, label: Seq<char> },
    Controlled { controls: Seq<usize>, target: usize, target_label: Option<Seq<char>> },
    Span { qubits: (usize, usize), label: Seq<char> },
    Swap { a: usize, b: usize },
    Measure { qubit: usize, clbit: usize },
}

impl View for DiagramInstr {
    type V = Shape;

    open spec fn view(&self) -> Shape {
        match self {
            DiagramInstr::Single { qubit, label } => Shape::Single { qubit: *qubit, label: label@ },
            DiagramInstr::Controlled { controls, target, target_label } => Shape::Controlled {
                controls: controls@,
                target: *target,
                target_label: match target_label {
                    Some(l) => Some(l@),
                    None => None,
                },
            },
            DiagramInstr::Span { qubits, label } => Shape::Span { qubits: *qubits, label: label@ },
            DiagramInstr::Swap { a, b } => Shape::Swap { a: *a, b: *b },
            DiagramInstr::Measure { qubit, clbit } => Shape::Measure { qubit: *qubit, clbit: *clbit },
        }
    }
}

pub open spec fn least(a: usize, b: usize) -> usize {
    if b < a {
        b
    } else {
        a
    }
}

pub open spec fn most(a: usize, b: usize) -> usize {
    if b > a {
        b
    } else {
        a
    }
}

/// The lowest of a wire and the first `k` of a list.
pub open spec fn lowest(w: usize, v: Seq<usize>, k: nat) -> usize
    decreases k,
{
    if k == 0 {
        w
    } else {
        least(lowest(w, v, (k - 1) as nat), v[k - 1])
    }
}

/// The highest of a wire and the first `k` of a list.
pub open spec fn highest(w: usize, v: Seq<usize>, k: nat) -> usize
    decreases k,
{
    if k == 0 {
        w
    } else {
        most(highest(w, v, (k - 1) as nat), v[k - 1])
    }
}

impl Shape {
    /// The first and last wire between which the instruction draws.
    pub open spec fn range(self) -> (usize, usize) {
        match self {
            Shape::Single { qubit, .. } | Shape::Measure { qubit, .. } => (qubit, qubit),
            Shape::Controlled { controls, target, .. } => (
                lowest(target, controls, controls.len()),
                highest(target, controls, controls.len()),
            ),
            Shape::Span { qubits, .. } => (least(qubits.0, qubits.1), most(qubits.0, qubits.1)),
            Shape::Swap { a, b } => (least(a, b), most(a, b)),
        }
    }

    pub open spec fn covers(self, row: usize) -> bool {
        self.range().0 <= row <= self.range().1
    }
}

/// What the instructions of a list draw.
pub open spec fn shapes(v: Seq<DiagramInstr>) -> Seq<Shape> {
    v.map_values(|i: DiagramInstr| i@)
}

impl DiagramInstr {
    /// The first and last wire between which the instruction draws.
    pub fn wire_range(&self) -> (r: (usize, usize))
        ensures
            r == self@.range(),
    {
        match self {
            DiagramInstr::Single { qubit, .. } => (*qubit, *qubit),
            DiagramInstr::Measure { qubit, .. } => (*qubit, *qubit),
            DiagramInstr::Controlled { controls, target, .. } => {
                let mut lo: usize = *target;
                let mut hi: usize = *target;
                let mut i: usize = 0;
                while i < controls.len()
                    invariant
                        i <= controls.len(),
                        lo == lowest(*target, controls@, i as nat),
                        hi == highest(*target, controls@, i as nat),
                    decreases controls.len() - i,
                {
                    let c: usize = controls[i];
                    if c < lo {
                        lo = c;
                    }
                    if c > hi {
                        hi = c;
                    }
                    i = i + 1;
                }
                (lo, hi)
            },
            DiagramInstr::Span { qubits, .. } => ordered(qubits.0, qubits.1),
            DiagramInstr::Swap { a, b } => ordered(*a, *b),
        }
    }
}

fn copy_label(s: &String) -> (r: String)
    ensures
        r@ == s@,
{
    String::from_str(s.as_str())
}

impl Clone for DiagramInstr {
    fn clone(&self) -> (r: Self)
        ensures
            r@ == self@,
    {
        match self {
            DiagramInstr::Single { qubit, label } => DiagramInstr::Single {
                qubit: *qubit,
                label: copy_label(label),
            },
            DiagramInstr::Controlled { controls, target, target_label } => {
                let mut dots: Vec<usize> = Vec::new();
                while dots.len() < controls.len()
                    invariant
                        dots.len() <= controls.len(),
                        dots@ == controls@.take(dots.len() as int),
                    decreases controls.len() - dots.len(),
                {
                    dots.push(controls[dots.len()]);
                    assert(dots@ =~= controls@.take(dots.len() as int));
                }
                assert(dots@ =~= controls@);
                DiagramInstr::Controlled {
                    controls: dots,
                    target: *target,
                    target_label: match target_label {
                        Some(l) => Some(copy_label(l)),
                        None => None,
                    },
                }
            },
            DiagramInstr::Span { qubits, label } => DiagramInstr::Span {
                qubits: (qubits.0, qubits.1),
                label: copy_label(label),
            },
            DiagramInstr::Swap { a, b } => DiagramInstr::Swap { a: *a, b: *b },
            DiagramInstr::Measure { qubit, clbit } => DiagramInstr::Measure {
                qubit: *qubit,
                clbit: *clbit,
            },
        }
    }
}

fn ordered(a: usize, b: usize) -> (r: (usize, usize))
    ensures
        r == (least(a, b), most(a, b)),
{
    if b < a {
        (b, a)
    } else {
        (a, b)
    }
}

/// A circuit ready to be drawn.
#[derive(Debug)]
pub struct Diagram {
    pub num_qubits: usize,
    pub num_clbits: usize,
    pub instrs: Vec<DiagramInstr>,
    /// The name of each wire.
    pub wire_labels: Vec<String>,
}

impl Clone for Diagram {
    fn clone(&self) -> (r: Self)
        ensures
            r.num_qubits == self.num_qubits,
            r.num_clbits == self.num_clbits,
            shapes(r.instrs@) == shapes(self.instrs@),
            r.wire_labels.len() == self.wire_labels.len(),
            forall|i: int|
                0 <= i < r.wire_labels.len() ==> (#[trigger] r.wire_labels@[i])@
                    == self.wire_labels@[i]@,
    {
        let mut instrs: Vec<DiagramInstr> = Vec::new();
        while instrs.len() < self.instrs.len()
            invariant
                instrs.len() <= self.instrs.len(),
                forall|i: int| 0 <= i < instrs.len() ==> (#[trigger] instrs@[i])@ == self.instrs@[i]@,
            decreases self.instrs.len() - instrs.len(),
        {
            let instr = self.instrs[instrs.len()].clone();
            instrs.push(instr);
        }
        assert(shapes(instrs@) =~= shapes(self.instrs@));
        let mut wire_labels: Vec<String> = Vec::new();
        while wire_labels.len() < self.wire_labels.len()
            invariant
                wire_labels.len() <= self.wire_labels.len(),
                forall|i: int|
                    0 <= i < wire_labels.len() ==> (#[trigger] wire_labels@[i])@
                        == self.wire_labels@[i]@,
            decreases self.wire_labels.len() - wire_labels.len(),
        {
            let label = copy_label(&self.wire_labels[wire_labels.len()]);
            wire_labels.push(label);
        }
        Diagram { num_qubits: self.num_qubits, num_clbits: self.num_clbits, instrs, wire_labels }
    }
}

/// Whether the wires of a diagram are named by their numbers.
pub open spec fn numbered(labels: Seq<String>, n: usize) -> bool {
    &&& labels.len() == n
    &&& forall|q: int| 0 <= q < n ==> (#[trigger] labels[q])@ == "q"@ + decimal(q as nat)
}

fn default_wire_labels(num_qubits: usize) -> (r: Vec<String>)
    ensures
        numbered(r@, num_qubits),
{
    let mut out: Vec<String> = Vec::new();
    while out.len() < num_qubits
        invariant
            out.len() <= num_qubits,
            forall|q: int| 0 <= q < out.len() ==> (#[trigger] out@[q])@ == "q"@ + decimal(q as nat),
        decreases num_qubits - out.len(),
    {
        let mut s = String::from_str("q");
        push_decimal(&mut s, out.len() as u128);
        out.push(s);
    }
    out
}

/// A name with an angle to two places.
pub open spec fn with_angle(name: Seq<char>, angle: Binary64) -> Seq<char> {
    name + "("@ + fixed(angle) + ")"@
}

fn fmt_angle(label: &str, angle: Binary64) -> (r: String)
    ensures
        r@ == with_angle(label@, angle),
{
    let mut s = String::from_str(label);
    s.append("(");
    angle.push_fixed(&mut s);
    s.append(")");
    s
}

fn single(qubit: usize, label: &str) -> (r: DiagramInstr)
    ensures
        r@ == (Shape::Single { qubit, label: label@ }),
{
    DiagramInstr::Single { qubit, label: String::from_str(label) }
}

fn turn(qubit: usize, label: &str, angle: Binary64) -> (r: DiagramInstr)
    ensures
        r@ == (Shape::Single { qubit, label: with_angle(label@, angle) }),
{
    DiagramInstr::Single { qubit, label: fmt_angle(label, angle) }
}

fn span(a: usize, b: usize, label: &str, angle: Binary64) -> (r: DiagramInstr)
    ensures
        r@ == (Shape::Span { qubits: (a, b), label: with_angle(label@, angle) }),
{
    DiagramInstr::Span { qubits: (a, b), label: fmt_angle(label, angle) }
}

/// A gate with one control.
pub open spec fn one_control(control: usize, target: usize, target_label: Option<Seq<char>>) -> Shape {
    Shape::Controlled { controls: seq![control], target, target_label }
}

fn controlled(control: usize, target: usize, target_label: Option<String>) -> (r: DiagramInstr)
    ensures
        r@ == one_control(
            control,
            target,
            match target_label {
                Some(l) => Some(l@),
                None => None,
            },
        ),
{
    let mut controls: Vec<usize> = Vec::new();
    controls.push(control);
    assert(controls@ =~= seq![control]);
    DiagramInstr::Controlled { controls, target, target_label }
}

/// What a gate draws.
pub open spec fn gate_shape(g: Gate) -> Shape
    decreases g,
{
    match g {
        Gate::H(q) => Shape::Single { qubit: q, label: "H"@ },
        Gate::X(q) => Shape::Single { qubit: q, label: "X"@ },
        Gate::Y(q) => Shape::Single { qubit: q, label: "Y"@ },
        Gate::Z(q) => Shape::Single { qubit: q, label: "Z"@ },
        Gate::S(q) => Shape::Single { qubit: q, label: "S"@ },
        Gate::Sdg(q) => Shape::Single { qubit: q, label: "SDG"@ },
        Gate::T(q) => Shape::Single { qubit: q, label: "T"@ },
        Gate::Tdg(q) => Shape::Single { qubit: q, label: "TDG"@ },
        Gate::Rx(q, a) => Shape::Single { qubit: q, label: with_angle("RX"@, a) },
        Gate::Ry(q, a) => Shape::Single { qubit: q, label: with_angle("RY"@, a) },
        Gate::Rz(q, a) => Shape::Single { qubit: q, label: with_angle("RZ"@, a) },
        Gate::Cx(c, t) => one_control(c, t, Some("X"@)),
        Gate::Cz(a, b) => one_control(a, b, None),
        Gate::Swap(a, b) => Shape::Swap { a, b },
        Gate::Rxx(a, b, t) => Shape::Span { qubits: (a, b), label: with_angle("RXX"@, t) },
        Gate::Ryy(a, b, t) => Shape::Span { qubits: (a, b), label: with_angle("RYY"@, t) },
        Gate::Rzz(a, b, t) => Shape::Span { qubits: (a, b), label: with_angle("RZZ"@, t) },
        Gate::Cp(c, t, l) => one_control(c, t, Some(with_angle("P"@, l))),
        Gate::Measure(q, c) => Shape::Measure { qubit: q, clbit: c },
        Gate::If(_, inner) => gate_shape(*inner),
    }
}

fn gate_instr(g: &Gate) -> (r: DiagramInstr)
    ensures
        r@ == gate_shape(*g),
    decreases g,
{
    match g {
        Gate::H(q) => single(*q, "H"),
        Gate::X(q) => single(*q, "X"),
        Gate::Y(q) => single(*q, "Y"),
        Gate::Z(q) => single(*q, "Z"),
        Gate::S(q) => single(*q, "S"),
        Gate::Sdg(q) => single(*q, "SDG"),
        Gate::T(q) => single(*q, "T"),
        Gate::Tdg(q) => single(*q, "TDG"),
        Gate::Rx(q, a) => turn(*q, "RX", *a),
        Gate::Ry(q, a) => turn(*q, "RY", *a),
        Gate::Rz(q, a) => turn(*q, "RZ", *a),
        Gate::Cx(c, t) => controlled(*c, *t, Some(String::from_str("X"))),
        Gate::Cz(a, b) => controlled(*a, *b, None),
        Gate::Swap(a, b) => DiagramInstr::Swap { a: *a, b: *b },
        Gate::Rxx(a, b, t) => span(*a, *b, "RXX", *t),
        Gate::Ryy(a, b, t) => span(*a, *b, "RYY", *t),
        Gate::Rzz(a, b, t) => span(*a, *b, "RZZ", *t),
        Gate::Cp(c, t, l) => controlled(*c, *t, Some(fmt_angle("P", *l))),
        Gate::Measure(q, c) => DiagramInstr::Measure { qubit: *q, clbit: *c },
        Gate::If(_, inner) => gate_instr(inner),
    }
}

/// What a native gate draws.
pub open spec fn native_shape(g: NativeGate) -> Shape
    decreases g,
{
    match g {
        NativeGate::Rz(q, a) => Shape::Single { qubit: q, label: with_angle("RZ"@, a) },
        NativeGate::Ry(q, a) => Shape::Single { qubit: q, label: with_angle("RY"@, a) },
        NativeGate::Rzz(a, b, t) => Shape::Span { qubits: (a, b), label: with_angle("RZZ"@, t) },
        NativeGate::Measure(q, c) => Shape::Measure { qubit: q, clbit: c },
        NativeGate::If(_, inner) => native_shape(*inner),
    }
}

fn native_instr(g: &NativeGate) -> (r: DiagramInstr)
    ensures
        r@ == native_shape(*g),
    decreases g,
{
    match g {
        NativeGate::Rz(q, a) => turn(*q, "RZ", *a),
        NativeGate::Ry(q, a) => turn(*q, "RY", *a),
        NativeGate::Rzz(a, b, t) => span(*a, *b, "RZZ", *t),
        NativeGate::Measure(q, c) => DiagramInstr::Measure { qubit: *q, clbit: *c },
        NativeGate::If(_, inner) => native_instr(inner),
    }
}

/// The name of a rotation axis.
pub open spec fn axis_name(axis: RotAxis) -> Seq<char> {
    match axis {
        RotAxis::Ry => "RY"@,
        RotAxis::Rx => "RX"@,
    }
}

/// What a backend's gate draws, where rotations turn about `axis`.
pub open spec fn backend_shape(g: BackendGate, axis: RotAxis) -> Shape
    decreases g,
{
    match g {
        BackendGate::Rz(q, a) => Shape::Single { qubit: q, label: with_angle("RZ"@, a) },
        BackendGate::Rot(q, a) => Shape::Single { qubit: q, label: with_angle(axis_name(axis), a) },
        BackendGate::Cx(a, b) => one_control(a, b, Some("X"@)),
        BackendGate::Cz(a, b) => one_control(a, b, None),
        BackendGate::Rzz(a, b, t) => Shape::Span { qubits: (a, b), label: with_angle("RZZ"@, t) },
        BackendGate::Measure(q, c) => Shape::Measure { qubit: q, clbit: c },
        BackendGate::If(_, inner) => backend_shape(*inner, axis),
    }
}

fn backend_instr(g: &BackendGate, axis: RotAxis) -> (r: DiagramInstr)
    ensures
        r@ == backend_shape(*g, axis),
    decreases g,
{
    match g {
        BackendGate::Rz(q, a) => turn(*q, "RZ", *a),
        BackendGate::Rot(q, a) => match axis {
            RotAxis::Ry => turn(*q, "RY", *a),
            RotAxis::Rx => turn(*q, "RX", *a),
        },
        BackendGate::Cx(a, b) => controlled(*a, *b, Some(String::from_str("X"))),
        BackendGate::Cz(a, b) => controlled(*a, *b, None),
        BackendGate::Rzz(a, b, t) => span(*a, *b, "RZZ", *t),
        BackendGate::Measure(q, c) => DiagramInstr::Measure { qubit: *q, clbit: *c },
        BackendGate::If(_, inner) => backend_instr(inner, axis),
    }
}

impl Diagram {
    /// The diagram of a circuit: one instruction for each gate.
    pub fn from_circuit(circuit: &Circuit) -> (r: Self)
        ensures
            r.num_qubits == circuit.num_qubits,
            r.num_clbits == circuit.num_clbits,
            numbered(r.wire_labels@, circuit.num_qubits),
            r.instrs.len() == circuit.gates.len(),
            forall|i: int|
                0 <= i < r.instrs.len() ==> (#[trigger] r.instrs@[i])@ == gate_shape(
                    circuit.gates@[i],
                ),
    {
        let mut instrs: Vec<DiagramInstr> = Vec::new();
        while instrs.len() < circuit.gates.len()
            invariant
                instrs.len() <= circuit.gates.len(),
                forall|i: int|
                    0 <= i < instrs.len() ==> (#[trigger] instrs@[i])@ == gate_shape(
                        circuit.gates@[i],
                    ),
            decreases circuit.gates.len() - instrs.len(),
        {
            let instr = gate_instr(&circuit.gates[instrs.len()]);
            instrs.push(instr);
        }
        Diagram {
            num_qubits: circuit.num_qubits,
            num_clbits: circuit.num_clbits,
            instrs,
            wire_labels: default_wire_labels(circuit.num_qubits),
        }
    }

    /// The diagram of a circuit of native gates.
    pub fn from_native(circuit: &NativeCircuit) -> (r: Self)
        ensures
            r.num_qubits == circuit.num_qubits,
            r.num_clbits == circuit.num_clbits,
            numbered(r.wire_labels@, circuit.num_qubits),
            r.instrs.len() == circuit.gates.len(),
            forall|i: int|
                0 <= i < r.instrs.len() ==> (#[trigger] r.instrs@[i])@ == native_shape(
                    circuit.gates@[i],
                ),
    {
        let mut instrs: Vec<DiagramInstr> = Vec::new();
        while instrs.len() < circuit.gates.len()
            invariant
                instrs.len() <= circuit.gates.len(),
                forall|i: int|
                    0 <= i < instrs.len() ==> (#[trigger] instrs@[i])@ == native_shape(
                        circuit.gates@[i],
                    ),
            decreases circuit.gates.len() - instrs.len(),
        {
            let instr = native_instr(&circuit.gates[instrs.len()]);
            instrs.push(instr);
        }
        Diagram {
            num_qubits: circuit.num_qubits,
            num_clbits: circuit.num_clbits,
            instrs,
            wire_labels: default_wire_labels(circuit.num_qubits),
        }
    }

    /// The diagram of a backend's circuit. Rotations carry the name of the
    /// backend's axis.
    pub fn from_backend(circuit: &BackendCircuit) -> (r: Self)
        ensures
            r.num_qubits == circuit.num_qubits,
            r.num_clbits == circuit.num_clbits,
            numbered(r.wire_labels@, circuit.num_qubits),
            r.instrs.len() == circuit.gates.len(),
            forall|i: int|
                0 <= i < r.instrs.len() ==> (#[trigger] r.instrs@[i])@ == backend_shape(
                    circuit.gates@[i],
                    circuit.backend.axis(),
                ),
    {
        let axis = circuit.backend.rot_axis();
        let mut instrs: Vec<DiagramInstr> = Vec::new();
        while instrs.len() < circuit.gates.len()
            invariant
                axis == circuit.backend.axis(),
                instrs.len() <= circuit.gates.len(),
                forall|i: int|
                    0 <= i < instrs.len() ==> (#[trigger] instrs@[i])@ == backend_shape(
                        circuit.gates@[i],
                        axis,
                    ),
            decreases circuit.gates.len() - instrs.len(),
        {
            let instr = backend_instr(&circuit.gates[instrs.len()], axis);
            instrs.push(instr);
        }
        Diagram {
            num_qubits: circuit.num_qubits,
            num_clbits: circuit.num_clbits,
            instrs,
            wire_labels: default_wire_labels(circuit.num_qubits),
        }
    }

    /// Draws the diagram as text: a line for each wire.
    pub fn to_ascii(&self) -> (r: String)
        requires
            self.num_qubits > 0 ==> ascii::drawable(*self),
        ensures
            r@ == ascii::lines(*self, self.num_qubits as nat),
    {
        ascii::render(self)
    }

    /// Draws the diagram as an SVG document.
    pub fn to_svg(&self) -> (r: String)
        requires
            self.num_qubits <= self.wire_labels.len(),
            svg::on_wires(self.instrs@, svg::row_count(*self)),
        ensures
            r@ == svg::document(*self),
    {
        svg::render(self)
    }
}

impl Shape {
    /// The wires that carry a mark, in their order: controls before the
    /// target.
    pub open spec fn marks(self) -> Seq<usize> {
        match self {
            Shape::Single { qubit, .. } | Shape::Measure { qubit, .. } => seq![qubit],
            Shape::Controlled { controls, target, .. } => controls.push(target),
            Shape::Span { qubits, .. } => seq![qubits.0, qubits.1],
            Shape::Swap { a, b } => seq![a, b],
        }
    }
}

/// A gate is drawn on its own qubits, in their order.
pub proof fn lemma_drawn_on_qubits(g: Gate)
    ensures
        gate_shape(g).marks() == g.wires(),
    decreases g,
{
    if let Gate::If(_, inner) = g {
        lemma_drawn_on_qubits(*inner);
    }
    assert(gate_shape(g).marks() =~= g.wires());
}

/// A native gate is drawn as the source gate that it is.
pub proof fn lemma_native_drawn_alike(g: NativeGate)
    ensures
        native_shape(g) == gate_shape(source_of(g)),
    decreases g,
{
    if let NativeGate::If(_, inner) = g {
        lemma_native_drawn_alike(*inner);
    }
}

/// A backend's gate is drawn as the source gate that it is.
pub proof fn lemma_backend_drawn_alike(g: BackendGate, axis: RotAxis)
    ensures
        backend_shape(g, axis) == gate_shape(meaning(axis, g)),
    decreases g,
{
    if let BackendGate::If(_, inner) = g {
        lemma_backend_drawn_alike(*inner, axis);
    }
}

/// No two kinds of gates without an angle look the same.
pub proof fn lemma_names_tell_gates(g: Gate, h: Gate)
    requires
        gate_shape(g) == gate_shape(h),
        g is H || g is X || g is Y || g is Z || g is S || g is Sdg || g is T || g is Tdg || g is Cx
            || g is Cz || g is Swap || g is Measure,
        h is H || h is X || h is Y || h is Z || h is S || h is Sdg || h is T || h is Tdg || h is Cx
            || h is Cz || h is Swap || h is Measure,
    ensures
        g == h,
{
    reveal_strlit("H");
    reveal_strlit("X");
    reveal_strlit("Y");
    reveal_strlit("Z");
    reveal_strlit("S");
    reveal_strlit("SDG");
    reveal_strlit("T");
    reveal_strlit("TDG");
    assert("H"@[0] == 'H' && "X"@[0] == 'X' && "Y"@[0] == 'Y' && "Z"@[0] == 'Z' && "S"@[0] == 'S'
        && "SDG"@[0] == 'S' && "T"@[0] == 'T' && "TDG"@[0] == 'T');
    assert("S"@.len() == 1 && "T"@.len() == 1 && "SDG"@.len() == 3 && "TDG"@.len() == 3);
    lemma_drawn_on_qubits(g);
    lemma_drawn_on_qubits(h);
    assert(g.wires() == h.wires());
    let s = gate_shape(g);
    let t = gate_shape(h);
    assert(s is Single ==> s->Single_label == t->Single_label);
    assert(s is Controlled ==> s->target_label == t->target_label && s->controls[0]
        == t->controls[0] && s->target == t->target);
    assert(g.wires()[0] == h.wires()[0]);
    if g.wires().len() == 2 {
        assert(g.wires()[1] == h.wires()[1]);
    }
}

} // verus!
