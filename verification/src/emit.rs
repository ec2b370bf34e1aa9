//! Writes native circuits as OPENQASM text, and says what a quantum register
//! has to do to run a circuit.
use crate::backend::{BackendCircuit, BackendGate, BackendSpec, RotAxis};
use crate::binary64::Binary64;
use crate::display::shown;
use crate::ir::{Conditions, Gate};
use crate::native::{NativeCircuit, NativeGate};
use crate::noise::PauliError;
use crate::text::{decimal, push_decimal};
use vstd::prelude::*;

verus! {

/// The spelling of the two versions of the language.
#[derive(Debug, Clone, Copy, PartialEq, Eq, Structural)]
pub enum Dialect {
    Two,
    Three,
}

pub open spec fn bit_value(v: bool) -> Seq<char> {
    if v {
        "1"@
    } else {
        "0"@
    }
}

/// What stands in front of a conditioned gate.
pub open spec fn guards(c: Conditions) -> Seq<char>
    decreases c,
{
    match c {
        Conditions::Always => Seq::empty(),
        Conditions::When(b, v, rest) => "if (c["@ + decimal(b as nat) + "]=="@ + bit_value(v) + ") "@
            + guards(*rest),
    }
}

/// A gate as a statement, without the semicolon.
pub open spec fn gate_text(g: NativeGate, dialect: Dialect) -> Seq<char>
    decreases g,
{
    match g {
        NativeGate::Rz(q, angle) => "rz("@ + shown(angle) + ") q["@ + decimal(q as nat) + "]"@,
        NativeGate::Ry(q, angle) => "ry("@ + shown(angle) + ") q["@ + decimal(q as nat) + "]"@,
        NativeGate::Rzz(a, b, angle) => "rzz("@ + shown(angle) + ") q["@ + decimal(a as nat)
            + "], q["@ + decimal(b as nat) + "]"@,
        NativeGate::Measure(q, c) => match dialect {
            Dialect::Two => "measure q["@ + decimal(q as nat) + "] -> c["@ + decimal(c as nat)
                + "]"@,
            Dialect::Three => "c["@ + decimal(c as nat) + "] = measure q["@ + decimal(q as nat)
                + "]"@,
        },
        NativeGate::If(c, inner) => guards(c) + gate_text(*inner, dialect),
    }
}

/// The first `n` gates, one to a line.
pub open spec fn gates_text(gates: Seq<NativeGate>, dialect: Dialect, n: nat) -> Seq<char>
    decreases n,
{
    if n == 0 {
        Seq::empty()
    } else {
        gates_text(gates, dialect, (n - 1) as nat) + gate_text(gates[n - 1], dialect) + ";\n"@
    }
}

/// The lines in front of the gates.
pub open spec fn preamble(num_qubits: usize, num_clbits: usize, name: Seq<char>, dialect: Dialect) -> Seq<
    char,
> {
    let n = decimal(num_qubits as nat);
    let m = decimal(num_clbits as nat);
    let comment = "// Circuit: "@ + name + " (native gate set: rz, ry, rzz, measure)\n"@;
    match dialect {
        Dialect::Two => "OPENQASM 2.0;\n"@ + "include \"qelib1.inc\";\n"@ + "qreg q["@ + n + "];\n"@
            + "creg c["@ + m + "];\n"@ + comment,
        Dialect::Three => "OPENQASM 3.0;\n"@ + "include \"stdgates.inc\";\n"@ + "qubit["@ + n
            + "] q;\n"@ + "bit["@ + m + "] c;\n"@ + comment,
    }
}

/// The text of a circuit.
pub open spec fn circuit_text(circuit: NativeCircuit, name: Seq<char>, dialect: Dialect) -> Seq<char> {
    preamble(circuit.num_qubits, circuit.num_clbits, name, dialect) + gates_text(
        circuit.gates@,
        dialect,
        circuit.gates@.len(),
    )
}

fn push_guards(out: &mut String, c: &Conditions)
    ensures
        final(out)@ == old(out)@ + guards(*c),
    decreases c,
{
    let ghost before = out@;
    match c {
        Conditions::Always => {},
        Conditions::When(b, v, rest) => {
            out.append("if (c[");
            push_decimal(out, *b as u128);
            out.append("]==");
            if *v {
                out.append("1");
            } else {
                out.append("0");
            }
            out.append(") ");
            push_guards(out, rest);
        },
    }
    assert(out@ =~= before + guards(*c));
}

fn push_gate(out: &mut String, g: &NativeGate, dialect: Dialect)
    ensures
        final(out)@ == old(out)@ + gate_text(*g, dialect),
    decreases g,
{
    let ghost before = out@;
    match g {
        NativeGate::Rz(q, angle) => {
            out.append("rz(");
            angle.push_shown(out);
            out.append(") q[");
            push_decimal(out, *q as u128);
            out.append("]");
        },
        NativeGate::Ry(q, angle) => {
            out.append("ry(");
            angle.push_shown(out);
            out.append(") q[");
            push_decimal(out, *q as u128);
            out.append("]");
        },
        NativeGate::Rzz(a, b, angle) => {
            out.append("rzz(");
            angle.push_shown(out);
            out.append(") q[");
            push_decimal(out, *a as u128);
            out.append("], q[");
            push_decimal(out, *b as u128);
            out.append("]");
        },
        NativeGate::Measure(q, c) => match dialect {
            Dialect::Two => {
                out.append("measure q[");
                push_decimal(out, *q as u128);
                out.append("] -> c[");
                push_decimal(out, *c as u128);
                out.append("]");
            },
            Dialect::Three => {
                out.append("c[");
                push_decimal(out, *c as u128);
                out.append("] = measure q[");
                push_decimal(out, *q as u128);
                out.append("]");
            },
        },
        NativeGate::If(c, inner) => {
            push_guards(out, c);
            push_gate(out, inner, dialect);
        },
    }
    assert(out@ =~= before + gate_text(*g, dialect));
}

fn push_gates(out: &mut String, gates: &Vec<NativeGate>, dialect: Dialect)
    ensures
        final(out)@ == old(out)@ + gates_text(gates@, dialect, gates@.len()),
{
    let ghost before = out@;
    let mut i: usize = 0;
    assert(before + gates_text(gates@, dialect, 0) =~= before);
    while i < gates.len()
        invariant
            i <= gates.len(),
            out@ == before + gates_text(gates@, dialect, i as nat),
        decreases gates.len() - i,
    {
        push_gate(out, &gates[i], dialect);
        out.append(";\n");
        i = i + 1;
        assert(out@ =~= before + gates_text(gates@, dialect, i as nat));
    }
}

/// The circuit in OPENQASM 2.0.
pub fn to_qasm(circuit: &NativeCircuit, circuit_name: &str) -> (r: String)
    ensures
        r@ == circuit_text(*circuit, circuit_name@, Dialect::Two),
{
    let mut out = String::from_str("OPENQASM 2.0;\n");
    out.append("include \"qelib1.inc\";\n");
    out.append("qreg q[");
    push_decimal(&mut out, circuit.num_qubits as u128);
    out.append("];\n");
    out.append("creg c[");
    push_decimal(&mut out, circuit.num_clbits as u128);
    out.append("];\n");
    out.append("// Circuit: ");
    out.append(circuit_name);
    out.append(" (native gate set: rz, ry, rzz, measure)\n");
    assert(out@ =~= preamble(
        circuit.num_qubits,
        circuit.num_clbits,
        circuit_name@,
        Dialect::Two,
    ));
    push_gates(&mut out, &circuit.gates, Dialect::Two);
    out
}

/// The circuit in OPENQASM 3.0.
pub fn to_qasm3(circuit: &NativeCircuit, circuit_name: &str) -> (r: String)
    ensures
        r@ == circuit_text(*circuit, circuit_name@, Dialect::Three),
{
    let mut out = String::from_str("OPENQASM 3.0;\n");
    out.append("include \"stdgates.inc\";\n");
    out.append("qubit[");
    push_decimal(&mut out, circuit.num_qubits as u128);
    out.append("] q;\n");
    out.append("bit[");
    push_decimal(&mut out, circuit.num_clbits as u128);
    out.append("] c;\n");
    out.append("// Circuit: ");
    out.append(circuit_name);
    out.append(" (native gate set: rz, ry, rzz, measure)\n");
    assert(out@ =~= preamble(
        circuit.num_qubits,
        circuit.num_clbits,
        circuit_name@,
        Dialect::Three,
    ));
    push_gates(&mut out, &circuit.gates, Dialect::Three);
    out
}

/// One operation of a quantum register.
#[derive(Debug, Clone, Copy, PartialEq, Eq, Structural)]
pub enum Operation {
    X(usize),
    Y(usize),
    Z(usize),
    Rx(usize, Binary64),
    Ry(usize, Binary64),
    Rz(usize, Binary64),
    Rzz(usize, usize, Binary64),
    Cnot(usize, usize),
    ControlledZ(usize, usize),
    /// Measures a qubit into a classical bit.
    Measure(usize, usize),
}

/// Whether classical bits have the listed values; an error text where one of
/// them is missing.
pub open spec fn holds(c: Conditions, clbits: Seq<u8>) -> Result<bool, Seq<char>>
    decreases c,
{
    match c {
        Conditions::Always => Ok(true),
        Conditions::When(b, v, rest) => if b >= clbits.len() {
            Err(missing_bit("If reads"@, b, clbits.len()))
        } else if (clbits[b as int] != 0) != v {
            Ok(false)
        } else {
            holds(*rest, clbits)
        },
    }
}

pub open spec fn missing_bit(who: Seq<char>, c: usize, n: nat) -> Seq<char> {
    who + " classical bit "@ + decimal(c as nat) + " but only "@ + decimal(n) + " were provided"@
}

fn missing_text(who: &str, c: usize, n: usize) -> (r: String)
    ensures
        r@ == missing_bit(who@, c, n as nat),
{
    let mut s = String::from_str(who);
    s.append(" classical bit ");
    push_decimal(&mut s, c as u128);
    s.append(" but only ");
    push_decimal(&mut s, n as u128);
    s.append(" were provided");
    s
}

fn do_hold(c: &Conditions, clbits: &Vec<u8>) -> (r: Result<bool, String>)
    ensures
        match r {
            Ok(b) => holds(*c, clbits@) == Ok::<bool, Seq<char>>(b),
            Err(text) => holds(*c, clbits@) == Err::<bool, Seq<char>>(text@),
        },
    decreases c,
{
    match c {
        Conditions::Always => Ok(true),
        Conditions::When(b, v, rest) => if *b >= clbits.len() {
            Err(missing_text("If reads", *b, clbits.len()))
        } else if (clbits[*b] != 0) != *v {
            Ok(false)
        } else {
            do_hold(rest, clbits)
        },
    }
}

/// What a register does for a native gate, given the classical bits so far:
/// nothing where a condition fails.
pub open spec fn native_step(g: NativeGate, clbits: Seq<u8>) -> Result<Option<Operation>, Seq<char>>
    decreases g,
{
    match g {
        NativeGate::Rz(q, a) => Ok(Some(Operation::Rz(q, a))),
        NativeGate::Ry(q, a) => Ok(Some(Operation::Ry(q, a))),
        NativeGate::Rzz(a, b, t) => Ok(Some(Operation::Rzz(a, b, t))),
        NativeGate::Measure(q, c) => Ok(Some(Operation::Measure(q, c))),
        NativeGate::If(c, inner) => match holds(c, clbits) {
            Err(e) => Err(e),
            Ok(false) => Ok(None),
            Ok(true) => native_step(*inner, clbits),
        },
    }
}

/// The operation of a native gate, given the classical bits so far.
pub fn native_operation(g: &NativeGate, clbits: &Vec<u8>) -> (r: Result<Option<Operation>, String>)
    ensures
        match r {
            Ok(op) => native_step(*g, clbits@) == Ok::<Option<Operation>, Seq<char>>(op),
            Err(text) => native_step(*g, clbits@) == Err::<Option<Operation>, Seq<char>>(text@),
        },
    decreases g,
{
    match g {
        NativeGate::Rz(q, a) => Ok(Some(Operation::Rz(*q, *a))),
        NativeGate::Ry(q, a) => Ok(Some(Operation::Ry(*q, *a))),
        NativeGate::Rzz(a, b, t) => Ok(Some(Operation::Rzz(*a, *b, *t))),
        NativeGate::Measure(q, c) => Ok(Some(Operation::Measure(*q, *c))),
        NativeGate::If(c, inner) => match do_hold(c, clbits) {
            Err(e) => Err(e),
            Ok(acts) => if acts {
                native_operation(inner, clbits)
            } else {
                Ok(None)
            },
        },
    }
}

/// What a register does for a backend's gate, where rotations turn about
/// `axis`.
pub open spec fn backend_step(g: BackendGate, axis: RotAxis, clbits: Seq<u8>) -> Result<
    Option<Operation>,
    Seq<char>,
>
    decreases g,
{
    match g {
        BackendGate::Rz(q, a) => Ok(Some(Operation::Rz(q, a))),
        BackendGate::Rot(q, a) => Ok(
            Some(
                match axis {
                    RotAxis::Ry => Operation::Ry(q, a),
                    RotAxis::Rx => Operation::Rx(q, a),
                },
            ),
        ),
        BackendGate::Cx(a, b) => Ok(Some(Operation::Cnot(a, b))),
        BackendGate::Cz(a, b) => Ok(Some(Operation::ControlledZ(a, b))),
        BackendGate::Rzz(a, b, t) => Ok(Some(Operation::Rzz(a, b, t))),
        BackendGate::Measure(q, c) => Ok(Some(Operation::Measure(q, c))),
        BackendGate::If(c, inner) => match holds(c, clbits) {
            Err(e) => Err(e),
            Ok(false) => Ok(None),
            Ok(true) => backend_step(*inner, axis, clbits),
        },
    }
}

/// The operation of a backend's gate, given the classical bits so far.
pub fn backend_operation(g: &BackendGate, axis: RotAxis, clbits: &Vec<u8>) -> (r: Result<
    Option<Operation>,
    String,
>)
    ensures
        match r {
            Ok(op) => backend_step(*g, axis, clbits@) == Ok::<Option<Operation>, Seq<char>>(op),
            Err(text) => backend_step(*g, axis, clbits@) == Err::<Option<Operation>, Seq<char>>(
                text@,
            ),
        },
    decreases g,
{
    match g {
        BackendGate::Rz(q, a) => Ok(Some(Operation::Rz(*q, *a))),
        BackendGate::Rot(q, a) => match axis {
            RotAxis::Ry => Ok(Some(Operation::Ry(*q, *a))),
            RotAxis::Rx => Ok(Some(Operation::Rx(*q, *a))),
        },
        BackendGate::Cx(a, b) => Ok(Some(Operation::Cnot(*a, *b))),
        BackendGate::Cz(a, b) => Ok(Some(Operation::ControlledZ(*a, *b))),
        BackendGate::Rzz(a, b, t) => Ok(Some(Operation::Rzz(*a, *b, *t))),
        BackendGate::Measure(q, c) => Ok(Some(Operation::Measure(*q, *c))),
        BackendGate::If(c, inner) => match do_hold(c, clbits) {
            Err(e) => Err(e),
            Ok(acts) => if acts {
                backend_operation(inner, axis, clbits)
            } else {
                Ok(None)
            },
        },
    }
}

/// Writes down a measured bit.
pub fn record_outcome(clbits: &mut Vec<u8>, c: usize, outcome: u8) -> (r: Result<(), String>)
    ensures
        match r {
            Ok(_) => c < old(clbits).len() && final(clbits)@ == old(clbits)@.update(
                c as int,
                outcome,
            ),
            Err(text) => c >= old(clbits).len() && final(clbits)@ == old(clbits)@ && text@
                == missing_bit("Measure writes"@, c, old(clbits)@.len()),
        },
{
    if c < clbits.len() {
        clbits.set(c, outcome);
        Ok(())
    } else {
        Err(missing_text("Measure writes", c, clbits.len()))
    }
}

/// The operation of a native gate where nothing keeps classical bits: neither
/// measurements nor conditioned gates have one.
pub fn native_operation_without_bits(g: &NativeGate) -> (r: Result<Operation, String>)
    ensures
        match r {
            Ok(op) => !(g is Measure) && !(g is If) && native_step(*g, Seq::empty()) == Ok::<
                Option<Operation>,
                Seq<char>,
            >(Some(op)),
            Err(text) => {
                ||| g is Measure && text@
                    == "NativeGate::Measure is not supported by emit::apply_to -- this entry point returns no classical outcomes; use apply_to_with_measurement (or run_with_measurement) instead"@
                ||| g is If && text@
                    == "NativeGate::If is not supported by emit::apply_to -- this entry point keeps no classical bits; use apply_to_with_measurement (or run_with_measurement) instead"@
            },
        },
{
    match g {
        NativeGate::Rz(q, a) => Ok(Operation::Rz(*q, *a)),
        NativeGate::Ry(q, a) => Ok(Operation::Ry(*q, *a)),
        NativeGate::Rzz(a, b, t) => Ok(Operation::Rzz(*a, *b, *t)),
        NativeGate::Measure(_, _) => Err(
            String::from_str(
                "NativeGate::Measure is not supported by emit::apply_to -- this entry point returns no classical outcomes; use apply_to_with_measurement (or run_with_measurement) instead",
            ),
        ),
        NativeGate::If(_, _) => Err(
            String::from_str(
                "NativeGate::If is not supported by emit::apply_to -- this entry point keeps no classical bits; use apply_to_with_measurement (or run_with_measurement) instead",
            ),
        ),
    }
}

/// The operation of a backend's gate where nothing keeps classical bits.
pub fn backend_operation_without_bits(g: &BackendGate, axis: RotAxis) -> (r: Result<Operation, String>)
    ensures
        match r {
            Ok(op) => !(g is Measure) && !(g is If) && backend_step(*g, axis, Seq::empty()) == Ok::<
                Option<Operation>,
                Seq<char>,
            >(Some(op)),
            Err(text) => {
                ||| g is Measure && text@
                    == "BackendGate::Measure is not supported by emit::apply_backend_to -- this entry point returns no classical outcomes; use apply_backend_to_with_measurement (or run_backend_with_measurement) instead"@
                ||| g is If && text@
                    == "BackendGate::If is not supported by emit::apply_backend_to -- this entry point keeps no classical bits; use apply_backend_to_with_measurement (or run_backend_with_measurement) instead"@
            },
        },
{
    match g {
        BackendGate::Rz(q, a) => Ok(Operation::Rz(*q, *a)),
        BackendGate::Rot(q, a) => match axis {
            RotAxis::Ry => Ok(Operation::Ry(*q, *a)),
            RotAxis::Rx => Ok(Operation::Rx(*q, *a)),
        },
        BackendGate::Cx(a, b) => Ok(Operation::Cnot(*a, *b)),
        BackendGate::Cz(a, b) => Ok(Operation::ControlledZ(*a, *b)),
        BackendGate::Rzz(a, b, t) => Ok(Operation::Rzz(*a, *b, *t)),
        BackendGate::Measure(_, _) => Err(
            String::from_str(
                "BackendGate::Measure is not supported by emit::apply_backend_to -- this entry point returns no classical outcomes; use apply_backend_to_with_measurement (or run_backend_with_measurement) instead",
            ),
        ),
        BackendGate::If(_, _) => Err(
            String::from_str(
                "BackendGate::If is not supported by emit::apply_backend_to -- this entry point keeps no classical bits; use apply_backend_to_with_measurement (or run_backend_with_measurement) instead",
            ),
        ),
    }
}

/// A run of a circuit: the place of the next gate, and the classical bits.
#[derive(Debug)]
pub struct Execution {
    pub at: usize,
    pub clbits: Vec<u8>,
}

/// The next operation from the place `at` on, and the place behind it; gates
/// whose conditions fail are passed over.
pub open spec fn next_native(gates: Seq<NativeGate>, clbits: Seq<u8>, at: nat) -> Result<
    (Option<Operation>, nat),
    Seq<char>,
>
    decreases gates.len() - at,
{
    if at >= gates.len() {
        Ok((None, at))
    } else {
        match native_step(gates[at as int], clbits) {
            Err(e) => Err(e),
            Ok(None) => next_native(gates, clbits, at + 1),
            Ok(Some(op)) => Ok((Some(op), at + 1)),
        }
    }
}

/// The same for a backend's gates.
pub open spec fn next_backend(gates: Seq<BackendGate>, axis: RotAxis, clbits: Seq<u8>, at: nat) -> Result<
    (Option<Operation>, nat),
    Seq<char>,
>
    decreases gates.len() - at,
{
    if at >= gates.len() {
        Ok((None, at))
    } else {
        match backend_step(gates[at as int], axis, clbits) {
            Err(e) => Err(e),
            Ok(None) => next_backend(gates, axis, clbits, at + 1),
            Ok(Some(op)) => Ok((Some(op), at + 1)),
        }
    }
}

impl Execution {
    /// A run at its start, with all classical bits zero.
    pub fn new(num_clbits: usize) -> (r: Self)
        ensures
            r.at == 0,
            r.clbits@ == Seq::new(num_clbits as nat, |i: int| 0u8),
    {
        let mut clbits: Vec<u8> = Vec::new();
        while clbits.len() < num_clbits
            invariant
                clbits.len() <= num_clbits,
                forall|i: int| 0 <= i < clbits.len() ==> clbits@[i] == 0,
            decreases num_clbits - clbits.len(),
        {
            clbits.push(0);
        }
        assert(clbits@ =~= Seq::new(num_clbits as nat, |i: int| 0u8));
        Execution { at: 0, clbits }
    }

    /// The next operation of a native circuit, or `None` at its end. After a
    /// measurement its outcome is to be recorded first.
    pub fn next(&mut self, circuit: &NativeCircuit) -> (r: Result<Option<Operation>, String>)
        ensures
            final(self).clbits@ == old(self).clbits@,
            r is Err ==> final(self).at == old(self).at,
            match r {
                Ok(op) => next_native(circuit.gates@, old(self).clbits@, old(self).at as nat) == Ok::<
                    (Option<Operation>, nat),
                    Seq<char>,
                >((op, final(self).at as nat)),
                Err(text) => next_native(circuit.gates@, old(self).clbits@, old(self).at as nat)
                    == Err::<(Option<Operation>, nat), Seq<char>>(text@),
            },
    {
        let ghost start = self.at as nat;
        let ghost bits = self.clbits@;
        let mut at: usize = self.at;
        while at < circuit.gates.len()
            invariant
                self.clbits@ == bits,
                bits == old(self).clbits@,
                start == old(self).at,
                self.at == start,
                next_native(circuit.gates@, bits, start) == next_native(
                    circuit.gates@,
                    bits,
                    at as nat,
                ),
            decreases circuit.gates.len() - at,
        {
            let step = native_operation(&circuit.gates[at], &self.clbits);
            match step {
                Err(e) => {
                    return Err(e);
                },
                Ok(found) => {
                    at = at + 1;
                    if let Some(op) = found {
                        self.at = at;
                        return Ok(Some(op));
                    }
                },
            }
        }
        self.at = at;
        Ok(None)
    }

    /// The next operation of a backend's circuit.
    pub fn next_of_backend(&mut self, circuit: &BackendCircuit) -> (r: Result<
        Option<Operation>,
        String,
    >)
        ensures
            final(self).clbits@ == old(self).clbits@,
            r is Err ==> final(self).at == old(self).at,
            match r {
                Ok(op) => next_backend(
                    circuit.gates@,
                    circuit.backend.axis(),
                    old(self).clbits@,
                    old(self).at as nat,
                ) == Ok::<(Option<Operation>, nat), Seq<char>>((op, final(self).at as nat)),
                Err(text) => next_backend(
                    circuit.gates@,
                    circuit.backend.axis(),
                    old(self).clbits@,
                    old(self).at as nat,
                ) == Err::<(Option<Operation>, nat), Seq<char>>(text@),
            },
    {
        let axis = circuit.backend.rot_axis();
        let ghost start = self.at as nat;
        let ghost bits = self.clbits@;
        let mut at: usize = self.at;
        while at < circuit.gates.len()
            invariant
                self.clbits@ == bits,
                bits == old(self).clbits@,
                start == old(self).at,
                self.at == start,
                axis == circuit.backend.axis(),
                next_backend(circuit.gates@, axis, bits, start) == next_backend(
                    circuit.gates@,
                    axis,
                    bits,
                    at as nat,
                ),
            decreases circuit.gates.len() - at,
        {
            let step = backend_operation(&circuit.gates[at], axis, &self.clbits);
            match step {
                Err(e) => {
                    return Err(e);
                },
                Ok(found) => {
                    at = at + 1;
                    if let Some(op) = found {
                        self.at = at;
                        return Ok(Some(op));
                    }
                },
            }
        }
        self.at = at;
        Ok(None)
    }

    /// Writes down the outcome of a measurement.
    pub fn record(&mut self, c: usize, outcome: u8) -> (r: Result<(), String>)
        ensures
            final(self).at == old(self).at,
            match r {
                Ok(_) => c < old(self).clbits.len() && final(self).clbits@
                    == old(self).clbits@.update(c as int, outcome),
                Err(text) => c >= old(self).clbits.len() && final(self).clbits@
                    == old(self).clbits@ && text@ == missing_bit(
                    "Measure writes"@,
                    c,
                    old(self).clbits@.len(),
                ),
            },
    {
        record_outcome(&mut self.clbits, c, outcome)
    }
}

/// The operation that an error is.
pub fn pauli_error_operation(q: usize, err: PauliError) -> (r: Operation)
    ensures
        r == (match err {
            PauliError::X => Operation::X(q),
            PauliError::Y => Operation::Y(q),
            PauliError::Z => Operation::Z(q),
        }),
{
    match err {
        PauliError::X => Operation::X(q),
        PauliError::Y => Operation::Y(q),
        PauliError::Z => Operation::Z(q),
    }
}

/// The source gate that an operation of a register is.
pub open spec fn operation_gate(op: Operation) -> Gate {
    match op {
        Operation::X(q) => Gate::X(q),
        Operation::Y(q) => Gate::Y(q),
        Operation::Z(q) => Gate::Z(q),
        Operation::Rx(q, t) => Gate::Rx(q, t),
        Operation::Ry(q, t) => Gate::Ry(q, t),
        Operation::Rz(q, t) => Gate::Rz(q, t),
        Operation::Rzz(a, b, t) => Gate::Rzz(a, b, t),
        Operation::Cnot(a, b) => Gate::Cx(a, b),
        Operation::ControlledZ(a, b) => Gate::Cz(a, b),
        Operation::Measure(q, c) => Gate::Measure(q, c),
    }
}

/// Whether each listed bit is there and has the listed value.
pub open spec fn all_hold(c: Conditions, clbits: Seq<u8>) -> bool {
    forall|i: int|
        0 <= i < c.list().len() ==> (#[trigger] c.list()[i]).0 < clbits.len() && (
        clbits[c.list()[i].0 as int] != 0) == c.list()[i].1
}

/// Conditions hold where every listed bit has its value.
pub proof fn lemma_holds(c: Conditions, clbits: Seq<u8>)
    ensures
        holds(c, clbits) == Ok::<bool, Seq<char>>(true) <==> all_hold(c, clbits),
    decreases c,
{
    if let Conditions::When(b, v, rest) = c {
        lemma_holds(*rest, clbits);
        assert(c.list() == seq![(b, v)] + rest.list());
        if all_hold(*rest, clbits) && b < clbits.len() && (clbits[b as int] != 0) == v {
            assert forall|i: int| 0 <= i < c.list().len() implies (#[trigger] c.list()[i]).0
                < clbits.len() && (clbits[c.list()[i].0 as int] != 0) == c.list()[i].1 by {
                if i > 0 {
                    assert(c.list()[i] == rest.list()[i - 1]);
                }
            }
        }
        if all_hold(c, clbits) {
            assert(c.list()[0] == (b, v));
            assert forall|i: int| 0 <= i < rest.list().len() implies (#[trigger] rest.list()[i]).0
                < clbits.len() && (clbits[rest.list()[i].0 as int] != 0) == rest.list()[i].1 by {
                assert(c.list()[i + 1] == rest.list()[i]);
            }
        }
    }
}

/// A native gate as a source gate, without its conditions.
pub open spec fn native_core(g: NativeGate) -> Gate
    decreases g,
{
    match g {
        NativeGate::Rz(q, t) => Gate::Rz(q, t),
        NativeGate::Ry(q, t) => Gate::Ry(q, t),
        NativeGate::Rzz(a, b, t) => Gate::Rzz(a, b, t),
        NativeGate::Measure(q, c) => Gate::Measure(q, c),
        NativeGate::If(_, inner) => native_core(*inner),
    }
}

/// Whether all conditions of a native gate hold.
pub open spec fn native_acts(g: NativeGate, clbits: Seq<u8>) -> bool
    decreases g,
{
    match g {
        NativeGate::If(c, inner) => all_hold(c, clbits) && native_acts(*inner, clbits),
        _ => true,
    }
}

/// A register performs a native gate itself where all its conditions hold, and
/// nothing where they do not.
pub proof fn lemma_native_step(g: NativeGate, clbits: Seq<u8>)
    ensures
        native_step(g, clbits) matches Ok(Some(op)) ==> operation_gate(op) == native_core(g)
            && native_acts(g, clbits),
        native_step(g, clbits) matches Ok(None) ==> !native_acts(g, clbits),
        native_step(g, clbits) is Err ==> !native_acts(g, clbits),
    decreases g,
{
    if let NativeGate::If(c, inner) = g {
        lemma_holds(c, clbits);
        lemma_native_step(*inner, clbits);
    }
}

/// A backend's gate as a source gate, without its conditions; its rotation is
/// about the axis.
pub open spec fn backend_core(g: BackendGate, axis: RotAxis) -> Gate
    decreases g,
{
    match g {
        BackendGate::Rz(q, t) => Gate::Rz(q, t),
        BackendGate::Rot(q, t) => if axis == RotAxis::Rx {
            Gate::Rx(q, t)
        } else {
            Gate::Ry(q, t)
        },
        BackendGate::Cx(a, b) => Gate::Cx(a, b),
        BackendGate::Cz(a, b) => Gate::Cz(a, b),
        BackendGate::Rzz(a, b, t) => Gate::Rzz(a, b, t),
        BackendGate::Measure(q, c) => Gate::Measure(q, c),
        BackendGate::If(_, inner) => backend_core(*inner, axis),
    }
}

pub open spec fn backend_acts(g: BackendGate, clbits: Seq<u8>) -> bool
    decreases g,
{
    match g {
        BackendGate::If(c, inner) => all_hold(c, clbits) && backend_acts(*inner, clbits),
        _ => true,
    }
}

/// The same for a backend's gate.
pub proof fn lemma_backend_step(g: BackendGate, axis: RotAxis, clbits: Seq<u8>)
    ensures
        backend_step(g, axis, clbits) matches Ok(Some(op)) ==> operation_gate(op) == backend_core(
            g,
            axis,
        ) && backend_acts(g, clbits),
        backend_step(g, axis, clbits) matches Ok(None) ==> !backend_acts(g, clbits),
        backend_step(g, axis, clbits) is Err ==> !backend_acts(g, clbits),
    decreases g,
{
    if let BackendGate::If(c, inner) = g {
        lemma_holds(c, clbits);
        lemma_backend_step(*inner, axis, clbits);
    }
}

} // verus!
