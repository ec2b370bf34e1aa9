//! Export in the basis gates of IBM hardware.
use crate::angle::{EPS_BITS, HALF_PI_BITS, PI_BITS};
use crate::backend::peephole::{centered, wrap_angle};
use crate::backend::{Backend, BackendCircuit, BackendGate, BackendSpec};
use crate::binary64::{absolute, below, difference, sum, Binary64};
use crate::display::{debugged, shown};
use crate::text::{decimal, push_decimal};
use vstd::prelude::*;

verus! {

/// An instruction of IBM's basis.
#[derive(Debug, Clone, Copy, PartialEq, Eq, Structural)]
pub enum IbmInstr {
    /// A frame change, which takes no time.
    Rz(usize, Binary64),
    /// A quarter turn about X.
    Sx(usize),
    X(usize),
    Cx(usize, usize),
    Measure(usize, usize),
}

/// An angle between minus pi and pi; one next to nothing becomes zero.
pub open spec fn snapped(a: Binary64) -> Binary64 {
    if below(absolute(centered(a)), Binary64 { bits: EPS_BITS }) {
        Binary64 { bits: 0 }
    } else {
        centered(a)
    }
}

pub fn snap_angle(a: Binary64) -> (r: Binary64)
    ensures
        r == snapped(a),
{
    let t = wrap_angle(a);
    if t.abs().lt(Binary64 { bits: EPS_BITS }) {
        Binary64 { bits: 0 }
    } else {
        t
    }
}

/// Whether an angle is a half turn, to within the tolerance.
pub open spec fn half_turn(t: Binary64) -> bool {
    let pi = Binary64 { bits: PI_BITS };
    let eps = Binary64 { bits: EPS_BITS };
    below(absolute(difference(t, pi)), eps) || below(absolute(sum(t, pi)), eps)
}

fn is_half_turn(t: Binary64) -> (r: bool)
    ensures
        r == half_turn(t),
{
    let pi = Binary64 { bits: PI_BITS };
    let eps = Binary64 { bits: EPS_BITS };
    t.minus(pi).abs().lt(eps) || t.plus(pi).abs().lt(eps)
}

/// A rotation about X: nothing, an `X`, or two quarter turns between frame
/// changes.
pub open spec fn rot_instrs(q: usize, theta: Binary64) -> Seq<IbmInstr> {
    let t = snapped(theta);
    let quarter = Binary64 { bits: HALF_PI_BITS };
    if t.is_zero_value() {
        Seq::empty()
    } else if half_turn(t) {
        seq![IbmInstr::X(q)]
    } else {
        seq![
            IbmInstr::Rz(q, quarter),
            IbmInstr::Sx(q),
            IbmInstr::Rz(q, snapped(sum(t, Binary64 { bits: PI_BITS }))),
            IbmInstr::Sx(q),
            IbmInstr::Rz(q, quarter),
        ]
    }
}

/// Appends a rotation about X.
pub fn expand_rot(q: usize, theta: Binary64, out: &mut Vec<IbmInstr>)
    ensures
        final(out)@ == old(out)@ + rot_instrs(q, theta),
{
    let ghost before = out@;
    let t = snap_angle(theta);
    let quarter = Binary64 { bits: HALF_PI_BITS };
    if t.magnitude_bits() != 0 {
        if is_half_turn(t) {
            out.push(IbmInstr::X(q));
        } else {
            out.push(IbmInstr::Rz(q, quarter));
            out.push(IbmInstr::Sx(q));
            out.push(IbmInstr::Rz(q, snap_angle(t.plus(Binary64 { bits: PI_BITS }))));
            out.push(IbmInstr::Sx(q));
            out.push(IbmInstr::Rz(q, quarter));
        }
    }
    assert(out@ =~= before + rot_instrs(q, theta));
}

/// Adds an instruction; frame changes of one qubit next to each other merge,
/// and vanish where they cancel.
pub open spec fn merge_next(out: Seq<IbmInstr>, i: IbmInstr) -> Seq<IbmInstr> {
    if out.len() > 0 && out.last() is Rz && i is Rz && out.last()->Rz_0 == i->Rz_0 {
        let both = snapped(sum(out.last()->Rz_1, i->Rz_1));
        if both.is_zero_value() {
            out.drop_last()
        } else {
            out.drop_last().push(IbmInstr::Rz(i->Rz_0, both))
        }
    } else {
        out.push(i)
    }
}

/// The first `n` instructions, merged.
pub open spec fn merged(instrs: Seq<IbmInstr>, n: nat) -> Seq<IbmInstr>
    decreases n,
{
    if n == 0 {
        Seq::empty()
    } else {
        merge_next(merged(instrs, (n - 1) as nat), instrs[n - 1])
    }
}

pub fn merge_adjacent_rz(instrs: Vec<IbmInstr>) -> (r: Vec<IbmInstr>)
    ensures
        r@ == merged(instrs@, instrs@.len()),
{
    let mut out: Vec<IbmInstr> = Vec::new();
    let mut i: usize = 0;
    while i < instrs.len()
        invariant
            0 <= i <= instrs.len(),
            out@ == merged(instrs@, i as nat),
        decreases instrs.len() - i,
    {
        let instr = instrs[i];
        let ghost before = out@;
        let mut joined = false;
        if out.len() > 0 {
            if let (IbmInstr::Rz(q1, a1), IbmInstr::Rz(q2, a2)) = (out[out.len() - 1], instr) {
                if q1 == q2 {
                    joined = true;
                    let both = snap_angle(a1.plus(a2));
                    out.pop();
                    if both.magnitude_bits() != 0 {
                        out.push(IbmInstr::Rz(q1, both));
                    }
                }
            }
        }
        if !joined {
            out.push(instr);
        }
        assert(out@ =~= merge_next(before, instr));
        i = i + 1;
    }
    out
}

/// A gate that has no place in an IBM circuit, written out.
pub open spec fn foreign_text(g: BackendGate) -> Seq<char> {
    match g {
        BackendGate::Cz(a, b) => "Cz("@ + decimal(a as nat) + ", "@ + decimal(b as nat) + ")"@,
        BackendGate::Rzz(a, b, t) => "Rzz("@ + decimal(a as nat) + ", "@ + decimal(b as nat) + ", "@
            + debugged(t) + ")"@,
        _ => "a conditioned gate"@,
    }
}

pub open spec fn foreign(g: BackendGate) -> bool {
    g is Cz || g is Rzz || g is If
}

pub open spec fn foreign_error(g: BackendGate) -> Seq<char> {
    "lower_ibm_native: unexpected "@ + foreign_text(g)
        + " in an IbmQ-lowered circuit (Cz belongs to Rigetti, Rzz to TrappedIon -- backend::lower should never emit either for Backend::IbmQ)"@
}

/// The instructions of one gate of an IBM circuit.
pub open spec fn gate_instrs(g: BackendGate) -> Seq<IbmInstr> {
    match g {
        BackendGate::Rz(q, a) => if snapped(a).is_zero_value() {
            Seq::empty()
        } else {
            seq![IbmInstr::Rz(q, snapped(a))]
        },
        BackendGate::Rot(q, a) => rot_instrs(q, a),
        BackendGate::Cx(a, b) => seq![IbmInstr::Cx(a, b)],
        BackendGate::Measure(q, c) => seq![IbmInstr::Measure(q, c)],
        _ => Seq::empty(),
    }
}

pub open spec fn all_instrs(gates: Seq<BackendGate>, n: nat) -> Seq<IbmInstr>
    decreases n,
{
    if n == 0 {
        Seq::empty()
    } else {
        all_instrs(gates, (n - 1) as nat) + gate_instrs(gates[n - 1])
    }
}

pub open spec fn wrong_backend_error(b: Backend) -> Seq<char> {
    "lower_ibm_native only accepts a BackendCircuit lowered for Backend::IbmQ, got "@ + b.name()
}

/// The first gate that has no place in an IBM circuit.
pub open spec fn first_foreign(gates: Seq<BackendGate>, i: int) -> bool {
    &&& 0 <= i < gates.len()
    &&& foreign(gates[i])
    &&& forall|j: int| 0 <= j < i ==> !foreign(#[trigger] gates[j])
}

fn foreign_message(g: &BackendGate) -> (r: String)
    requires
        foreign(*g),
    ensures
        r@ == foreign_error(*g),
{
    let mut s = String::from_str("lower_ibm_native: unexpected ");
    let ghost start = s@;
    match g {
        BackendGate::Cz(a, b) => {
            s.append("Cz(");
            push_decimal(&mut s, *a as u128);
            s.append(", ");
            push_decimal(&mut s, *b as u128);
            s.append(")");
        },
        BackendGate::Rzz(a, b, t) => {
            s.append("Rzz(");
            push_decimal(&mut s, *a as u128);
            s.append(", ");
            push_decimal(&mut s, *b as u128);
            s.append(", ");
            t.push_debug(&mut s);
            s.append(")");
        },
        _ => {
            s.append("a conditioned gate");
        },
    }
    assert(s@ =~= start + foreign_text(*g));
    s.append(
        " in an IbmQ-lowered circuit (Cz belongs to Rigetti, Rzz to TrappedIon -- backend::lower should never emit either for Backend::IbmQ)",
    );
    s
}

/// The instructions of a circuit that was lowered for IBM.
pub fn lower_ibm_native(circuit: &BackendCircuit) -> (r: Result<Vec<IbmInstr>, String>)
    ensures
        match r {
            Ok(v) => {
                let all = all_instrs(circuit.gates@, circuit.gates@.len());
                &&& circuit.backend == Backend::IbmQ
                &&& forall|j: int| 0 <= j < circuit.gates.len() ==> !foreign(#[trigger] circuit.gates@[j])
                &&& v@ == merged(all, all.len())
            },
            Err(text) => {
                ||| circuit.backend != Backend::IbmQ && text@ == wrong_backend_error(circuit.backend)
                ||| circuit.backend == Backend::IbmQ && exists|i: int| #[trigger]
                    first_foreign(circuit.gates@, i) && text@ == foreign_error(circuit.gates@[i])
            },
        },
{
    if circuit.backend != Backend::IbmQ {
        let mut s = String::from_str(
            "lower_ibm_native only accepts a BackendCircuit lowered for Backend::IbmQ, got ",
        );
        s.append(circuit.backend.id());
        return Err(s);
    }
    let mut out: Vec<IbmInstr> = Vec::new();
    let mut i: usize = 0;
    while i < circuit.gates.len()
        invariant
            circuit.backend == Backend::IbmQ,
            0 <= i <= circuit.gates.len(),
            out@ == all_instrs(circuit.gates@, i as nat),
            forall|j: int| 0 <= j < i ==> !foreign(#[trigger] circuit.gates@[j]),
        decreases circuit.gates.len() - i,
    {
        let g = &circuit.gates[i];
        let ghost before = out@;
        match g {
            BackendGate::Rz(q, a) => {
                let t = snap_angle(*a);
                if t.magnitude_bits() != 0 {
                    out.push(IbmInstr::Rz(*q, t));
                }
            },
            BackendGate::Rot(q, a) => expand_rot(*q, *a, &mut out),
            BackendGate::Cx(a, b) => out.push(IbmInstr::Cx(*a, *b)),
            BackendGate::Measure(q, c) => out.push(IbmInstr::Measure(*q, *c)),
            _ => {
                let s = foreign_message(g);
                assert(first_foreign(circuit.gates@, i as int));
                return Err(s);
            },
        }
        assert(out@ =~= before + gate_instrs(*g));
        i = i + 1;
    }
    Ok(merge_adjacent_rz(out))
}

/// One line of the text.
pub open spec fn instr_text(i: IbmInstr) -> Seq<char> {
    match i {
        IbmInstr::Rz(q, a) => "rz("@ + shown(a) + ") q["@ + decimal(q as nat) + "];\n"@,
        IbmInstr::Sx(q) => "sx q["@ + decimal(q as nat) + "];\n"@,
        IbmInstr::X(q) => "x q["@ + decimal(q as nat) + "];\n"@,
        IbmInstr::Cx(a, b) => "cx q["@ + decimal(a as nat) + "], q["@ + decimal(b as nat) + "];\n"@,
        IbmInstr::Measure(q, c) => "measure q["@ + decimal(q as nat) + "] -> c["@ + decimal(c as nat)
            + "];\n"@,
    }
}

pub open spec fn instrs_text(v: Seq<IbmInstr>, n: nat) -> Seq<char>
    decreases n,
{
    if n == 0 {
        Seq::empty()
    } else {
        instrs_text(v, (n - 1) as nat) + instr_text(v[n - 1])
    }
}

pub open spec fn ibm_header(num_qubits: usize, num_clbits: usize, name: Seq<char>) -> Seq<char> {
    "OPENQASM 2.0;\n"@ + "include \"qelib1.inc\";\n"@ + "qreg q["@ + decimal(num_qubits as nat)
        + "];\n"@ + "creg c["@ + decimal(num_clbits as nat) + "];\n"@ + "// Circuit: "@ + name
        + " (IBM native basis: rz, sx, x, cx, measure)\n"@
}

fn push_instr(s: &mut String, i: IbmInstr)
    ensures
        final(s)@ == old(s)@ + instr_text(i),
{
    let ghost start = s@;
    match i {
        IbmInstr::Rz(q, a) => {
            s.append("rz(");
            a.push_shown(s);
            s.append(") q[");
            push_decimal(s, q as u128);
            s.append("];\n");
        },
        IbmInstr::Sx(q) => {
            s.append("sx q[");
            push_decimal(s, q as u128);
            s.append("];\n");
        },
        IbmInstr::X(q) => {
            s.append("x q[");
            push_decimal(s, q as u128);
            s.append("];\n");
        },
        IbmInstr::Cx(a, b) => {
            s.append("cx q[");
            push_decimal(s, a as u128);
            s.append("], q[");
            push_decimal(s, b as u128);
            s.append("];\n");
        },
        IbmInstr::Measure(q, c) => {
            s.append("measure q[");
            push_decimal(s, q as u128);
            s.append("] -> c[");
            push_decimal(s, c as u128);
            s.append("];\n");
        },
    }
    assert(s@ =~= start + instr_text(i));
}

/// The instructions of a circuit as OPENQASM 2.0 text.
pub fn to_ibm_qasm(circuit: &BackendCircuit, circuit_name: &str) -> (r: Result<String, String>)
    ensures
        match r {
            Ok(s) => {
                let all = all_instrs(circuit.gates@, circuit.gates@.len());
                let v = merged(all, all.len());
                &&& circuit.backend == Backend::IbmQ
                &&& forall|j: int| 0 <= j < circuit.gates.len() ==> !foreign(#[trigger] circuit.gates@[j])
                &&& s@ == ibm_header(circuit.num_qubits, circuit.num_clbits, circuit_name@)
                    + instrs_text(v, v.len())
            },
            Err(text) => {
                ||| circuit.backend != Backend::IbmQ && text@ == wrong_backend_error(circuit.backend)
                ||| circuit.backend == Backend::IbmQ && exists|i: int| #[trigger]
                    first_foreign(circuit.gates@, i) && text@ == foreign_error(circuit.gates@[i])
            },
        },
{
    let instrs = match lower_ibm_native(circuit) {
        Ok(v) => v,
        Err(e) => {
            return Err(e);
        },
    };
    let mut s = String::from_str("OPENQASM 2.0;\n");
    s.append("include \"qelib1.inc\";\n");
    s.append("qreg q[");
    push_decimal(&mut s, circuit.num_qubits as u128);
    s.append("];\n");
    s.append("creg c[");
    push_decimal(&mut s, circuit.num_clbits as u128);
    s.append("];\n");
    s.append("// Circuit: ");
    s.append(circuit_name);
    s.append(" (IBM native basis: rz, sx, x, cx, measure)\n");
    let ghost start = s@;
    assert(start =~= ibm_header(circuit.num_qubits, circuit.num_clbits, circuit_name@));
    let mut i: usize = 0;
    assert(s@ =~= start + instrs_text(instrs@, 0));
    while i < instrs.len()
        invariant
            0 <= i <= instrs.len(),
            s@ == start + instrs_text(instrs@, i as nat),
        decreases instrs.len() - i,
    {
        push_instr(&mut s, instrs[i]);
        i = i + 1;
        assert(s@ =~= start + instrs_text(instrs@, i as nat));
    }
    Ok(s)
}

} // verus!
