//! Draws diagrams as SVG documents.
//!
//! All coordinates are whole numbers, written with one decimal place.
use super::ascii::lemma_group_in_range;
use super::columns::{columns, extent, group_by_column, members, nats, pack};
use super::{shapes, Diagram, DiagramInstr, Shape};
use crate::text::{chars_of, decimal, push_decimal, spelled};
use vstd::prelude::*;

verus! {

/// A coordinate.
pub open spec fn coordinate(n: nat) -> Seq<char> {
    decimal(n) + ".0"@
}

fn push_coordinate(s: &mut String, n: u128)
    ensures
        final(s)@ == old(s)@ + coordinate(n as nat),
{
    let ghost before = s@;
    push_decimal(s, n);
    s.append(".0");
    assert(s@ =~= before + coordinate(n as nat));
}

/// The height of a wire: rows of sixty under a margin of thirty.
pub open spec fn row_height(row: usize) -> nat {
    60 + 60 * row as nat
}

fn row_y(row: usize) -> (r: u128)
    ensures
        r == row_height(row),
{
    60 + 60 * row as u128
}

/// The height of a classical wire, a gap of twenty below the qubits.
pub open spec fn bit_height(bit: usize, num_qubits: usize) -> nat {
    80 + 60 * (num_qubits as nat + bit as nat)
}

fn row_y_clbit(bit: usize, num_qubits: usize) -> (r: u128)
    ensures
        r == bit_height(bit, num_qubits),
{
    80 + 60 * (num_qubits as u128 + bit as u128)
}

/// The middle of a column: columns of eighty behind a margin of seventy.
pub open spec fn column_middle(c: nat) -> nat {
    110 + 80 * c
}

/// One character of a text between tags.
pub open spec fn escaped_char(c: char) -> Seq<char> {
    if c == '&' {
        "&amp;"@
    } else if c == '<' {
        "&lt;"@
    } else if c == '>' {
        "&gt;"@
    } else {
        seq![c]
    }
}

/// The first `n` characters of a text between tags.
pub open spec fn escaped(s: Seq<char>, n: nat) -> Seq<char>
    decreases n,
{
    if n == 0 {
        Seq::empty()
    } else {
        escaped(s, (n - 1) as nat) + escaped_char(s[n - 1])
    }
}

fn push_escaped(out: &mut String, label: &str)
    ensures
        final(out)@ == old(out)@ + escaped(label@, label@.len()),
{
    let ghost before = out@;
    let v = chars_of(label);
    let mut i: usize = 0;
    assert(before + escaped(v@, 0) =~= before);
    while i < v.len()
        invariant
            v@ == label@,
            i <= v.len(),
            out@ == before + escaped(v@, i as nat),
        decreases v.len() - i,
    {
        let c = v[i];
        if c == '&' {
            out.append("&amp;");
        } else if c == '<' {
            out.append("&lt;");
        } else if c == '>' {
            out.append("&gt;");
        } else {
            out.push(c);
        }
        i = i + 1;
        assert(out@ =~= before + escaped(v@, i as nat));
    }
}

pub open spec fn line_tag(x1: nat, y1: nat, x2: nat, y2: nat) -> Seq<char> {
    "<line x1=\""@ + coordinate(x1) + "\" y1=\""@ + coordinate(y1) + "\" x2=\""@ + coordinate(x2)
        + "\" y2=\""@ + coordinate(y2) + "\" stroke=\"black\" stroke-width=\"1.5\"/>"@
}

fn push_line(out: &mut String, x1: u128, y1: u128, x2: u128, y2: u128)
    ensures
        final(out)@ == old(out)@ + line_tag(x1 as nat, y1 as nat, x2 as nat, y2 as nat),
{
    let ghost before = out@;
    out.append("<line x1=\"");
    push_coordinate(out, x1);
    out.append("\" y1=\"");
    push_coordinate(out, y1);
    out.append("\" x2=\"");
    push_coordinate(out, x2);
    out.append("\" y2=\"");
    push_coordinate(out, y2);
    out.append("\" stroke=\"black\" stroke-width=\"1.5\"/>");
    assert(out@ =~= before + line_tag(x1 as nat, y1 as nat, x2 as nat, y2 as nat));
}

pub open spec fn rect_tag(x: nat, y: nat, w: nat, h: nat) -> Seq<char> {
    "<rect x=\""@ + coordinate(x) + "\" y=\""@ + coordinate(y) + "\" width=\""@ + coordinate(w)
        + "\" height=\""@ + coordinate(h)
        + "\" fill=\"white\" stroke=\"black\" stroke-width=\"1.5\"/>"@
}

fn push_rect(out: &mut String, x: u128, y: u128, w: u128, h: u128)
    ensures
        final(out)@ == old(out)@ + rect_tag(x as nat, y as nat, w as nat, h as nat),
{
    let ghost before = out@;
    out.append("<rect x=\"");
    push_coordinate(out, x);
    out.append("\" y=\"");
    push_coordinate(out, y);
    out.append("\" width=\"");
    push_coordinate(out, w);
    out.append("\" height=\"");
    push_coordinate(out, h);
    out.append("\" fill=\"white\" stroke=\"black\" stroke-width=\"1.5\"/>");
    assert(out@ =~= before + rect_tag(x as nat, y as nat, w as nat, h as nat));
}

/// A label in the middle of a box.
pub open spec fn label_tag(x: nat, y: nat, label: Seq<char>) -> Seq<char> {
    "<text x=\""@ + coordinate(x) + "\" y=\""@ + coordinate(y)
        + "\" text-anchor=\"middle\" dominant-baseline=\"middle\">"@ + escaped(label, label.len())
        + "</text>"@
}

fn push_label(out: &mut String, x: u128, y: u128, label: &str)
    ensures
        final(out)@ == old(out)@ + label_tag(x as nat, y as nat, label@),
{
    let ghost before = out@;
    out.append("<text x=\"");
    push_coordinate(out, x);
    out.append("\" y=\"");
    push_coordinate(out, y);
    out.append("\" text-anchor=\"middle\" dominant-baseline=\"middle\">");
    push_escaped(out, label);
    out.append("</text>");
    assert(out@ =~= before + label_tag(x as nat, y as nat, label@));
}

/// A circle of a radius, filled as `style` says.
pub open spec fn circle_tag(x: nat, y: nat, r: nat, style: Seq<char>) -> Seq<char> {
    "<circle cx=\""@ + coordinate(x) + "\" cy=\""@ + coordinate(y) + "\" r=\""@ + coordinate(r)
        + style
}

fn push_circle(out: &mut String, x: u128, y: u128, r: u128, style: &str)
    ensures
        final(out)@ == old(out)@ + circle_tag(x as nat, y as nat, r as nat, style@),
{
    let ghost before = out@;
    out.append("<circle cx=\"");
    push_coordinate(out, x);
    out.append("\" cy=\"");
    push_coordinate(out, y);
    out.append("\" r=\"");
    push_coordinate(out, r);
    out.append(style);
    assert(out@ =~= before + circle_tag(x as nat, y as nat, r as nat, style@));
}

/// A box of sixty by thirty-two with a label.
pub open spec fn box_text(x: nat, y: nat, label: Seq<char>) -> Seq<char> {
    rect_tag((x - 30) as nat, (y - 16) as nat, 60, 32) + label_tag(x, y, label)
}

fn draw_box(out: &mut String, x: u128, y: u128, label: &str)
    requires
        30 <= x,
        16 <= y,
    ensures
        final(out)@ == old(out)@ + box_text(x as nat, y as nat, label@),
{
    let ghost before = out@;
    push_rect(out, x - 30, y - 16, 60, 32);
    push_label(out, x, y, label);
    assert(out@ =~= before + box_text(x as nat, y as nat, label@));
}

pub open spec fn dot_text(x: nat, y: nat) -> Seq<char> {
    circle_tag(x, y, 5, "\" fill=\"black\"/>"@)
}

fn draw_dot(out: &mut String, x: u128, y: u128)
    ensures
        final(out)@ == old(out)@ + dot_text(x as nat, y as nat),
{
    push_circle(out, x, y, 5, "\" fill=\"black\"/>");
}

/// A circle with a cross: the target of an exclusive or.
pub open spec fn target_text(x: nat, y: nat) -> Seq<char> {
    circle_tag(x, y, 16, "\" fill=\"white\" stroke=\"black\" stroke-width=\"1.5\"/>"@) + line_tag(
        (x - 16) as nat,
        y,
        x + 16,
        y,
    ) + line_tag(x, (y - 16) as nat, x, y + 16)
}

fn draw_target_symbol(out: &mut String, x: u128, y: u128)
    requires
        16 <= x < u128::MAX - 16,
        16 <= y < u128::MAX - 16,
    ensures
        final(out)@ == old(out)@ + target_text(x as nat, y as nat),
{
    let ghost before = out@;
    push_circle(out, x, y, 16, "\" fill=\"white\" stroke=\"black\" stroke-width=\"1.5\"/>");
    push_line(out, x - 16, y, x + 16, y);
    push_line(out, x, y - 16, x, y + 16);
    assert(out@ =~= before + target_text(x as nat, y as nat));
}

/// A diagonal cross.
pub open spec fn cross_text(x: nat, y: nat) -> Seq<char> {
    line_tag((x - 8) as nat, (y - 8) as nat, x + 8, y + 8) + line_tag(
        (x - 8) as nat,
        y + 8,
        x + 8,
        (y - 8) as nat,
    )
}

fn draw_swap_marker(out: &mut String, x: u128, y: u128)
    requires
        8 <= x < u128::MAX - 8,
        8 <= y < u128::MAX - 8,
    ensures
        final(out)@ == old(out)@ + cross_text(x as nat, y as nat),
{
    let ghost before = out@;
    push_line(out, x - 8, y - 8, x + 8, y + 8);
    push_line(out, x - 8, y + 8, x + 8, y - 8);
    assert(out@ =~= before + cross_text(x as nat, y as nat));
}

/// Dots on the first `n` of a list of wires.
pub open spec fn dots_text(x: nat, wires: Seq<usize>, n: nat) -> Seq<char>
    decreases n,
{
    if n == 0 {
        Seq::empty()
    } else {
        dots_text(x, wires, (n - 1) as nat) + dot_text(x, row_height(wires[n - 1]))
    }
}

/// What an instruction draws in a column. A measurement reaches down to its
/// classical wire, where there is one.
pub open spec fn figure(s: Shape, x: nat, num_qubits: usize, num_clbits: usize) -> Seq<char> {
    match s {
        Shape::Single { qubit, label } => box_text(x, row_height(qubit), label),
        Shape::Measure { qubit, clbit } => {
            let y = row_height(qubit);
            if clbit < num_clbits {
                let bottom = bit_height(clbit, num_qubits);
                box_text(x, y, "M"@) + line_tag((x - 2) as nat, y + 16, (x - 2) as nat, bottom)
                    + line_tag(x + 2, y + 16, x + 2, bottom)
            } else {
                box_text(x, y, "M->c"@ + decimal(clbit as nat))
            }
        },
        Shape::Controlled { controls, target, target_label } => {
            let (lo, hi) = s.range();
            let y = row_height(target);
            (if lo != hi {
                line_tag(x, row_height(lo), x, row_height(hi))
            } else {
                Seq::empty()
            }) + dots_text(x, controls, controls.len()) + match target_label {
                Some(l) => if l == "X"@ {
                    target_text(x, y)
                } else {
                    box_text(x, y, l)
                },
                None => dot_text(x, y),
            }
        },
        Shape::Span { qubits, label } => {
            let (lo, hi) = s.range();
            rect_tag(
                (x - 30) as nat,
                (row_height(lo) - 16) as nat,
                60,
                (row_height(hi) - row_height(lo) + 32) as nat,
            ) + label_tag(x, 60 + 30 * (lo as nat + hi as nat), label)
        },
        Shape::Swap { a, b } => {
            let (lo, hi) = s.range();
            line_tag(x, row_height(lo), x, row_height(hi)) + cross_text(x, row_height(a))
                + cross_text(x, row_height(b))
        },
    }
}

fn push_dots(out: &mut String, x: u128, wires: &Vec<usize>)
    ensures
        final(out)@ == old(out)@ + dots_text(x as nat, wires@, wires@.len()),
{
    let ghost before = out@;
    let mut i: usize = 0;
    assert(before + dots_text(x as nat, wires@, 0) =~= before);
    while i < wires.len()
        invariant
            i <= wires.len(),
            out@ == before + dots_text(x as nat, wires@, i as nat),
        decreases wires.len() - i,
    {
        draw_dot(out, x, row_y(wires[i]));
        i = i + 1;
        assert(out@ =~= before + dots_text(x as nat, wires@, i as nat));
    }
}

fn draw(out: &mut String, instr: &DiagramInstr, x: u128, num_qubits: usize, num_clbits: usize)
    requires
        30 <= x < u128::MAX - 30,
    ensures
        final(out)@ == old(out)@ + figure(instr@, x as nat, num_qubits, num_clbits),
{
    let ghost before = out@;
    match instr {
        DiagramInstr::Single { qubit, label } => {
            draw_box(out, x, row_y(*qubit), label.as_str());
        },
        DiagramInstr::Measure { qubit, clbit } => {
            let y: u128 = row_y(*qubit);
            if *clbit < num_clbits {
                draw_box(out, x, y, "M");
                let bottom: u128 = row_y_clbit(*clbit, num_qubits);
                push_line(out, x - 2, y + 16, x - 2, bottom);
                push_line(out, x + 2, y + 16, x + 2, bottom);
            } else {
                let mut label = String::from_str("M->c");
                push_decimal(&mut label, *clbit as u128);
                draw_box(out, x, y, label.as_str());
            }
        },
        DiagramInstr::Controlled { controls, target, target_label } => {
            let (lo, hi) = instr.wire_range();
            let y: u128 = row_y(*target);
            if lo != hi {
                push_line(out, x, row_y(lo), x, row_y(hi));
            }
            push_dots(out, x, controls);
            match target_label {
                Some(l) => {
                    if spelled(&chars_of(l.as_str()), "X") {
                        draw_target_symbol(out, x, y);
                    } else {
                        draw_box(out, x, y, l.as_str());
                    }
                },
                None => {
                    draw_dot(out, x, y);
                },
            }
        },
        DiagramInstr::Span { qubits, label } => {
            let (lo, hi) = instr.wire_range();
            push_rect(out, x - 30, row_y(lo) - 16, 60, row_y(hi) - row_y(lo) + 32);
            push_label(out, x, 60 + 30 * (lo as u128 + hi as u128), label.as_str());
        },
        DiagramInstr::Swap { a, b } => {
            let (lo, hi) = instr.wire_range();
            push_line(out, x, row_y(lo), x, row_y(hi));
            draw_swap_marker(out, x, row_y(*a));
            draw_swap_marker(out, x, row_y(*b));
        },
    }
    assert(out@ =~= before + figure(instr@, x as nat, num_qubits, num_clbits));
}

/// The wires that an instruction keeps clear: a measurement those below it
/// too, for its line to the classical wires.
pub open spec fn cleared(s: Shape, rows: usize) -> (usize, usize) {
    match s {
        Shape::Measure { qubit, .. } => (qubit, (rows - 1) as usize),
        _ => s.range(),
    }
}

pub open spec fn cleared_all(sh: Seq<Shape>, rows: usize) -> Seq<(usize, usize)> {
    Seq::new(sh.len(), |i: int| cleared(sh[i], rows))
}

/// Whether every instruction but a measurement is on the wires.
pub open spec fn on_wires(instrs: Seq<DiagramInstr>, rows: usize) -> bool {
    forall|i: int|
        0 <= i < instrs.len() ==> (#[trigger] instrs[i])@ is Measure || instrs[i]@.range().1 < rows
}

/// The columns of the instructions of a diagram with `rows` wires.
pub fn assign_columns_svg(instrs: &Vec<DiagramInstr>, rows: usize) -> (r: Vec<usize>)
    requires
        rows > 0,
        on_wires(instrs@, rows),
    ensures
        nats(r@) == columns(cleared_all(shapes(instrs@), rows)),
        r.len() == instrs.len(),
        forall|i: int| 0 <= i < r.len() ==> #[trigger] r@[i] <= i,
{
    let mut v: Vec<(usize, usize)> = Vec::new();
    while v.len() < instrs.len()
        invariant
            rows > 0,
            v.len() <= instrs.len(),
            forall|i: int| 0 <= i < v.len() ==> #[trigger] v@[i] == cleared(instrs@[i]@, rows),
        decreases instrs.len() - v.len(),
    {
        let range = match &instrs[v.len()] {
            DiagramInstr::Measure { qubit, .. } => (*qubit, rows - 1),
            other => other.wire_range(),
        };
        v.push(range);
    }
    assert(v@ =~= cleared_all(shapes(instrs@), rows));
    assert forall|i: int| 0 <= i < v.len() && (#[trigger] v@[i]).0 <= v@[i].1 implies v@[i].1 < rows by {
        assert(instrs@[i]@ is Measure || instrs@[i]@.range().1 < rows);
    }
    pack(&v, rows)
}

/// What the first `m` of the listed instructions draw in a column.
pub open spec fn column_text(d: Diagram, g: Seq<nat>, x: nat, m: nat) -> Seq<char>
    decreases m,
{
    if m == 0 {
        Seq::empty()
    } else {
        column_text(d, g, x, (m - 1) as nat) + figure(
            d.instrs@[g[m - 1] as int]@,
            x,
            d.num_qubits,
            d.num_clbits,
        )
    }
}

/// What the first `c` columns hold.
pub open spec fn columns_text(d: Diagram, cols: Seq<nat>, c: nat) -> Seq<char>
    decreases c,
{
    if c == 0 {
        Seq::empty()
    } else {
        let g = members(cols, (c - 1) as nat, cols.len());
        columns_text(d, cols, (c - 1) as nat) + column_text(
            d,
            g,
            column_middle((c - 1) as nat),
            g.len(),
        )
    }
}

/// The first `n` wires, with their labels, up to `right`.
pub open spec fn wires_text(d: Diagram, right: nat, n: nat) -> Seq<char>
    decreases n,
{
    if n == 0 {
        Seq::empty()
    } else {
        let y = row_height((n - 1) as usize);
        let label = d.wire_labels@[n - 1]@;
        wires_text(d, right, (n - 1) as nat) + "<text x=\"10\" y=\""@ + coordinate(y)
            + "\" dominant-baseline=\"middle\">"@ + escaped(label, label.len()) + "</text>"@
            + line_tag(70, y, right, y)
    }
}

/// The first `n` classical wires, as double lines.
pub open spec fn bits_text(d: Diagram, right: nat, n: nat) -> Seq<char>
    decreases n,
{
    if n == 0 {
        Seq::empty()
    } else {
        let y = bit_height((n - 1) as usize, d.num_qubits);
        bits_text(d, right, (n - 1) as nat) + "<text x=\"10\" y=\""@ + coordinate(y)
            + "\" dominant-baseline=\"middle\">c"@ + decimal((n - 1) as nat) + "</text>"@ + line_tag(
            70,
            (y - 2) as nat,
            right,
            (y - 2) as nat,
        ) + line_tag(70, y + 2, right, y + 2)
    }
}

/// How many rows a diagram has room for.
pub open spec fn row_count(d: Diagram) -> usize {
    if d.num_qubits == 0 {
        1
    } else {
        d.num_qubits
    }
}

/// The height of a diagram.
pub open spec fn total_height(d: Diagram) -> nat {
    60 + 60 * row_count(d) as nat + if d.num_clbits > 0 {
        20 + 60 * d.num_clbits as nat
    } else {
        0nat
    }
}

/// The document: wires first, so that gates cover them.
pub open spec fn document(d: Diagram) -> Seq<char> {
    let cols = columns(cleared_all(shapes(d.instrs@), row_count(d)));
    let n = extent(cols, cols.len());
    "<svg xmlns=\"http://www.w3.org/2000/svg\" viewBox=\"0 0 "@ + coordinate(100 + 80 * n) + " "@
        + coordinate(total_height(d)) + "\" font-family=\"monospace\" font-size=\"14\">"@
        + wires_text(d, 70 + 80 * n, d.num_qubits as nat) + bits_text(
        d,
        70 + 80 * n,
        d.num_clbits as nat,
    ) + columns_text(d, cols, n) + "</svg>"@
}

fn push_wire(out: &mut String, d: &Diagram, right: u128, row: usize)
    requires
        row < d.wire_labels.len(),
    ensures
        ({
            let y = row_height(row);
            let label = d.wire_labels@[row as int]@;
            final(out)@ == old(out)@ + "<text x=\"10\" y=\""@ + coordinate(y)
                + "\" dominant-baseline=\"middle\">"@ + escaped(label, label.len()) + "</text>"@
                + line_tag(70, y, right as nat, y)
        }),
{
    let y: u128 = row_y(row);
    out.append("<text x=\"10\" y=\"");
    push_coordinate(out, y);
    out.append("\" dominant-baseline=\"middle\">");
    push_escaped(out, d.wire_labels[row].as_str());
    out.append("</text>");
    push_line(out, 70, y, right, y);
}

fn push_bit(out: &mut String, d: &Diagram, right: u128, bit: usize)
    ensures
        ({
            let y = bit_height(bit, d.num_qubits);
            final(out)@ == old(out)@ + "<text x=\"10\" y=\""@ + coordinate(y)
                + "\" dominant-baseline=\"middle\">c"@ + decimal(bit as nat) + "</text>"@ + line_tag(
                70,
                (y - 2) as nat,
                right as nat,
                (y - 2) as nat,
            ) + line_tag(70, y + 2, right as nat, y + 2)
        }),
{
    let y: u128 = row_y_clbit(bit, d.num_qubits);
    out.append("<text x=\"10\" y=\"");
    push_coordinate(out, y);
    out.append("\" dominant-baseline=\"middle\">c");
    push_decimal(out, bit as u128);
    out.append("</text>");
    push_line(out, 70, y - 2, right, y - 2);
    push_line(out, 70, y + 2, right, y + 2);
}

fn push_column(out: &mut String, d: &Diagram, group: &Vec<usize>, x: u128)
    requires
        30 <= x < u128::MAX - 30,
        forall|m: int| 0 <= m < group.len() ==> (#[trigger] group@[m]) < d.instrs.len(),
    ensures
        final(out)@ == old(out)@ + column_text(*d, nats(group@), x as nat, group@.len()),
{
    let ghost before = out@;
    let mut m: usize = 0;
    assert(before + column_text(*d, nats(group@), x as nat, 0) =~= before);
    while m < group.len()
        invariant
            30 <= x < u128::MAX - 30,
            forall|m: int| 0 <= m < group.len() ==> (#[trigger] group@[m]) < d.instrs.len(),
            m <= group.len(),
            out@ == before + column_text(*d, nats(group@), x as nat, m as nat),
        decreases group.len() - m,
    {
        draw(out, &d.instrs[group[m]], x, d.num_qubits, d.num_clbits);
        assert(nats(group@)[m as int] == group@[m as int]);
        m = m + 1;
        assert(out@ =~= before + column_text(*d, nats(group@), x as nat, m as nat));
    }
}

fn push_wires(out: &mut String, d: &Diagram, right: u128)
    requires
        d.num_qubits <= d.wire_labels.len(),
    ensures
        final(out)@ == old(out)@ + wires_text(*d, right as nat, d.num_qubits as nat),
{
    let ghost head = out@;
    let mut row: usize = 0;
    assert(head + wires_text(*d, right as nat, 0) =~= head);
    while row < d.num_qubits
        invariant
            d.num_qubits <= d.wire_labels.len(),
            row <= d.num_qubits,
            out@ == head + wires_text(*d, right as nat, row as nat),
        decreases d.num_qubits - row,
    {
        push_wire(out, d, right, row);
        row = row + 1;
        assert(out@ =~= head + wires_text(*d, right as nat, row as nat));
    }
}

fn push_bits(out: &mut String, d: &Diagram, right: u128)
    ensures
        final(out)@ == old(out)@ + bits_text(*d, right as nat, d.num_clbits as nat),
{
    let ghost head = out@;
    let mut bit: usize = 0;
    assert(head + bits_text(*d, right as nat, 0) =~= head);
    while bit < d.num_clbits
        invariant
            bit <= d.num_clbits,
            out@ == head + bits_text(*d, right as nat, bit as nat),
        decreases d.num_clbits - bit,
    {
        push_bit(out, d, right, bit);
        bit = bit + 1;
        assert(out@ =~= head + bits_text(*d, right as nat, bit as nat));
    }
}

fn push_columns(out: &mut String, d: &Diagram, groups: &Vec<Vec<usize>>, Ghost(cols): Ghost<Seq<nat>>)
    requires
        cols.len() == d.instrs.len(),
        forall|c: int|
            0 <= c < groups.len() ==> nats((#[trigger] groups@[c])@) == members(
                cols,
                c as nat,
                cols.len(),
            ),
    ensures
        final(out)@ == old(out)@ + columns_text(*d, cols, groups@.len()),
{
    let ghost head = out@;
    let mut c: usize = 0;
    assert(head + columns_text(*d, cols, 0) =~= head);
    while c < groups.len()
        invariant
            cols.len() == d.instrs.len(),
            forall|c: int|
                0 <= c < groups.len() ==> nats((#[trigger] groups@[c])@) == members(
                    cols,
                    c as nat,
                    cols.len(),
                ),
            c <= groups.len(),
            out@ == head + columns_text(*d, cols, c as nat),
        decreases groups.len() - c,
    {
        proof {
            lemma_group_in_range(groups@[c as int]@, cols, c as nat);
        }
        push_column(out, d, &groups[c], 110 + 80 * c as u128);
        c = c + 1;
        assert(out@ =~= head + columns_text(*d, cols, c as nat));
    }
}

/// Draws a diagram as an SVG document.
pub fn render(diagram: &Diagram) -> (r: String)
    requires
        diagram.num_qubits <= diagram.wire_labels.len(),
        on_wires(diagram.instrs@, row_count(*diagram)),
    ensures
        r@ == document(*diagram),
{
    let rows: usize = if diagram.num_qubits == 0 {
        1
    } else {
        diagram.num_qubits
    };
    let ghost cols = columns(cleared_all(shapes(diagram.instrs@), rows));
    let places = assign_columns_svg(&diagram.instrs, rows);
    let groups = group_by_column(&places);
    let right: u128 = 70 + 80 * groups.len() as u128;
    let mut height: u128 = 60 + 60 * rows as u128;
    if diagram.num_clbits > 0 {
        height = height + (20 + 60 * diagram.num_clbits as u128);
    }
    let mut out = String::from_str("<svg xmlns=\"http://www.w3.org/2000/svg\" viewBox=\"0 0 ");
    push_coordinate(&mut out, right + 30);
    out.append(" ");
    push_coordinate(&mut out, height);
    out.append("\" font-family=\"monospace\" font-size=\"14\">");
    push_wires(&mut out, diagram, right);
    push_bits(&mut out, diagram, right);
    push_columns(&mut out, diagram, &groups, Ghost(cols));
    out.append("</svg>");
    out
}

} // verus!
