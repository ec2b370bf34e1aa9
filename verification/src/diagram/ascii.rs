//! Draws diagrams as text.
use super::columns::{columns, extent, group_by_column, lemma_members, members, nats, pack};
use super::{shapes, Diagram, DiagramInstr, Shape};
use crate::text::{chars_of, decimal, push_chars, push_decimal, spelled};
use vstd::prelude::*;

verus! {

/// What an instruction draws on a wire of its own; nothing on a wire that
/// its line only crosses.
pub open spec fn mark(s: Shape, row: usize) -> Option<Seq<char>> {
    match s {
        Shape::Single { qubit, label } => if qubit == row {
            Some("["@ + label + "]"@)
        } else {
            None
        },
        Shape::Measure { qubit, clbit } => if qubit == row {
            Some("[M->c"@ + decimal(clbit as nat) + "]"@)
        } else {
            None
        },
        Shape::Controlled { controls, target, target_label } => if row == target {
            match target_label {
                Some(l) => if l == "X"@ {
                    Some("(+)"@)
                } else {
                    Some("["@ + l + "]"@)
                },
                None => Some("*"@),
            }
        } else if controls.contains(row) {
            Some("*"@)
        } else {
            None
        },
        Shape::Span { qubits, label } => if row == qubits.0 || row == qubits.1 {
            Some("["@ + label + "]"@)
        } else {
            None
        },
        Shape::Swap { a, b } => if row == a || row == b {
            Some("X"@)
        } else {
            None
        },
    }
}

/// What an instruction puts on a wire that it covers.
pub open spec fn drawn(s: Shape, row: usize) -> Seq<char> {
    match mark(s, row) {
        Some(t) => t,
        None => "|"@,
    }
}

fn boxed(label: &str) -> (r: String)
    ensures
        r@ == "["@ + label@ + "]"@,
{
    let mut s = String::from_str("[");
    s.append(label);
    s.append("]");
    s
}

fn listed(v: &Vec<usize>, x: usize) -> (r: bool)
    ensures
        r == v@.contains(x),
{
    let mut i: usize = 0;
    while i < v.len()
        invariant
            i <= v.len(),
            forall|k: int| 0 <= k < i ==> v@[k] != x,
        decreases v.len() - i,
    {
        if v[i] == x {
            return true;
        }
        i = i + 1;
    }
    false
}

fn cell_content(instr: &DiagramInstr, row: usize) -> (r: Option<String>)
    ensures
        match r {
            Some(t) => mark(instr@, row) == Some(t@),
            None => mark(instr@, row) is None,
        },
{
    match instr {
        DiagramInstr::Single { qubit, label } => if *qubit == row {
            Some(boxed(label.as_str()))
        } else {
            None
        },
        DiagramInstr::Measure { qubit, clbit } => if *qubit == row {
            let mut s = String::from_str("[M->c");
            push_decimal(&mut s, *clbit as u128);
            s.append("]");
            Some(s)
        } else {
            None
        },
        DiagramInstr::Controlled { controls, target, target_label } => {
            if row == *target {
                match target_label {
                    Some(l) => {
                        if spelled(&chars_of(l.as_str()), "X") {
                            Some(String::from_str("(+)"))
                        } else {
                            Some(boxed(l.as_str()))
                        }
                    },
                    None => Some(String::from_str("*")),
                }
            } else if listed(controls, row) {
                Some(String::from_str("*"))
            } else {
                None
            }
        },
        DiagramInstr::Span { qubits, label } => if row == qubits.0 || row == qubits.1 {
            Some(boxed(label.as_str()))
        } else {
            None
        },
        DiagramInstr::Swap { a, b } => if row == *a || row == *b {
            Some(String::from_str("X"))
        } else {
            None
        },
    }
}

fn drawn_chars(instr: &DiagramInstr, row: usize) -> (r: Vec<char>)
    ensures
        r@ == drawn(instr@, row),
{
    match cell_content(instr, row) {
        Some(t) => chars_of(t.as_str()),
        None => chars_of("|"),
    }
}

/// The ranges of wires of the instructions.
pub open spec fn ranges(sh: Seq<Shape>) -> Seq<(usize, usize)> {
    sh.map_values(|s: Shape| s.range())
}

/// The widest text that an instruction puts on the wires from `lo` to before
/// `hi`.
pub open spec fn widest(s: Shape, lo: int, hi: int) -> nat
    decreases hi - lo,
{
    if hi <= lo {
        0
    } else {
        let rest = widest(s, lo, hi - 1);
        let n = drawn(s, (hi - 1) as usize).len();
        if n > rest {
            n
        } else {
            rest
        }
    }
}

/// The width of a column with the first `m` of the listed instructions.
pub open spec fn width(sh: Seq<Shape>, g: Seq<nat>, m: nat) -> nat
    decreases m,
{
    if m == 0 {
        1
    } else {
        let rest = width(sh, g, (m - 1) as nat);
        let s = sh[g[m - 1] as int];
        let n = widest(s, s.range().0 as int, s.range().1 + 1);
        if n > rest {
            n
        } else {
            rest
        }
    }
}

/// What the first `m` of the listed instructions put on a wire.
pub open spec fn cell(sh: Seq<Shape>, g: Seq<nat>, row: usize, m: nat) -> Seq<char>
    decreases m,
{
    if m == 0 {
        Seq::empty()
    } else if sh[g[m - 1] as int].covers(row) {
        drawn(sh[g[m - 1] as int], row)
    } else {
        cell(sh, g, row, (m - 1) as nat)
    }
}

pub open spec fn repeated(c: char, n: nat) -> Seq<char>
    decreases n,
{
    if n == 0 {
        Seq::empty()
    } else {
        repeated(c, (n - 1) as nat).push(c)
    }
}

/// A text in the middle of a stretch of wire; the odd place is on the right.
pub open spec fn centered(t: Seq<char>, w: nat) -> Seq<char> {
    if t.len() >= w {
        t
    } else {
        let pad = (w - t.len()) as nat;
        repeated('-', pad / 2) + t + repeated('-', (pad - pad / 2) as nat)
    }
}

/// A wire through the first `c` columns.
pub open spec fn wire(sh: Seq<Shape>, cols: Seq<nat>, row: usize, c: nat) -> Seq<char>
    decreases c,
{
    if c == 0 {
        Seq::empty()
    } else {
        let g = members(cols, (c - 1) as nat, cols.len());
        wire(sh, cols, row, (c - 1) as nat) + centered(
            cell(sh, g, row, g.len()),
            width(sh, g, g.len()),
        )
    }
}

/// How many bytes a character takes.
pub open spec fn encoded(c: char) -> nat {
    if (c as u32) < 0x80 {
        1
    } else if (c as u32) < 0x800 {
        2
    } else if (c as u32) < 0x1_0000 {
        3
    } else {
        4
    }
}

/// How many bytes the first `n` characters take.
pub open spec fn byte_len(s: Seq<char>, n: nat) -> nat
    decreases n,
{
    if n == 0 {
        0
    } else {
        byte_len(s, (n - 1) as nat) + encoded(s[n - 1])
    }
}

/// The longest of the first `n` labels, in bytes.
pub open spec fn gutter(labels: Seq<String>, n: nat) -> nat
    decreases n,
{
    if n == 0 {
        0
    } else {
        let rest = gutter(labels, (n - 1) as nat);
        let last = byte_len(labels[n - 1]@, labels[n - 1]@.len());
        if last > rest {
            last
        } else {
            rest
        }
    }
}

/// A label on the right of the gutter, and the wire.
pub open spec fn line(d: Diagram, row: usize) -> Seq<char> {
    let sh = shapes(d.instrs@);
    let cols = columns(ranges(sh));
    let label = d.wire_labels@[row as int]@;
    repeated(' ', (gutter(d.wire_labels@, d.wire_labels@.len()) - label.len()) as nat) + label + ": "@
        + wire(sh, cols, row, extent(cols, cols.len()))
}

/// The first `n` lines.
pub open spec fn lines(d: Diagram, n: nat) -> Seq<char>
    decreases n,
{
    if n == 0 {
        Seq::empty()
    } else if n == 1 {
        line(d, 0)
    } else {
        lines(d, (n - 1) as nat) + "\n"@ + line(d, (n - 1) as usize)
    }
}

/// Whether every wire of a diagram has a label, and every instruction is on
/// its wires.
pub open spec fn drawable(d: Diagram) -> bool {
    &&& d.num_qubits <= d.wire_labels.len()
    &&& forall|i: int| 0 <= i < d.instrs.len() ==> (#[trigger] d.instrs@[i])@.range().1 < d.num_qubits
}

proof fn lemma_byte_len(s: Seq<char>, n: nat)
    requires
        n <= s.len(),
    ensures
        n <= byte_len(s, n) <= 4 * n,
    decreases n,
{
    if n > 0 {
        lemma_byte_len(s, (n - 1) as nat);
    }
}

proof fn lemma_gutter(labels: Seq<String>, n: nat)
    requires
        n <= labels.len(),
    ensures
        forall|i: int|
            0 <= i < n ==> (#[trigger] labels[i])@.len() <= gutter(labels, n),
    decreases n,
{
    if n > 0 {
        lemma_gutter(labels, (n - 1) as nat);
        lemma_byte_len(labels[n - 1]@, labels[n - 1]@.len());
    }
}

proof fn lemma_repeated(c: char, n: nat)
    ensures
        repeated(c, n).len() == n,
    decreases n,
{
    if n > 0 {
        lemma_repeated(c, (n - 1) as nat);
    }
}

proof fn lemma_widest(s: Shape, lo: int, hi: int, row: usize)
    requires
        lo <= row < hi,
    ensures
        drawn(s, row).len() <= widest(s, lo, hi),
    decreases hi - lo,
{
    if row < hi - 1 {
        lemma_widest(s, lo, hi - 1, row);
    }
}

/// What stands on a wire fits its column.
proof fn lemma_cell_fits(sh: Seq<Shape>, g: Seq<nat>, row: usize, m: nat)
    requires
        m <= g.len(),
    ensures
        cell(sh, g, row, m).len() <= width(sh, g, m),
    decreases m,
{
    if m > 0 {
        lemma_cell_fits(sh, g, row, (m - 1) as nat);
        let s = sh[g[m - 1] as int];
        if s.covers(row) {
            lemma_widest(s, s.range().0 as int, s.range().1 + 1, row);
        }
    }
}

proof fn lemma_wire_len(sh: Seq<Shape>, cols: Seq<nat>, a: usize, b: usize, c: nat)
    ensures
        wire(sh, cols, a, c).len() == wire(sh, cols, b, c).len(),
    decreases c,
{
    if c > 0 {
        lemma_wire_len(sh, cols, a, b, (c - 1) as nat);
        let g = members(cols, (c - 1) as nat, cols.len());
        let w = width(sh, g, g.len());
        lemma_centered_len(sh, g, a, g.len());
        lemma_centered_len(sh, g, b, g.len());
    }
}

proof fn lemma_centered_len(sh: Seq<Shape>, g: Seq<nat>, row: usize, m: nat)
    requires
        m <= g.len(),
    ensures
        centered(cell(sh, g, row, m), width(sh, g, m)).len() == width(sh, g, m),
{
    lemma_cell_fits(sh, g, row, m);
    let t = cell(sh, g, row, m);
    let pad = (width(sh, g, m) - t.len()) as nat;
    lemma_repeated('-', pad / 2);
    lemma_repeated('-', (pad - pad / 2) as nat);
}

/// All lines have the same length, so columns line up.
pub proof fn lemma_lines_align(d: Diagram, a: usize, b: usize)
    requires
        drawable(d),
        a < d.num_qubits,
        b < d.num_qubits,
    ensures
        line(d, a).len() == line(d, b).len(),
{
    let sh = shapes(d.instrs@);
    let cols = columns(ranges(sh));
    let n = gutter(d.wire_labels@, d.wire_labels@.len());
    lemma_wire_len(sh, cols, a, b, extent(cols, cols.len()));
    lemma_gutter(d.wire_labels@, d.wire_labels@.len());
    assert(d.wire_labels@[a as int]@.len() <= n && d.wire_labels@[b as int]@.len() <= n);
    lemma_repeated(' ', (n - d.wire_labels@[a as int]@.len()) as nat);
    lemma_repeated(' ', (n - d.wire_labels@[b as int]@.len()) as nat);
}

fn push_repeated(s: &mut String, c: char, n: u128)
    ensures
        final(s)@ == old(s)@ + repeated(c, n as nat),
{
    let ghost before = s@;
    let mut k: u128 = 0;
    assert(before + repeated(c, 0) =~= before);
    while k < n
        invariant
            k <= n,
            s@ == before + repeated(c, k as nat),
        decreases n - k,
    {
        s.push(c);
        k = k + 1;
        assert(s@ =~= before + repeated(c, k as nat));
    }
}

fn push_centered(s: &mut String, t: &Vec<char>, w: usize)
    ensures
        final(s)@ == old(s)@ + centered(t@, w as nat),
{
    let ghost before = s@;
    if t.len() >= w {
        push_chars(s, t);
    } else {
        let pad: usize = w - t.len();
        push_repeated(s, '-', (pad / 2) as u128);
        push_chars(s, t);
        push_repeated(s, '-', (pad - pad / 2) as u128);
        assert(s@ =~= before + centered(t@, w as nat));
    }
}

fn label_bytes(s: &Vec<char>) -> (r: u128)
    ensures
        r == byte_len(s@, s@.len()),
{
    let mut total: u128 = 0;
    let mut i: usize = 0;
    while i < s.len()
        invariant
            i <= s.len(),
            total == byte_len(s@, i as nat),
            total <= 4 * i,
        decreases s.len() - i,
    {
        let c: u32 = s[i] as u32;
        let size: u128 = if c < 0x80 {
            1
        } else if c < 0x800 {
            2
        } else if c < 0x1_0000 {
            3
        } else {
            4
        };
        total = total + size;
        i = i + 1;
    }
    total
}

fn label_width(labels: &Vec<String>) -> (r: u128)
    ensures
        r == gutter(labels@, labels@.len()),
{
    let mut best: u128 = 0;
    let mut i: usize = 0;
    while i < labels.len()
        invariant
            i <= labels.len(),
            best == gutter(labels@, i as nat),
        decreases labels.len() - i,
    {
        let n: u128 = label_bytes(&chars_of(labels[i].as_str()));
        if n > best {
            best = n;
        }
        i = i + 1;
    }
    best
}

/// The columns of the instructions of a diagram with `num_qubits` wires.
pub fn assign_columns(instrs: &Vec<DiagramInstr>, num_qubits: usize) -> (r: Vec<usize>)
    requires
        forall|i: int|
            0 <= i < instrs.len() ==> (#[trigger] instrs@[i])@.range().1 < num_qubits || instrs@[i]@.range().1
                == 0,
    ensures
        nats(r@) == columns(ranges(shapes(instrs@))),
        r.len() == instrs.len(),
        forall|i: int| 0 <= i < r.len() ==> #[trigger] r@[i] <= i,
{
    let mut v: Vec<(usize, usize)> = Vec::new();
    while v.len() < instrs.len()
        invariant
            v.len() <= instrs.len(),
            forall|i: int| 0 <= i < v.len() ==> #[trigger] v@[i] == instrs@[i]@.range(),
        decreases instrs.len() - v.len(),
    {
        let range = instrs[v.len()].wire_range();
        v.push(range);
    }
    assert(v@ =~= ranges(shapes(instrs@)));
    let rows: usize = if num_qubits == 0 {
        1
    } else {
        num_qubits
    };
    assert forall|i: int| 0 <= i < v.len() implies (#[trigger] v@[i]).1 < rows by {
        assert(instrs@[i]@.range().1 < num_qubits || instrs@[i]@.range().1 == 0);
    }
    pack(&v, rows)
}

fn column_width(instrs: &Vec<DiagramInstr>, group: &Vec<usize>) -> (r: usize)
    requires
        forall|m: int| 0 <= m < group.len() ==> (#[trigger] group@[m]) < instrs.len(),
        forall|i: int| 0 <= i < instrs.len() ==> (#[trigger] instrs@[i])@.range().1 < usize::MAX,
    ensures
        r == width(shapes(instrs@), nats(group@), group@.len()),
{
    let ghost sh = shapes(instrs@);
    let ghost g = nats(group@);
    let mut best: usize = 1;
    let mut m: usize = 0;
    while m < group.len()
        invariant
            sh == shapes(instrs@),
            g == nats(group@),
            m <= group.len(),
            forall|m: int| 0 <= m < group.len() ==> (#[trigger] group@[m]) < instrs.len(),
            forall|i: int| 0 <= i < instrs.len() ==> (#[trigger] instrs@[i])@.range().1 < usize::MAX,
            best == width(sh, g, m as nat),
        decreases group.len() - m,
    {
        let instr = &instrs[group[m]];
        let (lo, hi) = instr.wire_range();
        assert(sh[g[m as int] as int] == instr@);
        let ghost start = best;
        let mut row: usize = lo;
        while row <= hi
            invariant
                (lo, hi) == instr@.range(),
                hi < usize::MAX,
                lo <= row,
                row <= hi + 1 || hi < lo,
                best == (if widest(instr@, lo as int, row as int) > start {
                    widest(instr@, lo as int, row as int)
                } else {
                    start as nat
                }),
            decreases hi + 1 - row,
        {
            let n: usize = drawn_chars(instr, row).len();
            if n > best {
                best = n;
            }
            row = row + 1;
        }
        proof {
            if hi < lo {
                assert(widest(instr@, lo as int, hi + 1) == 0);
            }
        }
        m = m + 1;
    }
    best
}

fn cell_chars(instrs: &Vec<DiagramInstr>, group: &Vec<usize>, row: usize) -> (r: Vec<char>)
    requires
        forall|m: int| 0 <= m < group.len() ==> (#[trigger] group@[m]) < instrs.len(),
    ensures
        r@ == cell(shapes(instrs@), nats(group@), row, group@.len()),
{
    let ghost sh = shapes(instrs@);
    let ghost g = nats(group@);
    let mut m: usize = group.len();
    while m > 0
        invariant
            sh == shapes(instrs@),
            g == nats(group@),
            m <= group.len(),
            forall|m: int| 0 <= m < group.len() ==> (#[trigger] group@[m]) < instrs.len(),
            cell(sh, g, row, group@.len()) == cell(sh, g, row, m as nat),
        decreases m,
    {
        m = m - 1;
        let instr = &instrs[group[m]];
        assert(sh[g[m as int] as int] == instr@);
        let (lo, hi) = instr.wire_range();
        if lo <= row && row <= hi {
            return drawn_chars(instr, row);
        }
    }
    Vec::new()
}

/// Draws the diagram as text: a line for each wire.
pub fn render(diagram: &Diagram) -> (r: String)
    requires
        diagram.num_qubits > 0 ==> drawable(*diagram),
    ensures
        r@ == lines(*diagram, diagram.num_qubits as nat),
{
    let mut out = String::from_str("");
    proof {
        reveal_strlit("");
        assert(out@ =~= lines(*diagram, 0));
    }
    if diagram.num_qubits == 0 {
        return out;
    }
    let ghost sh = shapes(diagram.instrs@);
    let ghost cols = columns(ranges(sh));
    let places = assign_columns(&diagram.instrs, diagram.num_qubits);
    let groups = group_by_column(&places);
    let mut widths: Vec<usize> = Vec::new();
    while widths.len() < groups.len()
        invariant
            drawable(*diagram),
            sh == shapes(diagram.instrs@),
            cols == nats(places@),
            places.len() == diagram.instrs.len(),
            widths.len() <= groups.len(),
            forall|c: int|
                0 <= c < groups.len() ==> nats((#[trigger] groups@[c])@) == members(
                    cols,
                    c as nat,
                    cols.len(),
                ),
            forall|c: int|
                0 <= c < widths.len() ==> #[trigger] widths@[c] == width(
                    sh,
                    members(cols, c as nat, cols.len()),
                    members(cols, c as nat, cols.len()).len(),
                ),
        decreases groups.len() - widths.len(),
    {
        let c: usize = widths.len();
        proof {
            lemma_group_in_range(groups@[c as int]@, cols, c as nat);
        }
        let w: usize = column_width(&diagram.instrs, &groups[c]);
        widths.push(w);
    }
    let gap: u128 = label_width(&diagram.wire_labels);
    let mut row: usize = 0;
    while row < diagram.num_qubits
        invariant
            drawable(*diagram),
            sh == shapes(diagram.instrs@),
            cols == columns(ranges(sh)),
            cols == nats(places@),
            places.len() == diagram.instrs.len(),
            groups.len() == extent(cols, cols.len()),
            widths.len() == groups.len(),
            gap == gutter(diagram.wire_labels@, diagram.wire_labels@.len()),
            forall|c: int|
                0 <= c < groups.len() ==> nats((#[trigger] groups@[c])@) == members(
                    cols,
                    c as nat,
                    cols.len(),
                ),
            forall|c: int|
                0 <= c < widths.len() ==> #[trigger] widths@[c] == width(
                    sh,
                    members(cols, c as nat, cols.len()),
                    members(cols, c as nat, cols.len()).len(),
                ),
            row <= diagram.num_qubits,
            out@ == lines(*diagram, row as nat),
        decreases diagram.num_qubits - row,
    {
        if row > 0 {
            out.append("\n");
        }
        let ghost start = out@;
        let label = chars_of(diagram.wire_labels[row].as_str());
        proof {
            lemma_gutter(diagram.wire_labels@, diagram.wire_labels@.len());
            assert(diagram.wire_labels@[row as int]@.len() <= gap);
        }
        push_repeated(&mut out, ' ', gap - label.len() as u128);
        push_chars(&mut out, &label);
        out.append(": ");
        let ghost head = out@;
        let mut c: usize = 0;
        assert(head + wire(sh, cols, row, 0) =~= head);
        while c < groups.len()
            invariant
                sh == shapes(diagram.instrs@),
                cols == nats(places@),
                places.len() == diagram.instrs.len(),
                widths.len() == groups.len(),
                forall|c: int|
                    0 <= c < groups.len() ==> nats((#[trigger] groups@[c])@) == members(
                        cols,
                        c as nat,
                        cols.len(),
                    ),
                forall|c: int|
                    0 <= c < widths.len() ==> #[trigger] widths@[c] == width(
                        sh,
                        members(cols, c as nat, cols.len()),
                        members(cols, c as nat, cols.len()).len(),
                    ),
                c <= groups.len(),
                out@ == head + wire(sh, cols, row, c as nat),
            decreases groups.len() - c,
        {
            proof {
                lemma_group_in_range(groups@[c as int]@, cols, c as nat);
            }
            let ghost so_far = out@;
            let t = cell_chars(&diagram.instrs, &groups[c], row);
            push_centered(&mut out, &t, widths[c]);
            c = c + 1;
            assert(out@ =~= head + wire(sh, cols, row, c as nat));
        }
        assert(out@ =~= start + line(*diagram, row));
        row = row + 1;
        assert(out@ =~= lines(*diagram, row as nat));
    }
    out
}

pub(crate) proof fn lemma_group_in_range(group: Seq<usize>, cols: Seq<nat>, c: nat)
    requires
        nats(group) == members(cols, c, cols.len()),
    ensures
        forall|m: int| 0 <= m < group.len() ==> (#[trigger] group[m]) < cols.len(),
{
    lemma_members(cols, c, cols.len());
    assert forall|m: int| 0 <= m < group.len() implies (#[trigger] group[m]) < cols.len() by {
        assert(nats(group)[m] == group[m]);
    }
}

} // verus!
