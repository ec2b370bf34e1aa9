//! What [`crate::emit`] writes, [`crate::qasm`] reads back.
use crate::binary64::{Binary64, NAN_BITS};
use crate::display::shown;
use crate::emit::{bit_value, circuit_text, gate_text, gates_text, guards, preamble, Dialect};
use crate::ir::{Conditions, Gate};
use crate::native::{NativeCircuit, NativeGate};
use crate::number::number;
use crate::numerals::{
    is_digit, lemma_decimal_digits, lemma_decimal_value, lemma_digits_end, lemma_number_shown,
    lemma_shown_chars, number_char,
};
use crate::qasm::{
    after_parameters, applied, assigned, circuit_of, code, condition, cut, gate_in_range,
    gate_statement, if_statement, index_list, index_ref, is_assignment, lines, measure_statement,
    name_end, named_gate, number_list, parameters, qubit_list, read_statements, declared_size,
    register_size, scan, scan_line, statement, statements, whole_number, Effect, Line, Reading,
    Scan,
};
use crate::text::{
    decimal, find, find_two, is_space, lemma_find, pieces, space_end, space_start, trim, trim_start,
};
use vstd::prelude::*;

verus! {

/// Whether a character does not occur.
spec fn lacks(s: Seq<char>, c: char) -> bool {
    forall|i: int| 0 <= i < s.len() ==> #[trigger] s[i] != c
}

/// Whether all characters are white space.
spec fn blank(s: Seq<char>) -> bool {
    forall|i: int| 0 <= i < s.len() ==> is_space(#[trigger] s[i])
}

/// Whether a text is not empty and has no white space at its ends.
spec fn tight(s: Seq<char>) -> bool {
    s.len() > 0 && !is_space(s[0]) && !is_space(s.last())
}

proof fn lemma_find_at(s: Seq<char>, c: char, k: int)
    requires
        0 <= k <= s.len(),
        forall|i: int| 0 <= i < k ==> #[trigger] s[i] != c,
        k < s.len() ==> s[k] == c,
    ensures
        find(s, c, 0) == k,
{
    lemma_find(s, c, 0);
}

proof fn lemma_find_two_from(s: Seq<char>, a: char, b: char, i: int, k: int)
    requires
        0 <= i <= k <= s.len(),
        forall|j: int| i <= j < k && j + 1 < s.len() ==> #[trigger] s[j] != a || s[j + 1] != b,
        k < s.len() ==> k + 1 < s.len() && s[k] == a && s[k + 1] == b,
    ensures
        find_two(s, a, b, i) == k,
    decreases k - i,
{
    if i < k && i + 1 < s.len() {
        assert(s[i] != a || s[i + 1] != b);
        lemma_find_two_from(s, a, b, i + 1, k);
    }
}

proof fn lemma_find_two_none(s: Seq<char>, a: char, b: char)
    requires
        lacks(s, a),
    ensures
        find_two(s, a, b, 0) == s.len(),
{
    lemma_find_two_from(s, a, b, 0, s.len() as int);
}

proof fn lemma_pieces_one(s: Seq<char>, c: char)
    requires
        lacks(s, c),
    ensures
        pieces(s, c) == seq![s],
{
    lemma_find_at(s, c, s.len() as int);
}

proof fn lemma_pieces_two(a: Seq<char>, c: char, b: Seq<char>)
    requires
        lacks(a, c),
        lacks(b, c),
    ensures
        pieces(a.push(c) + b, c) == seq![a, b],
{
    let s = a.push(c) + b;
    assert forall|i: int| 0 <= i < a.len() implies #[trigger] s[i] != c by {
        assert(s[i] == a[i]);
    }
    lemma_find_at(s, c, a.len() as int);
    assert(s.take(a.len() as int) =~= a);
    assert(s.skip(a.len() as int + 1) =~= b);
    lemma_pieces_one(b, c);
    assert(seq![a] + seq![b] =~= seq![a, b]);
}

proof fn lemma_space_end_at(s: Seq<char>, i: int, k: int)
    requires
        0 <= i <= k <= s.len(),
        forall|j: int| i <= j < k ==> is_space(#[trigger] s[j]),
        k < s.len() ==> !is_space(s[k]),
    ensures
        space_end(s, i) == k,
    decreases k - i,
{
    if i < k {
        lemma_space_end_at(s, i + 1, k);
    }
}

proof fn lemma_space_start_at(s: Seq<char>, n: int, k: int)
    requires
        0 <= k <= n <= s.len(),
        forall|j: int| k <= j < n ==> is_space(#[trigger] s[j]),
        k > 0 ==> !is_space(s[k - 1]),
    ensures
        space_start(s, n) == k,
    decreases n - k,
{
    if k < n {
        lemma_space_start_at(s, n - 1, k);
    }
}

/// White space around a text goes away.
proof fn lemma_trim(a: Seq<char>, s: Seq<char>, b: Seq<char>)
    requires
        blank(a),
        blank(b),
        tight(s),
    ensures
        trim(a + s + b) == s,
        trim_start(a + s + b) == s + b,
{
    let t = a + s + b;
    assert forall|j: int| 0 <= j < a.len() implies is_space(#[trigger] t[j]) by {
        assert(t[j] == a[j]);
    }
    assert(t[a.len() as int] == s[0]);
    lemma_space_end_at(t, 0, a.len() as int);
    let u = t.skip(a.len() as int);
    assert(u =~= s + b);
    assert forall|j: int| s.len() <= j < u.len() implies is_space(#[trigger] u[j]) by {
        assert(u[j] == b[j - s.len()]);
    }
    assert(u[s.len() - 1] == s.last());
    lemma_space_start_at(u, u.len() as int, s.len() as int);
    assert(u.take(s.len() as int) =~= s);
}

proof fn lemma_trim_tight(s: Seq<char>)
    requires
        tight(s),
    ensures
        trim(s) == s,
        trim_start(s) == s,
{
    let none = Seq::<char>::empty();
    lemma_trim(none, s, none);
    assert(none + s + none =~= s);
    assert(s + none =~= s);
}

proof fn lemma_trim_blank(s: Seq<char>)
    requires
        blank(s),
    ensures
        trim(s).len() == 0,
{
    lemma_space_end_at(s, 0, s.len() as int);
    assert(s.skip(s.len() as int) =~= Seq::<char>::empty());
}

proof fn lemma_not_prefix(p: Seq<char>, s: Seq<char>, i: int)
    requires
        0 <= i < p.len(),
        i < s.len(),
        p[i] != s[i],
    ensures
        !p.is_prefix_of(s),
{
    if p.is_prefix_of(s) {
        assert(s.subrange(0, p.len() as int)[i] == s[i]);
    }
}

proof fn lemma_prefix(p: Seq<char>, rest: Seq<char>)
    ensures
        p.is_prefix_of(p + rest),
        (p + rest).skip(p.len() as int) == rest,
{
    assert((p + rest).subrange(0, p.len() as int) =~= p);
    assert((p + rest).skip(p.len() as int) =~= rest);
}

/// Digits are neither white space nor any sign of the language.
proof fn lemma_digit_plain(c: char)
    requires
        is_digit(c),
    ensures
        !is_space(c),
        c != '[' && c != ']' && c != '(' && c != ')' && c != ',' && c != ';' && c != '=' && c != '-'
            && c != '>' && c != '/' && c != '\n' && c != '\r' && c != '+',
{
}

/// A numeral holds none of the signs.
proof fn lemma_numeral_plain(n: nat)
    ensures
        decimal(n).len() > 0,
        tight(decimal(n)),
        forall|i: int|
            0 <= i < decimal(n).len() ==> !is_space(#[trigger] decimal(n)[i]) && decimal(n)[i] != '['
                && decimal(n)[i] != ']' && decimal(n)[i] != '(' && decimal(n)[i] != ')'
                && decimal(n)[i] != ',' && decimal(n)[i] != ';' && decimal(n)[i] != '='
                && decimal(n)[i] != '-' && decimal(n)[i] != '>' && decimal(n)[i] != '/'
                && decimal(n)[i] != '\n' && decimal(n)[i] != '\r' && decimal(n)[i] != '+',
{
    lemma_decimal_digits(n);
    assert forall|i: int| 0 <= i < decimal(n).len() implies !is_space(#[trigger] decimal(n)[i])
        && decimal(n)[i] != '[' && decimal(n)[i] != ']' && decimal(n)[i] != '(' && decimal(n)[i]
        != ')' && decimal(n)[i] != ',' && decimal(n)[i] != ';' && decimal(n)[i] != '='
        && decimal(n)[i] != '-' && decimal(n)[i] != '>' && decimal(n)[i] != '/' && decimal(n)[i]
        != '\n' && decimal(n)[i] != '\r' && decimal(n)[i] != '+' by {
        lemma_digit_plain(decimal(n)[i]);
    }
}

/// A numeral is read back.
proof fn lemma_whole(n: usize)
    ensures
        whole_number(decimal(n as nat)) == Some(n),
{
    let s = decimal(n as nat);
    lemma_decimal_digits(n as nat);
    lemma_numeral_plain(n as nat);
    lemma_decimal_value(n as nat);
    lemma_digits_end(s, 0, s.len() as int);
}

/// A reference to a place of a register.
spec fn ref_text(name: char, n: usize) -> Seq<char> {
    seq![name, '['] + decimal(n as nat) + seq![']']
}

/// A reference with white space around it is read back.
proof fn lemma_index_ref(a: Seq<char>, name: char, n: usize, b: Seq<char>, line: nat)
    requires
        blank(a),
        blank(b),
        name == 'q' || name == 'c',
    ensures
        index_ref(a + ref_text(name, n) + b, line) == Ok::<usize, Seq<char>>(n),
{
    let d = decimal(n as nat);
    let s = ref_text(name, n);
    lemma_numeral_plain(n as nat);
    lemma_trim(a, s, b);
    assert(s[0] == name && s[1] == '[' && s[2 + d.len() as int] == ']');
    assert forall|i: int| 2 <= i < 2 + d.len() implies #[trigger] s[i] == d[i - 2] by {}
    lemma_find_at(s, '[', 1);
    lemma_find_at(s, ']', 2 + d.len() as int);
    assert(s.subrange(2, 2 + d.len() as int) =~= d);
    lemma_trim_tight(d);
    lemma_whole(n);
}

/// One parameter is read back.
proof fn lemma_parameter(v: Seq<char>, x: Binary64, tail: Seq<char>, line: nat)
    requires
        tight(v),
        lacks(v, ')'),
        lacks(v, ','),
        number(v) == Some(x),
    ensures
        ({
            let rest = seq!['('] + v + seq![')'] + tail;
            &&& parameters(rest, line) == Ok::<Seq<Binary64>, Seq<char>>(seq![x])
            &&& after_parameters(rest) == tail
        }),
{
    let rest = seq!['('] + v + seq![')'] + tail;
    assert(rest[0] == '(');
    lemma_space_end_at(rest, 0, 0);
    let u = trim_start(rest);
    assert(u =~= rest);
    let close = 1 + v.len() as int;
    assert forall|i: int| 0 <= i < close implies #[trigger] u[i] != ')' by {
        if i > 0 {
            assert(u[i] == v[i - 1]);
        }
    }
    assert(u[close] == ')');
    lemma_find_at(u, ')', close);
    assert(u.subrange(1, close) =~= v);
    lemma_pieces_one(v, ',');
    let toks = seq![v];
    lemma_trim_tight(v);
    assert(toks[0] == v);
    assert(Seq::<Binary64>::empty().push(x) =~= seq![x]);
    reveal_with_fuel(number_list, 2);
    assert(number_list(toks, line, 1) == Ok::<Seq<Binary64>, Seq<char>>(seq![x]));
    assert(u.skip(close + 1) =~= tail);
}

/// A written double is a parameter.
proof fn lemma_shown_plain(x: Binary64)
    ensures
        tight(shown(x)),
        forall|i: int|
            0 <= i < shown(x).len() ==> #[trigger] shown(x)[i] != ')' && shown(x)[i] != ','
                && shown(x)[i] != ';' && shown(x)[i] != '=' && shown(x)[i] != '/' && shown(x)[i]
                != '\n' && shown(x)[i] != '\r',
{
    lemma_shown_chars(x);
    let v = shown(x);
    assert(number_char(v[0]) && number_char(v[v.len() - 1]));
    assert forall|i: int| 0 <= i < shown(x).len() implies #[trigger] shown(x)[i] != ')' && shown(
        x,
    )[i] != ',' && shown(x)[i] != ';' && shown(x)[i] != '=' && shown(x)[i] != '/' && shown(x)[i]
        != '\n' && shown(x)[i] != '\r' by {
        assert(number_char(v[i]));
    }
}

/// Where the parameter list of a gate ends.
proof fn lemma_gate_head(name: Seq<char>, x: Binary64, tail: Seq<char>, line: nat)
    requires
        name.len() > 0,
        forall|i: int| 0 <= i < name.len() ==> #[trigger] name[i] != '(' && !is_space(name[i]),
        !x.nan() || x.bits == NAN_BITS,
    ensures
        ({
            let stmt = name.push('(') + shown(x) + seq![')'] + tail;
            let t = trim_start(stmt);
            let end = name_end(t, 0);
            &&& t.take(end) == name
            &&& parameters(t.skip(end), line) == Ok::<Seq<Binary64>, Seq<char>>(seq![x])
            &&& after_parameters(t.skip(end)) == tail
        }),
{
    let stmt = name.push('(') + shown(x) + seq![')'] + tail;
    let k = name.len() as int;
    let v = shown(x);
    lemma_shown_plain(x);
    lemma_number_shown(x);
    lemma_parameter(v, x, tail, line);
    assert(stmt[0] == name[0]);
    lemma_space_end_at(stmt, 0, 0);
    let t = trim_start(stmt);
    assert(t =~= stmt);
    assert forall|j: int| 0 <= j < k implies #[trigger] t[j] != '(' && !is_space(t[j]) by {
        assert(t[j] == name[j]);
    }
    assert(t[k] == '(');
    lemma_name_end(t, 0, k);
    assert(t.take(k) =~= name);
    assert(t.skip(k) =~= seq!['('] + v + seq![')'] + tail);
}

proof fn lemma_name_end(s: Seq<char>, i: int, k: int)
    requires
        0 <= i <= k < s.len(),
        forall|j: int| i <= j < k ==> #[trigger] s[j] != '(' && !is_space(s[j]),
        s[k] == '(',
    ensures
        name_end(s, i) == k,
    decreases k - i,
{
    if i < k {
        lemma_name_end(s, i + 1, k);
    }
}

/// One reference behind a space.
proof fn lemma_one_qubit(q: usize, line: nat)
    ensures
        qubit_list(seq![' '] + ref_text('q', q), line) == Ok::<Seq<usize>, Seq<char>>(seq![q]),
{
    let s = seq![' '] + ref_text('q', q);
    lemma_numeral_plain(q as nat);
    assert forall|i: int| 0 <= i < s.len() implies #[trigger] s[i] != ',' by {
        let d = decimal(q as nat);
        if 3 <= i < 3 + d.len() {
            assert(s[i] == d[i - 3]);
        }
    }
    lemma_pieces_one(s, ',');
    let none = Seq::<char>::empty();
    lemma_index_ref(seq![' '], 'q', q, none, line);
    assert(seq![' '] + ref_text('q', q) + none =~= s);
    let toks = seq![s];
    assert(toks[0] == s);
    assert(index_list(toks, line, 0) == Ok::<Seq<usize>, Seq<char>>(Seq::empty()));
    assert(Seq::<usize>::empty().push(q) =~= seq![q]);
    assert(index_list(toks, line, 1) == Ok::<Seq<usize>, Seq<char>>(seq![q]));
}

/// Two references, each behind a space, with a comma between.
proof fn lemma_two_qubits(a: usize, b: usize, line: nat)
    ensures
        qubit_list(
            (seq![' '] + ref_text('q', a)).push(',') + (seq![' '] + ref_text('q', b)),
            line,
        ) == Ok::<Seq<usize>, Seq<char>>(seq![a, b]),
{
    let s = seq![' '] + ref_text('q', a);
    let t = seq![' '] + ref_text('q', b);
    lemma_numeral_plain(a as nat);
    lemma_numeral_plain(b as nat);
    assert forall|i: int| 0 <= i < s.len() implies #[trigger] s[i] != ',' by {
        let d = decimal(a as nat);
        if 3 <= i < 3 + d.len() {
            assert(s[i] == d[i - 3]);
        }
    }
    assert forall|i: int| 0 <= i < t.len() implies #[trigger] t[i] != ',' by {
        let d = decimal(b as nat);
        if 3 <= i < 3 + d.len() {
            assert(t[i] == d[i - 3]);
        }
    }
    lemma_pieces_two(s, ',', t);
    let none = Seq::<char>::empty();
    lemma_index_ref(seq![' '], 'q', a, none, line);
    lemma_index_ref(seq![' '], 'q', b, none, line);
    assert(s + none =~= s);
    assert(t + none =~= t);
    let toks = seq![s, t];
    assert(toks[0] == s && toks[1] == t);
    assert(index_list(toks, line, 0) == Ok::<Seq<usize>, Seq<char>>(Seq::empty()));
    assert(Seq::<usize>::empty().push(a) =~= seq![a]);
    assert(seq![a].push(b) =~= seq![a, b]);
    assert(index_list(toks, line, 1) == Ok::<Seq<usize>, Seq<char>>(seq![a]));
    assert(index_list(toks, line, 2) == Ok::<Seq<usize>, Seq<char>>(seq![a, b]));
}

/// What a rotation is read as.
pub open spec fn plain_back(g: NativeGate) -> Gate {
    match g {
        NativeGate::Rz(q, x) => Gate::Rz(q, x),
        NativeGate::Ry(q, x) => Gate::Ry(q, x),
        NativeGate::Rzz(a, b, x) => Gate::Rzz(a, b, x),
        NativeGate::Measure(q, c) => Gate::Measure(q, c),
        NativeGate::If(_, _) => Gate::H(0),
    }
}

/// What a native gate is read as.
pub open spec fn back(g: NativeGate) -> Gate {
    match g {
        NativeGate::If(c, inner) => Gate::If(c, Box::new(plain_back(*inner))),
        _ => plain_back(g),
    }
}

/// Whether an angle is read back: it is a number, or the one pattern that
/// stands for none.
pub open spec fn angle_comes_back(x: Binary64) -> bool {
    !x.nan() || x.bits == NAN_BITS
}

/// Whether a plain rotation is on a register's qubits.
pub open spec fn rotation_comes_back(g: NativeGate, n: usize) -> bool {
    match g {
        NativeGate::Rz(q, x) | NativeGate::Ry(q, x) => q < n && angle_comes_back(x),
        NativeGate::Rzz(a, b, x) => a < n && b < n && angle_comes_back(x),
        _ => false,
    }
}

/// Whether a gate can be read back: it is on the registers, and under at
/// most one condition.
pub open spec fn comes_back(g: NativeGate, n: usize, m: usize) -> bool {
    match g {
        NativeGate::Measure(q, c) => q < n && c < m,
        NativeGate::If(conditions, inner) => match conditions {
            Conditions::When(b, _, rest) => b < m && *rest is Always && rotation_comes_back(*inner, n),
            Conditions::Always => false,
        },
        _ => rotation_comes_back(g, n),
    }
}

/// The names of the rotations.
proof fn lemma_names(line: nat, q: Seq<usize>, p: Seq<Binary64>, stmt: Seq<char>)
    requires
        p.len() == 1,
    ensures
        q.len() == 1 ==> named_gate(line, "rz"@, q, p, stmt) == Ok::<Gate, Seq<char>>(
            Gate::Rz(q[0], p[0]),
        ),
        q.len() == 1 ==> named_gate(line, "ry"@, q, p, stmt) == Ok::<Gate, Seq<char>>(
            Gate::Ry(q[0], p[0]),
        ),
        q.len() == 2 ==> named_gate(line, "rzz"@, q, p, stmt) == Ok::<Gate, Seq<char>>(
            Gate::Rzz(q[0], q[1], p[0]),
        ),
        "rz"@ == seq!['r', 'z'],
        "ry"@ == seq!['r', 'y'],
        "rzz"@ == seq!['r', 'z', 'z'],
{
    reveal_strlit("h");
    reveal_strlit("x");
    reveal_strlit("y");
    reveal_strlit("z");
    reveal_strlit("s");
    reveal_strlit("sdg");
    reveal_strlit("t");
    reveal_strlit("tdg");
    reveal_strlit("rx");
    reveal_strlit("ry");
    reveal_strlit("rz");
    reveal_strlit("cx");
    reveal_strlit("cnot");
    reveal_strlit("cz");
    reveal_strlit("swap");
    reveal_strlit("rxx");
    reveal_strlit("ryy");
    reveal_strlit("rzz");
    assert("rz"@[1] != "rx"@[1]);
    assert("rz"@[1] != "ry"@[1]);
    assert("ry"@[1] != "rx"@[1]);
    assert("rzz"@[0] != "sdg"@[0]);
    assert("rzz"@[0] != "tdg"@[0]);
    assert("rzz"@[1] != "rxx"@[1]);
    assert("rzz"@[1] != "ryy"@[1]);
    assert("rz"@ =~= seq!['r', 'z']);
    assert("ry"@ =~= seq!['r', 'y']);
    assert("rzz"@ =~= seq!['r', 'z', 'z']);
}

/// What a rotation is written as: a name, an angle, and the rest.
proof fn lemma_rotation_text(g: NativeGate, dialect: Dialect)
    ensures
        g matches NativeGate::Rz(q, x) ==> gate_text(g, dialect) == "rz"@.push('(') + shown(x) + seq![
            ')',
        ] + (seq![' '] + ref_text('q', q)),
        g matches NativeGate::Ry(q, x) ==> gate_text(g, dialect) == "ry"@.push('(') + shown(x) + seq![
            ')',
        ] + (seq![' '] + ref_text('q', q)),
        g matches NativeGate::Rzz(a, b, x) ==> gate_text(g, dialect) == "rzz"@.push('(') + shown(x)
            + seq![')'] + ((seq![' '] + ref_text('q', a)).push(',') + (seq![' '] + ref_text('q', b))),
{
    let t = gate_text(g, dialect);
    reveal_strlit("rz(");
    reveal_strlit("ry(");
    reveal_strlit("rzz(");
    reveal_strlit("rz");
    reveal_strlit("ry");
    reveal_strlit("rzz");
    reveal_strlit(") q[");
    reveal_strlit("], q[");
    reveal_strlit("]");
    match g {
        NativeGate::Rz(q, x) => {
            assert(t =~= "rz"@.push('(') + shown(x) + seq![')'] + (seq![' '] + ref_text('q', q)));
        },
        NativeGate::Ry(q, x) => {
            assert(t =~= "ry"@.push('(') + shown(x) + seq![')'] + (seq![' '] + ref_text('q', q)));
        },
        NativeGate::Rzz(a, b, x) => {
            assert(t =~= "rzz"@.push('(') + shown(x) + seq![')'] + ((seq![' '] + ref_text(
                'q',
                a,
            )).push(',') + (seq![' '] + ref_text('q', b))));
        },
        _ => {},
    }
}

/// A name, an angle and references are read as a gate.
proof fn lemma_gate_statement(
    name: Seq<char>,
    x: Binary64,
    tail: Seq<char>,
    q: Seq<usize>,
    g: Gate,
    line: nat,
)
    requires
        name.len() > 0,
        forall|i: int| 0 <= i < name.len() ==> #[trigger] name[i] != '(' && !is_space(name[i]),
        angle_comes_back(x),
        qubit_list(tail, line) == Ok::<Seq<usize>, Seq<char>>(q),
        named_gate(line, name, q, seq![x], name.push('(') + shown(x) + seq![')'] + tail) == Ok::<
            Gate,
            Seq<char>,
        >(g),
    ensures
        gate_statement(name.push('(') + shown(x) + seq![')'] + tail, line) == Ok::<Gate, Seq<char>>(g),
{
    lemma_gate_head(name, x, tail, line);
}

/// A rotation is read back as a gate.
proof fn lemma_rotation_read(g: NativeGate, dialect: Dialect, n: usize, line: nat)
    requires
        rotation_comes_back(g, n),
    ensures
        gate_statement(gate_text(g, dialect), line) == Ok::<Gate, Seq<char>>(plain_back(g)),
{
    let t = gate_text(g, dialect);
    lemma_rotation_text(g, dialect);
    match g {
        NativeGate::Rz(q, x) => {
            lemma_names(line, seq![q], seq![x], t);
            lemma_one_qubit(q, line);
            lemma_gate_statement(
                "rz"@,
                x,
                seq![' '] + ref_text('q', q),
                seq![q],
                Gate::Rz(q, x),
                line,
            );
        },
        NativeGate::Ry(q, x) => {
            lemma_names(line, seq![q], seq![x], t);
            lemma_one_qubit(q, line);
            lemma_gate_statement(
                "ry"@,
                x,
                seq![' '] + ref_text('q', q),
                seq![q],
                Gate::Ry(q, x),
                line,
            );
        },
        NativeGate::Rzz(a, b, x) => {
            lemma_names(line, seq![a, b], seq![x], t);
            lemma_two_qubits(a, b, line);
            lemma_gate_statement(
                "rzz"@,
                x,
                (seq![' '] + ref_text('q', a)).push(',') + (seq![' '] + ref_text('q', b)),
                seq![a, b],
                Gate::Rzz(a, b, x),
                line,
            );
        },
        _ => {},
    }
}

proof fn lemma_rotation_in_range(g: NativeGate, n: usize, line: nat, stmt: Seq<char>)
    requires
        rotation_comes_back(g, n),
    ensures
        gate_in_range(plain_back(g), n, line, stmt) == Ok::<Gate, Seq<char>>(plain_back(g)),
{
}

/// Whether a text holds nothing that ends a statement or a line, or starts a
/// comment.
spec fn clean(s: Seq<char>) -> bool {
    forall|i: int|
        0 <= i < s.len() ==> #[trigger] s[i] != ';' && s[i] != '\n' && s[i] != '\r' && s[i] != '/'
}

proof fn lemma_clean_joined(a: Seq<char>, b: Seq<char>)
    requires
        clean(a),
        clean(b),
    ensures
        clean(a + b),
{
    let s = a + b;
    assert forall|i: int| 0 <= i < s.len() implies #[trigger] s[i] != ';' && s[i] != '\n' && s[i]
        != '\r' && s[i] != '/' by {
        if i < a.len() {
            assert(s[i] == a[i]);
        } else {
            assert(s[i] == b[i - a.len()]);
        }
    }
}

proof fn lemma_lacks_joined(a: Seq<char>, b: Seq<char>, c: char)
    requires
        lacks(a, c),
        lacks(b, c),
    ensures
        lacks(a + b, c),
{
    let s = a + b;
    assert forall|i: int| 0 <= i < s.len() implies #[trigger] s[i] != c by {
        if i < a.len() {
            assert(s[i] == a[i]);
        } else {
            assert(s[i] == b[i - a.len()]);
        }
    }
}

proof fn lemma_ref_clean(name: char, n: usize)
    requires
        name == 'q' || name == 'c',
    ensures
        clean(ref_text(name, n)),
        lacks(ref_text(name, n), '='),
        lacks(ref_text(name, n), '-'),
        lacks(ref_text(name, n), ')'),
        tight(ref_text(name, n)),
        ref_text(name, n)[0] == name,
        ref_text(name, n)[1] == '[',
{
    let d = decimal(n as nat);
    let s = ref_text(name, n);
    lemma_numeral_plain(n as nat);
    assert(s.last() == ']');
    assert forall|i: int| 0 <= i < s.len() implies #[trigger] s[i] != ';' && s[i] != '\n' && s[i]
        != '\r' && s[i] != '/' && s[i] != '=' && s[i] != '-' && s[i] != ')' by {
        if 2 <= i < 2 + d.len() {
            assert(s[i] == d[i - 2]);
        }
    }
}

/// A rotation's text starts with its name, ends with a bracket and holds no
/// sign that means anything else.
proof fn lemma_rotation_plain(g: NativeGate, dialect: Dialect, n: usize)
    requires
        rotation_comes_back(g, n),
    ensures
        clean(gate_text(g, dialect)),
        lacks(gate_text(g, dialect), '='),
        tight(gate_text(g, dialect)),
        gate_text(g, dialect)[0] == 'r',
{
    lemma_rotation_text(g, dialect);
    reveal_strlit("rz");
    reveal_strlit("ry");
    reveal_strlit("rzz");
    match g {
        NativeGate::Rz(q, x) => {
            lemma_ref_clean('q', q);
            lemma_shape_plain("rz"@, x, seq![' '] + ref_text('q', q));
        },
        NativeGate::Ry(q, x) => {
            lemma_ref_clean('q', q);
            lemma_shape_plain("ry"@, x, seq![' '] + ref_text('q', q));
        },
        NativeGate::Rzz(a, b, x) => {
            lemma_ref_clean('q', a);
            lemma_ref_clean('q', b);
            let u = (seq![' '] + ref_text('q', a)).push(',');
            let v = seq![' '] + ref_text('q', b);
            lemma_clean_joined(u, v);
            lemma_lacks_joined(u, v, '=');
            lemma_shape_plain("rzz"@, x, u + v);
        },
        _ => {},
    }
}

proof fn lemma_shape_plain(name: Seq<char>, x: Binary64, tail: Seq<char>)
    requires
        name.len() > 0,
        name[0] == 'r',
        clean(name),
        lacks(name, '='),
        clean(tail),
        lacks(tail, '='),
        tail.len() > 0,
        !is_space(tail.last()),
    ensures
        ({
            let s = name.push('(') + shown(x) + seq![')'] + tail;
            clean(s) && lacks(s, '=') && tight(s) && s[0] == 'r'
        }),
{
    lemma_shown_plain(x);
    let a = name.push('(');
    let v = shown(x);
    let s = a + v + seq![')'] + tail;
    lemma_clean_joined(a, v);
    lemma_clean_joined(a + v, seq![')']);
    lemma_clean_joined(a + v + seq![')'], tail);
    lemma_lacks_joined(a, v, '=');
    lemma_lacks_joined(a + v, seq![')'], '=');
    lemma_lacks_joined(a + v + seq![')'], tail, '=');
    assert(s[0] == name[0]);
    assert(s.last() == tail.last());
}

/// The words that statements start with.
proof fn lemma_keywords()
    ensures
        "OPENQASM"@ == seq!['O', 'P', 'E', 'N', 'Q', 'A', 'S', 'M'],
        "include"@ == seq!['i', 'n', 'c', 'l', 'u', 'd', 'e'],
        "qreg"@ == seq!['q', 'r', 'e', 'g'],
        "creg"@ == seq!['c', 'r', 'e', 'g'],
        "qubit"@ == seq!['q', 'u', 'b', 'i', 't'],
        "bit"@ == seq!['b', 'i', 't'],
        "//"@ == seq!['/', '/'],
        "measure"@ == seq!['m', 'e', 'a', 's', 'u', 'r', 'e'],
        "if"@ == seq!['i', 'f'],
{
    reveal_strlit("OPENQASM");
    reveal_strlit("include");
    reveal_strlit("qreg");
    reveal_strlit("creg");
    reveal_strlit("qubit");
    reveal_strlit("bit");
    reveal_strlit("//");
    reveal_strlit("measure");
    reveal_strlit("if");
    assert("OPENQASM"@ =~= seq!['O', 'P', 'E', 'N', 'Q', 'A', 'S', 'M']);
    assert("include"@ =~= seq!['i', 'n', 'c', 'l', 'u', 'd', 'e']);
    assert("qreg"@ =~= seq!['q', 'r', 'e', 'g']);
    assert("creg"@ =~= seq!['c', 'r', 'e', 'g']);
    assert("qubit"@ =~= seq!['q', 'u', 'b', 'i', 't']);
    assert("bit"@ =~= seq!['b', 'i', 't']);
    assert("//"@ =~= seq!['/', '/']);
    assert("measure"@ =~= seq!['m', 'e', 'a', 's', 'u', 'r', 'e']);
    assert("if"@ =~= seq!['i', 'f']);
}

/// Whether a text starts with none of the words in front of `measure`.
spec fn no_declaration(s: Seq<char>) -> bool {
    &&& !"OPENQASM"@.is_prefix_of(s)
    &&& !"include"@.is_prefix_of(s)
    &&& !"qreg"@.is_prefix_of(s)
    &&& !"creg"@.is_prefix_of(s)
    &&& !"qubit"@.is_prefix_of(s)
    &&& !"bit"@.is_prefix_of(s)
    &&& !"//"@.is_prefix_of(s)
}

/// Texts are told apart by their first characters.
proof fn lemma_no_declaration(s: Seq<char>)
    requires
        s.len() > 1,
        s[0] == 'r' || s[0] == 'm' || (s[0] == 'i' && s[1] == 'f') || (s[0] == 'c' && s[1] == '['),
    ensures
        no_declaration(s),
        s[0] != 'm' ==> !"measure"@.is_prefix_of(s),
        s[0] != 'i' ==> !"if"@.is_prefix_of(s),
{
    lemma_keywords();
    lemma_not_prefix("OPENQASM"@, s, 0);
    if s[0] == 'i' {
        lemma_not_prefix("include"@, s, 1);
    } else {
        lemma_not_prefix("include"@, s, 0);
        lemma_not_prefix("if"@, s, 0);
    }
    lemma_not_prefix("qreg"@, s, 0);
    if s[0] == 'c' {
        lemma_not_prefix("creg"@, s, 1);
    } else {
        lemma_not_prefix("creg"@, s, 0);
    }
    lemma_not_prefix("qubit"@, s, 0);
    lemma_not_prefix("bit"@, s, 0);
    lemma_not_prefix("//"@, s, 0);
    if s[0] != 'm' {
        lemma_not_prefix("measure"@, s, 0);
    }
}

/// The statement of a rotation adds it.
proof fn lemma_rotation_statement(g: NativeGate, dialect: Dialect, n: usize, m: usize, line: nat)
    requires
        rotation_comes_back(g, n),
    ensures
        statement(gate_text(g, dialect), line, Some(n), Some(m)) == Ok::<Effect, Seq<char>>(
            Effect::Add(plain_back(g)),
        ),
{
    let t = gate_text(g, dialect);
    lemma_rotation_plain(g, dialect, n);
    lemma_rotation_text(g, dialect);
    assert(t.len() > 1) by {
        lemma_shown_chars(
            match g {
                NativeGate::Rz(_, x) | NativeGate::Ry(_, x) | NativeGate::Rzz(_, _, x) => x,
                _ => Binary64 { bits: 0 },
            },
        );
    }
    lemma_no_declaration(t);
    lemma_find_at(t, '=', t.len() as int);
    assert(!is_assignment(t));
    lemma_rotation_read(g, dialect, n, line);
    lemma_rotation_in_range(g, n, line, t);
}

/// What follows the word of a measurement in the older spelling.
spec fn arrow_text(q: usize, c: usize) -> Seq<char> {
    seq![' '] + ref_text('q', q) + seq![' ', '-', '>', ' '] + ref_text('c', c)
}

proof fn lemma_arrow_text(q: usize, c: usize)
    ensures
        gate_text(NativeGate::Measure(q, c), Dialect::Two) == "measure"@ + arrow_text(q, c),
{
    reveal_strlit("measure q[");
    reveal_strlit("] -> c[");
    reveal_strlit("]");
    lemma_keywords();
    assert(gate_text(NativeGate::Measure(q, c), Dialect::Two) =~= "measure"@ + arrow_text(q, c));
}

proof fn lemma_arrow_clean(q: usize, c: usize)
    ensures
        clean("measure"@ + arrow_text(q, c)),
        tight("measure"@ + arrow_text(q, c)),
        ("measure"@ + arrow_text(q, c))[0] == 'm',
        ("measure"@ + arrow_text(q, c)).len() > 1,
{
    let x = ref_text('q', q);
    let y = ref_text('c', c);
    let mid = seq![' ', '-', '>', ' '];
    lemma_keywords();
    lemma_ref_clean('q', q);
    lemma_ref_clean('c', c);
    assert(clean("measure"@) && clean(seq![' ']) && clean(mid));
    lemma_clean_joined(seq![' '], x);
    lemma_clean_joined(seq![' '] + x, mid);
    lemma_clean_joined(seq![' '] + x + mid, y);
    lemma_clean_joined("measure"@, arrow_text(q, c));
    assert(("measure"@ + arrow_text(q, c)).last() == y.last());
}

proof fn lemma_arrow_read(q: usize, c: usize, n: usize, m: usize, line: nat, stmt: Seq<char>)
    requires
        q < n,
        c < m,
    ensures
        measure_statement(arrow_text(q, c), n, m, line, stmt) == Ok::<Effect, Seq<char>>(
            Effect::Add(Gate::Measure(q, c)),
        ),
{
    let x = ref_text('q', q);
    let y = ref_text('c', c);
    let rest = arrow_text(q, c);
    lemma_ref_clean('q', q);
    let k = 2 + x.len() as int;
    assert forall|j: int| 0 <= j < k implies #[trigger] rest[j] != '-' by {
        if 1 <= j < 1 + x.len() {
            assert(rest[j] == x[j - 1]);
        }
    }
    assert(rest[k] == '-' && rest[k + 1] == '>');
    lemma_find_two_from(rest, '-', '>', 0, k);
    assert(rest.take(k) =~= seq![' '] + x + seq![' ']);
    let none = Seq::<char>::empty();
    assert(rest.skip(k + 2) =~= seq![' '] + y + none);
    lemma_index_ref(seq![' '], 'q', q, seq![' '], line);
    lemma_index_ref(seq![' '], 'c', c, none, line);
}

/// A measurement in the older spelling.
proof fn lemma_measure_two(q: usize, c: usize, n: usize, m: usize, line: nat)
    requires
        q < n,
        c < m,
    ensures
        ({
            let t = gate_text(NativeGate::Measure(q, c), Dialect::Two);
            &&& statement(t, line, Some(n), Some(m)) == Ok::<Effect, Seq<char>>(
                Effect::Add(Gate::Measure(q, c)),
            )
            &&& clean(t)
            &&& tight(t)
        }),
{
    let t = gate_text(NativeGate::Measure(q, c), Dialect::Two);
    lemma_arrow_text(q, c);
    lemma_arrow_clean(q, c);
    lemma_prefix("measure"@, arrow_text(q, c));
    lemma_no_declaration(t);
    lemma_arrow_read(q, c, n, m, line, t);
}

/// What follows the equals sign of a measurement in the newer spelling.
spec fn word_text(q: usize) -> Seq<char> {
    "measure"@ + (seq![' '] + ref_text('q', q))
}

/// A measurement in the newer spelling.
spec fn assigning(q: usize, c: usize) -> Seq<char> {
    ref_text('c', c) + seq![' ', '=', ' '] + word_text(q)
}

proof fn lemma_assigning_text(q: usize, c: usize)
    ensures
        gate_text(NativeGate::Measure(q, c), Dialect::Three) == assigning(q, c),
{
    reveal_strlit("c[");
    reveal_strlit("] = measure q[");
    reveal_strlit("]");
    lemma_keywords();
    assert(gate_text(NativeGate::Measure(q, c), Dialect::Three) =~= assigning(q, c));
}

proof fn lemma_assigning_clean(q: usize, c: usize)
    ensures
        clean(assigning(q, c)),
        tight(assigning(q, c)),
        assigning(q, c)[0] == 'c',
        assigning(q, c)[1] == '[',
        assigning(q, c).len() > 1,
        tight(word_text(q)),
{
    let x = ref_text('q', q);
    let y = ref_text('c', c);
    let t = assigning(q, c);
    lemma_keywords();
    lemma_ref_clean('q', q);
    lemma_ref_clean('c', c);
    assert(clean("measure"@) && clean(seq![' ']) && clean(seq![' ', '=', ' ']));
    lemma_clean_joined(seq![' '], x);
    lemma_clean_joined("measure"@, seq![' '] + x);
    lemma_clean_joined(y, seq![' ', '=', ' ']);
    lemma_clean_joined(y + seq![' ', '=', ' '], word_text(q));
    assert(word_text(q)[0] == 'm' && word_text(q).last() == x.last());
    assert(t.last() == x.last());
    assert(t[0] == y[0] && t[1] == y[1]);
}

proof fn lemma_assigning_read(q: usize, c: usize, line: nat)
    ensures
        ({
            let t = assigning(q, c);
            let k = 1 + ref_text('c', c).len() as int;
            &&& find(t, '=', 0) == k
            &&& k < t.len()
            &&& assigned(t) == word_text(q)
            &&& index_ref(trim(t.take(k)), line) == Ok::<usize, Seq<char>>(c)
        }),
{
    let t = assigning(q, c);
    let y = ref_text('c', c);
    let word = word_text(q);
    let none = Seq::<char>::empty();
    lemma_ref_clean('c', c);
    lemma_assigning_clean(q, c);
    let k = 1 + y.len() as int;
    assert forall|j: int| 0 <= j < k implies #[trigger] t[j] != '=' by {
        if j < y.len() {
            assert(t[j] == y[j]);
        }
    }
    assert(t[k] == '=');
    lemma_find_at(t, '=', k);
    assert(t.skip(k + 1) =~= seq![' '] + word + none);
    lemma_trim(seq![' '], word, none);
    assert(word + none =~= word);
    assert(t.take(k) =~= none + y + seq![' ']);
    lemma_trim(none, y, seq![' ']);
    lemma_index_ref(none, 'c', c, none, line);
    assert(none + y + none =~= y);
}

/// A measurement in the newer spelling.
proof fn lemma_measure_three(q: usize, c: usize, n: usize, m: usize, line: nat)
    requires
        q < n,
        c < m,
    ensures
        ({
            let t = gate_text(NativeGate::Measure(q, c), Dialect::Three);
            &&& statement(t, line, Some(n), Some(m)) == Ok::<Effect, Seq<char>>(
                Effect::Add(Gate::Measure(q, c)),
            )
            &&& clean(t)
            &&& tight(t)
        }),
{
    let t = gate_text(NativeGate::Measure(q, c), Dialect::Three);
    let x = ref_text('q', q);
    let none = Seq::<char>::empty();
    lemma_assigning_text(q, c);
    lemma_assigning_clean(q, c);
    lemma_no_declaration(t);
    lemma_assigning_read(q, c, line);
    lemma_prefix("measure"@, seq![' '] + x);
    lemma_index_ref(seq![' '], 'q', q, none, line);
    assert(seq![' '] + x + none =~= seq![' '] + x);
}

/// The condition in front of a gate.
proof fn lemma_condition(b: usize, v: bool, body: Seq<char>, line: nat)
    ensures
        ({
            let c = ref_text('c', b) + seq!['=', '='] + bit_value(v);
            condition(seq![' ', '('] + c + seq![')', ' '] + body, line) matches Ok(x) && x.clbit == b
                && x.value == v && x.body == seq![' '] + body
        }),
        lacks(bit_value(v), ')'),
        clean(bit_value(v)),
        bit_value(v).len() == 1,
{
    let r = ref_text('c', b);
    let w = bit_value(v);
    let c = r + seq!['=', '='] + w;
    let t = seq!['('] + c + seq![')', ' '] + body;
    let s = seq![' ', '('] + c + seq![')', ' '] + body;
    let none = Seq::<char>::empty();
    reveal_strlit("1");
    reveal_strlit("0");
    lemma_ref_clean('c', b);
    assert(s[0] == ' ' && s[1] == '(');
    lemma_space_end_at(s, 0, 1);
    assert(trim_start(s) =~= t);
    let inside = t.skip(1);
    assert(inside =~= c + seq![')', ' '] + body);
    let close = c.len() as int;
    lemma_lacks_joined(r, seq!['=', '='], ')');
    lemma_lacks_joined(r + seq!['=', '='], w, ')');
    assert forall|i: int| 0 <= i < close implies #[trigger] inside[i] != ')' by {
        assert(inside[i] == c[i]);
    }
    assert(inside[close] == ')');
    lemma_find_at(inside, ')', close);
    assert(inside.take(close) =~= c);
    let eq = r.len() as int;
    assert forall|i: int| 0 <= i < eq implies #[trigger] c[i] != '=' by {
        assert(c[i] == r[i]);
    }
    assert(c[eq] == '=' && c[eq + 1] == '=');
    lemma_find_two_from(c, '=', '=', 0, eq);
    assert(c.take(eq) =~= none + r + none);
    lemma_index_ref(none, 'c', b, none, line);
    assert(c.skip(eq + 2) =~= w);
    assert(w[0] == '1' || w[0] == '0');
    lemma_trim_tight(w);
    assert("1"@[0] != "0"@[0]);
    assert(inside.skip(close + 1) =~= seq![' '] + body);
}

/// What follows the word of a conditioned gate.
spec fn guard_text(b: usize, v: bool, body: Seq<char>) -> Seq<char> {
    seq![' ', '('] + (ref_text('c', b) + seq!['=', '='] + bit_value(v)) + seq![')', ' '] + body
}

proof fn lemma_guard_text(b: usize, v: bool, g: NativeGate, dialect: Dialect)
    ensures
        gate_text(
            NativeGate::If(Conditions::When(b, v, Box::new(Conditions::Always)), Box::new(g)),
            dialect,
        ) == "if"@ + guard_text(b, v, gate_text(g, dialect)),
{
    let one = Conditions::When(b, v, Box::new(Conditions::Always));
    lemma_keywords();
    reveal_strlit("if (c[");
    reveal_strlit("]==");
    reveal_strlit(") ");
    assert(guards(Conditions::Always) == Seq::<char>::empty());
    assert(guards(one) == "if (c["@ + decimal(b as nat) + "]=="@ + bit_value(v) + ") "@ + guards(
        Conditions::Always,
    ));
    let u = gate_text(g, dialect);
    assert(guards(one) + u =~= "if"@ + guard_text(b, v, u));
}

proof fn lemma_guard_clean(b: usize, v: bool, u: Seq<char>)
    requires
        clean(u),
        tight(u),
    ensures
        clean("if"@ + guard_text(b, v, u)),
        tight("if"@ + guard_text(b, v, u)),
        ("if"@ + guard_text(b, v, u))[0] == 'i',
        ("if"@ + guard_text(b, v, u))[1] == 'f',
        ("if"@ + guard_text(b, v, u)).len() > 1,
{
    let w = bit_value(v);
    let r = ref_text('c', b);
    let c = r + seq!['=', '='] + w;
    lemma_keywords();
    lemma_ref_clean('c', b);
    lemma_condition(b, v, u, 0);
    assert(clean("if"@) && clean(seq![' ', '(']) && clean(seq![')', ' ']) && clean(seq!['=', '=']));
    lemma_clean_joined(r, seq!['=', '=']);
    lemma_clean_joined(r + seq!['=', '='], w);
    lemma_clean_joined(seq![' ', '('], c);
    lemma_clean_joined(seq![' ', '('] + c, seq![')', ' ']);
    lemma_clean_joined(seq![' ', '('] + c + seq![')', ' '], u);
    lemma_clean_joined("if"@, guard_text(b, v, u));
    assert(("if"@ + guard_text(b, v, u)).last() == u.last());
}

proof fn lemma_guard_read(
    b: usize,
    v: bool,
    g: NativeGate,
    dialect: Dialect,
    n: usize,
    m: usize,
    line: nat,
    stmt: Seq<char>,
)
    requires
        b < m,
        rotation_comes_back(g, n),
    ensures
        if_statement(guard_text(b, v, gate_text(g, dialect)), n, m, line, stmt) == Ok::<
            Effect,
            Seq<char>,
        >(
            Effect::Add(
                Gate::If(
                    Conditions::When(b, v, Box::new(Conditions::Always)),
                    Box::new(plain_back(g)),
                ),
            ),
        ),
{
    let u = gate_text(g, dialect);
    let none = Seq::<char>::empty();
    lemma_condition(b, v, u, line);
    lemma_rotation_plain(g, dialect, n);
    lemma_keywords();
    lemma_trim(seq![' '], u, none);
    assert(seq![' '] + u + none =~= seq![' '] + u);
    lemma_not_prefix("measure"@, u, 0);
    lemma_not_prefix("if"@, u, 0);
    lemma_rotation_read(g, dialect, n, line);
    lemma_rotation_in_range(g, n, line, stmt);
}

/// A rotation under one condition.
proof fn lemma_conditioned_statement(
    b: usize,
    v: bool,
    g: NativeGate,
    dialect: Dialect,
    n: usize,
    m: usize,
    line: nat,
)
    requires
        b < m,
        rotation_comes_back(g, n),
    ensures
        ({
            let one = Conditions::When(b, v, Box::new(Conditions::Always));
            let t = gate_text(NativeGate::If(one, Box::new(g)), dialect);
            &&& statement(t, line, Some(n), Some(m)) == Ok::<Effect, Seq<char>>(
                Effect::Add(Gate::If(one, Box::new(plain_back(g)))),
            )
            &&& clean(t)
            &&& tight(t)
        }),
{
    let one = Conditions::When(b, v, Box::new(Conditions::Always));
    let t = gate_text(NativeGate::If(one, Box::new(g)), dialect);
    let u = gate_text(g, dialect);
    lemma_guard_text(b, v, g, dialect);
    lemma_rotation_plain(g, dialect, n);
    lemma_guard_clean(b, v, u);
    lemma_prefix("if"@, guard_text(b, v, u));
    lemma_no_declaration(t);
    lemma_guard_read(b, v, g, dialect, n, m, line, t);
}

/// Whether a text is read as something.
#[verifier::opaque]
spec fn reads(t: Seq<char>, line: nat, nq: Option<usize>, nc: Option<usize>, e: Effect) -> bool {
    t.len() > 0 && statement(t, line, nq, nc) == Ok::<Effect, Seq<char>>(e)
}

proof fn lemma_reads(t: Seq<char>, line: nat, nq: Option<usize>, nc: Option<usize>, e: Effect)
    requires
        t.len() > 0,
        statement(t, line, nq, nc) == Ok::<Effect, Seq<char>>(e),
    ensures
        reads(t, line, nq, nc, e),
{
    reveal(reads);
}

/// A statement that is read is applied.
proof fn lemma_read_step(all: Seq<Line>, k: nat, r: Reading, t: Seq<char>, e: Effect)
    requires
        k < all.len(),
        read_statements(all, k) == Ok::<Reading, Seq<char>>(r),
        trim(all[k as int].text) == t,
        reads(t, all[k as int].number, r.nq, r.nc, e),
    ensures
        read_statements(all, k + 1) == Ok::<Reading, Seq<char>>(applied(r, e)),
{
    reveal(reads);
}

/// The statement of a gate adds it.
proof fn lemma_statement(g: NativeGate, dialect: Dialect, n: usize, m: usize, line: nat)
    requires
        comes_back(g, n, m),
    ensures
        reads(gate_text(g, dialect), line, Some(n), Some(m), Effect::Add(back(g))),
        clean(gate_text(g, dialect)),
        tight(gate_text(g, dialect)),
{
    match g {
        NativeGate::Measure(q, c) => {
            match dialect {
                Dialect::Two => lemma_measure_two(q, c, n, m, line),
                Dialect::Three => lemma_measure_three(q, c, n, m, line),
            }
        },
        NativeGate::If(conditions, inner) => {
            if let Conditions::When(b, v, rest) = conditions {
                assert(conditions == Conditions::When(b, v, Box::new(Conditions::Always)));
                lemma_conditioned_statement(b, v, *inner, dialect, n, m, line);
            }
        },
        _ => {
            lemma_rotation_statement(g, dialect, n, m, line);
            lemma_rotation_plain(g, dialect, n);
        },
    }
    lemma_reads(gate_text(g, dialect), line, Some(n), Some(m), Effect::Add(back(g)));
}

/// A line of a source text.
enum Entry {
    Statement(Seq<char>),
    Comment(Seq<char>),
}

spec fn entry_line(e: Entry) -> Seq<char> {
    match e {
        Entry::Statement(s) => s.push(';'),
        Entry::Comment(c) => c,
    }
}

/// The first `n` lines, each with a line feed.
spec fn entries_text(es: Seq<Entry>, n: nat) -> Seq<char>
    decreases n,
{
    if n == 0 {
        Seq::empty()
    } else {
        entries_text(es, (n - 1) as nat) + entry_line(es[n - 1]).push('\n')
    }
}

/// The statements among the first `n` lines.
spec fn entry_statements(es: Seq<Entry>, n: nat) -> Seq<Seq<char>>
    decreases n,
{
    if n == 0 {
        Seq::empty()
    } else {
        match es[n - 1] {
            Entry::Statement(s) => entry_statements(es, (n - 1) as nat).push(s),
            Entry::Comment(_) => entry_statements(es, (n - 1) as nat),
        }
    }
}

/// Whether a line is one statement or one comment.
spec fn good_entry(e: Entry) -> bool {
    match e {
        Entry::Statement(s) => clean(s) && tight(s),
        Entry::Comment(c) => {
            &&& c.len() > 1
            &&& c[0] == '/'
            &&& c[1] == '/'
            &&& lacks(c, '\n')
            &&& c.last() != '\r'
        },
    }
}

spec fn good_entries(es: Seq<Entry>) -> bool {
    forall|i: int| 0 <= i < es.len() ==> good_entry(#[trigger] es[i])
}

proof fn lemma_lines_one(a: Seq<char>)
    requires
        lacks(a, '\n'),
        a.len() > 0 ==> a.last() != '\r',
    ensures
        lines(a.push('\n')) == seq![a],
{
    let s = a.push('\n');
    let k = a.len() as int;
    assert forall|i: int| 0 <= i < k implies #[trigger] s[i] != '\n' by {
        assert(s[i] == a[i]);
    }
    lemma_find_at(s, '\n', k);
    assert(s.take(k) =~= a);
    assert(s.skip(k + 1) =~= Seq::<char>::empty());
    assert(lines(s.skip(k + 1)) == Seq::<Seq<char>>::empty());
    if k > 0 {
        assert(s[k - 1] == a.last());
    }
    assert(seq![a] + Seq::<Seq<char>>::empty() =~= seq![a]);
}

proof fn lemma_lines_joined(x: Seq<char>, y: Seq<char>)
    requires
        x.len() > 0 ==> x.last() == '\n',
    ensures
        lines(x + y) == lines(x) + lines(y),
    decreases x.len(),
{
    if x.len() == 0 {
        assert(x + y =~= y);
        assert(lines(x) + lines(y) =~= lines(y));
    } else {
        lemma_find(x, '\n', 0);
        let p = find(x, '\n', 0);
        if p == x.len() {
            assert(x[x.len() - 1] != '\n');
        }
        let s = x + y;
        assert forall|i: int| 0 <= i < p implies #[trigger] s[i] != '\n' by {
            assert(s[i] == x[i]);
        }
        assert(s[p] == x[p]);
        lemma_find_at(s, '\n', p);
        let rest = x.skip(p + 1);
        assert(s.skip(p + 1) =~= rest + y);
        if rest.len() > 0 {
            assert(rest.last() == x.last());
        }
        lemma_lines_joined(rest, y);
        assert(s.take(p) =~= x.take(p));
        if p > 0 {
            assert(s[p - 1] == x[p - 1]);
            assert(s.take(p - 1) =~= x.take(p - 1));
        }
        let first = if p > 0 && x[p - 1] == '\r' {
            x.take(p - 1)
        } else {
            x.take(p)
        };
        assert(seq![first] + (lines(rest) + lines(y)) =~= (seq![first] + lines(rest)) + lines(y));
    }
}

/// The lines of a text are those that it was made of.
proof fn lemma_entry_lines(es: Seq<Entry>, n: nat)
    requires
        good_entries(es),
        n <= es.len(),
    ensures
        lines(entries_text(es, n)) == Seq::new(n, |i: int| entry_line(es[i])),
        n > 0 ==> entries_text(es, n).len() > 0 && entries_text(es, n).last() == '\n',
    decreases n,
{
    if n == 0 {
        assert(lines(entries_text(es, 0)) =~= Seq::new(0, |i: int| entry_line(es[i])));
    } else {
        lemma_entry_lines(es, (n - 1) as nat);
        let x = entries_text(es, (n - 1) as nat);
        let e = es[n - 1];
        let l = entry_line(e);
        assert(good_entry(e));
        if let Entry::Statement(t) = e {
            assert forall|i: int| 0 <= i < l.len() implies #[trigger] l[i] != '\n' by {
                if i < t.len() {
                    assert(l[i] == t[i]);
                }
            }
            assert(l.last() == ';');
        }
        lemma_lines_one(l);
        lemma_lines_joined(x, l.push('\n'));
        assert(lines(entries_text(es, n)) =~= Seq::new(n, |i: int| entry_line(es[i])));
    }
}

proof fn lemma_blank_lacks(s: Seq<char>)
    requires
        blank(s),
    ensures
        lacks(s, ';'),
{
    assert forall|i: int| 0 <= i < s.len() implies #[trigger] s[i] != ';' by {
        assert(is_space(s[i]));
    }
}

/// A line with one statement.
proof fn lemma_scan_statement(s: Scan, t: Seq<char>, number: nat)
    requires
        blank(s.rest),
        clean(t),
        tight(t),
    ensures
        ({
            let r = scan_line(s, t.push(';'), number);
            &&& blank(r.rest)
            &&& r.found.len() == s.found.len() + 1
            &&& r.found.drop_last() == s.found
            &&& trim(r.found.last().text) == t
            &&& r.found.last().number == number
        }),
{
    let line = t.push(';');
    assert forall|i: int| 0 <= i < line.len() implies #[trigger] line[i] != '/' by {
        if i < t.len() {
            assert(line[i] == t[i]);
        }
    }
    lemma_find_two_none(line, '/', '/');
    assert(code(line) =~= line);
    let rest = (s.rest + line).push(' ');
    let k = (s.rest.len() + t.len()) as int;
    lemma_blank_lacks(s.rest);
    assert forall|i: int| 0 <= i < k implies #[trigger] rest[i] != ';' by {
        if i < s.rest.len() {
            assert(rest[i] == s.rest[i]);
        } else {
            assert(rest[i] == t[i - s.rest.len()]);
        }
    }
    assert(rest[k] == ';');
    lemma_find_at(rest, ';', k);
    let none = Seq::<char>::empty();
    assert(rest.take(k) =~= s.rest + t + none);
    lemma_trim(s.rest, t, none);
    let after = rest.skip(k + 1);
    assert(after =~= seq![' ']);
    lemma_find_at(after, ';', 1);
    lemma_trim_blank(s.rest);
    let one = Scan {
        found: s.found.push(Line { number, text: rest.take(k) }),
        rest: after,
        start: number,
    };
    assert(cut(one, number) == one);
    assert(scan_line(s, line, number) == one);
    assert(one.found.drop_last() =~= s.found);
}

/// A line with a comment.
proof fn lemma_scan_comment(s: Scan, c: Seq<char>, number: nat)
    requires
        blank(s.rest),
        c.len() > 1,
        c[0] == '/',
        c[1] == '/',
    ensures
        blank(scan_line(s, c, number).rest),
        scan_line(s, c, number).found == s.found,
{
    lemma_find_two_from(c, '/', '/', 0, 0);
    assert(code(c) =~= Seq::<char>::empty());
    let rest = (s.rest + code(c)).push(' ');
    assert(rest =~= s.rest.push(' '));
    assert forall|i: int| 0 <= i < rest.len() implies is_space(#[trigger] rest[i]) by {
        if i < s.rest.len() {
            assert(rest[i] == s.rest[i]);
        }
    }
    lemma_blank_lacks(rest);
    lemma_find_at(rest, ';', rest.len() as int);
}

/// The statements that are found are those that were written.
proof fn lemma_scan_entries(es: Seq<Entry>, n: nat)
    requires
        good_entries(es),
        n <= es.len(),
    ensures
        ({
            let all = Seq::new(es.len(), |i: int| entry_line(es[i]));
            let s = scan(all, n);
            let want = entry_statements(es, n);
            &&& blank(s.rest)
            &&& s.found.len() == want.len()
            &&& forall|k: int|
                0 <= k < want.len() ==> trim((#[trigger] s.found[k]).text) == want[k]
        }),
    decreases n,
{
    let all = Seq::new(es.len(), |i: int| entry_line(es[i]));
    if n > 0 {
        lemma_scan_entries(es, (n - 1) as nat);
        let before = scan(all, (n - 1) as nat);
        let s = scan(all, n);
        let want = entry_statements(es, n);
        assert(good_entry(es[n - 1]));
        assert(all[n - 1] == entry_line(es[n - 1]));
        match es[n - 1] {
            Entry::Statement(t) => {
                lemma_scan_statement(before, t, n);
                assert forall|k: int| 0 <= k < want.len() implies trim((#[trigger] s.found[k]).text)
                    == want[k] by {
                    if k < want.len() - 1 {
                        assert(s.found.drop_last()[k] == s.found[k]);
                        assert(before.found[k] == s.found[k]);
                    }
                }
            },
            Entry::Comment(c) => {
                lemma_scan_comment(before, c, n);
            },
        }
    }
}

/// The statements of a text are those that it was made of.
proof fn lemma_statements(es: Seq<Entry>)
    requires
        good_entries(es),
    ensures
        ({
            let all = statements(entries_text(es, es.len()));
            let want = entry_statements(es, es.len());
            &&& all.len() == want.len()
            &&& forall|k: int| 0 <= k < want.len() ==> trim((#[trigger] all[k]).text) == want[k]
        }),
{
    lemma_entry_lines(es, es.len());
    lemma_scan_entries(es, es.len());
    let all = Seq::new(es.len(), |i: int| entry_line(es[i]));
    lemma_trim_blank(scan(all, es.len()).rest);
}

/// The size in the declaration of a register.
proof fn lemma_register(a: Seq<char>, n: usize, b: Seq<char>, line: nat)
    requires
        lacks(a, '['),
        lacks(a, ']'),
    ensures
        register_size(a + seq!['['] + decimal(n as nat) + seq![']'] + b, line) == Ok::<
            usize,
            Seq<char>,
        >(n),
{
    let d = decimal(n as nat);
    let s = a + seq!['['] + d + seq![']'] + b;
    let open = a.len() as int;
    let close = open + 1 + d.len() as int;
    lemma_numeral_plain(n as nat);
    assert forall|i: int| 0 <= i < open implies #[trigger] s[i] != '[' && s[i] != ']' by {
        assert(s[i] == a[i]);
    }
    assert(s[open] == '[' && s[close] == ']');
    assert forall|i: int| open < i < close implies #[trigger] s[i] != ']' by {
        assert(s[i] == d[i - open - 1]);
    }
    lemma_find_at(s, '[', open);
    lemma_find_at(s, ']', close);
    assert(s.subrange(open + 1, close) =~= d);
    lemma_trim_tight(d);
    lemma_whole(n);
}

/// The first line of a text.
spec fn version_text(dialect: Dialect) -> Seq<char> {
    match dialect {
        Dialect::Two => "OPENQASM 2.0"@,
        Dialect::Three => "OPENQASM 3.0"@,
    }
}

/// The second.
spec fn library_text(dialect: Dialect) -> Seq<char> {
    match dialect {
        Dialect::Two => "include \"qelib1.inc\""@,
        Dialect::Three => "include \"stdgates.inc\""@,
    }
}

/// The declaration of the qubits.
spec fn qubits_text(n: usize, dialect: Dialect) -> Seq<char> {
    match dialect {
        Dialect::Two => "qreg"@ + (seq![' '] + ref_text('q', n)),
        Dialect::Three => "qubit"@ + (seq!['['] + decimal(n as nat) + seq![']', ' ', 'q']),
    }
}

/// The declaration of the classical bits.
spec fn clbits_text(m: usize, dialect: Dialect) -> Seq<char> {
    match dialect {
        Dialect::Two => "creg"@ + (seq![' '] + ref_text('c', m)),
        Dialect::Three => "bit"@ + (seq!['['] + decimal(m as nat) + seq![']', ' ', 'c']),
    }
}

proof fn lemma_version(dialect: Dialect, line: nat, nq: Option<usize>, nc: Option<usize>)
    ensures
        clean(version_text(dialect)),
        tight(version_text(dialect)),
        reads(version_text(dialect), line, nq, nc, Effect::Nothing),
{
    lemma_keywords();
    reveal_strlit("OPENQASM 2.0");
    reveal_strlit("OPENQASM 3.0");
    let t = version_text(dialect);
    assert(t.subrange(0, 8) =~= "OPENQASM"@);
    lemma_reads(version_text(dialect), line, nq, nc, Effect::Nothing);
}

proof fn lemma_library(dialect: Dialect, line: nat, nq: Option<usize>, nc: Option<usize>)
    ensures
        clean(library_text(dialect)),
        tight(library_text(dialect)),
        reads(library_text(dialect), line, nq, nc, Effect::Nothing),
{
    lemma_keywords();
    reveal_strlit("include \"qelib1.inc\"");
    reveal_strlit("include \"stdgates.inc\"");
    let t = library_text(dialect);
    assert(t.subrange(0, 7) =~= "include"@);
    lemma_reads(library_text(dialect), line, nq, nc, Effect::Nothing);
}

/// The size behind the word in the older spelling.
proof fn lemma_old_size(word: Seq<char>, name: char, n: usize, line: nat)
    requires
        clean(word),
        word.len() > 0,
        !is_space(word[0]),
        name == 'q' || name == 'c',
    ensures
        register_size(seq![' '] + ref_text(name, n), line) == Ok::<usize, Seq<char>>(n),
        clean(word + (seq![' '] + ref_text(name, n))),
        tight(word + (seq![' '] + ref_text(name, n))),
{
    let d = decimal(n as nat);
    let rest = seq![' '] + ref_text(name, n);
    let none = Seq::<char>::empty();
    lemma_register(seq![' ', name], n, none, line);
    assert(rest =~= seq![' ', name] + seq!['['] + d + seq![']'] + none);
    lemma_ref_clean(name, n);
    assert(clean(seq![' ']));
    lemma_clean_joined(seq![' '], ref_text(name, n));
    lemma_clean_joined(word, rest);
    let t = word + rest;
    assert(t[0] == word[0]);
    assert(t.last() == ref_text(name, n).last());
}

/// The size behind the word in the newer spelling.
proof fn lemma_new_size(n: usize, name: char, line: nat)
    ensures
        declared_size(seq!['['] + decimal(n as nat) + seq![']', ' ', name], line) == Ok::<
            usize,
            Seq<char>,
        >(n),
{
    let d = decimal(n as nat);
    let rest = seq!['['] + d + seq![']', ' ', name];
    assert(rest[0] == '[');
    lemma_space_end_at(rest, 0, 0);
    assert(trim_start(rest) =~= rest);
    let none = Seq::<char>::empty();
    lemma_register(none, n, seq![' ', name], line);
    assert(rest =~= none + seq!['['] + d + seq![']'] + seq![' ', name]);
}

proof fn lemma_new_clean(n: usize)
    ensures
        clean(qubits_text(n, Dialect::Three)),
        tight(qubits_text(n, Dialect::Three)),
        clean(clbits_text(n, Dialect::Three)),
        tight(clbits_text(n, Dialect::Three)),
{
    let d = decimal(n as nat);
    lemma_keywords();
    lemma_numeral_plain(n as nat);
    assert(clean("qubit"@) && clean("bit"@));
    assert(clean(seq![']', ' ', 'q']) && clean(seq![']', ' ', 'c']));
    lemma_size_clean("qubit"@, d, seq![']', ' ', 'q']);
    lemma_size_clean("bit"@, d, seq![']', ' ', 'c']);
}

proof fn lemma_qubits_two(n: usize, line: nat, nq: Option<usize>, nc: Option<usize>)
    requires
        nq is None,
    ensures
        clean(qubits_text(n, Dialect::Two)),
        tight(qubits_text(n, Dialect::Two)),
        statement(qubits_text(n, Dialect::Two), line, nq, nc) == Ok::<Effect, Seq<char>>(
            Effect::Qubits(n),
        ),
{
    let t = qubits_text(n, Dialect::Two);
    let rest = seq![' '] + ref_text('q', n);
    lemma_keywords();
    lemma_old_size("qreg"@, 'q', n, line);
    lemma_prefix("qreg"@, rest);
    assert(t[0] == 'q');
    lemma_not_prefix("OPENQASM"@, t, 0);
    lemma_not_prefix("include"@, t, 0);
}

proof fn lemma_qubits_three(n: usize, line: nat, nq: Option<usize>, nc: Option<usize>)
    requires
        nq is None,
    ensures
        clean(qubits_text(n, Dialect::Three)),
        tight(qubits_text(n, Dialect::Three)),
        statement(qubits_text(n, Dialect::Three), line, nq, nc) == Ok::<Effect, Seq<char>>(
            Effect::Qubits(n),
        ),
{
    let t = qubits_text(n, Dialect::Three);
    let d = decimal(n as nat);
    let rest = seq!['['] + d + seq![']', ' ', 'q'];
    lemma_new_clean(n);
    lemma_new_size(n, 'q', line);
    lemma_keywords();
    lemma_prefix("qubit"@, rest);
    assert(t[0] == 'q' && t[1] == 'u');
    lemma_not_prefix("OPENQASM"@, t, 0);
    lemma_not_prefix("include"@, t, 0);
    lemma_not_prefix("qreg"@, t, 1);
    lemma_not_prefix("creg"@, t, 0);
}

proof fn lemma_qubits(n: usize, dialect: Dialect, line: nat, nq: Option<usize>, nc: Option<usize>)
    requires
        nq is None,
    ensures
        clean(qubits_text(n, dialect)),
        tight(qubits_text(n, dialect)),
        reads(qubits_text(n, dialect), line, nq, nc, Effect::Qubits(n)),
{
    match dialect {
        Dialect::Two => lemma_qubits_two(n, line, nq, nc),
        Dialect::Three => lemma_qubits_three(n, line, nq, nc),
    }
    lemma_reads(qubits_text(n, dialect), line, nq, nc, Effect::Qubits(n));
}

proof fn lemma_size_clean(word: Seq<char>, d: Seq<char>, tail: Seq<char>)
    requires
        clean(word),
        clean(tail),
        word.len() > 0,
        tail.len() > 0,
        !is_space(word[0]),
        !is_space(tail.last()),
        forall|i: int|
            0 <= i < d.len() ==> #[trigger] d[i] != ';' && d[i] != '\n' && d[i] != '\r' && d[i] != '/',
    ensures
        clean(word + (seq!['['] + d + tail)),
        tight(word + (seq!['['] + d + tail)),
{
    assert(clean(seq!['[']));
    lemma_clean_joined(seq!['['], d);
    lemma_clean_joined(seq!['['] + d, tail);
    lemma_clean_joined(word, seq!['['] + d + tail);
    let t = word + (seq!['['] + d + tail);
    assert(t.last() == tail.last());
    assert(t[0] == word[0]);
}

proof fn lemma_clbits_two(m: usize, line: nat, nq: Option<usize>, nc: Option<usize>)
    requires
        nc is None,
    ensures
        clean(clbits_text(m, Dialect::Two)),
        tight(clbits_text(m, Dialect::Two)),
        statement(clbits_text(m, Dialect::Two), line, nq, nc) == Ok::<Effect, Seq<char>>(
            Effect::Clbits(m),
        ),
{
    let t = clbits_text(m, Dialect::Two);
    let rest = seq![' '] + ref_text('c', m);
    lemma_keywords();
    lemma_old_size("creg"@, 'c', m, line);
    lemma_prefix("creg"@, rest);
    assert(t[0] == 'c');
    lemma_not_prefix("OPENQASM"@, t, 0);
    lemma_not_prefix("include"@, t, 0);
    lemma_not_prefix("qreg"@, t, 0);
}

proof fn lemma_clbits_three(m: usize, line: nat, nq: Option<usize>, nc: Option<usize>)
    requires
        nc is None,
    ensures
        clean(clbits_text(m, Dialect::Three)),
        tight(clbits_text(m, Dialect::Three)),
        statement(clbits_text(m, Dialect::Three), line, nq, nc) == Ok::<Effect, Seq<char>>(
            Effect::Clbits(m),
        ),
{
    let t = clbits_text(m, Dialect::Three);
    let d = decimal(m as nat);
    let rest = seq!['['] + d + seq![']', ' ', 'c'];
    lemma_new_clean(m);
    lemma_new_size(m, 'c', line);
    lemma_keywords();
    lemma_prefix("bit"@, rest);
    assert(t[0] == 'b');
    lemma_not_prefix("OPENQASM"@, t, 0);
    lemma_not_prefix("include"@, t, 0);
    lemma_not_prefix("qreg"@, t, 0);
    lemma_not_prefix("creg"@, t, 0);
    lemma_not_prefix("qubit"@, t, 0);
}

proof fn lemma_clbits(m: usize, dialect: Dialect, line: nat, nq: Option<usize>, nc: Option<usize>)
    requires
        nc is None,
    ensures
        clean(clbits_text(m, dialect)),
        tight(clbits_text(m, dialect)),
        reads(clbits_text(m, dialect), line, nq, nc, Effect::Clbits(m)),
{
    match dialect {
        Dialect::Two => lemma_clbits_two(m, line, nq, nc),
        Dialect::Three => lemma_clbits_three(m, line, nq, nc),
    }
    lemma_reads(clbits_text(m, dialect), line, nq, nc, Effect::Clbits(m));
}

spec fn comment_text(name: Seq<char>) -> Seq<char> {
    "// Circuit: "@ + name + " (native gate set: rz, ry, rzz, measure)"@
}

/// The lines in front of the gates.
spec fn head_entries(n: usize, m: usize, name: Seq<char>, dialect: Dialect) -> Seq<Entry> {
    seq![
        Entry::Statement(version_text(dialect)),
        Entry::Statement(library_text(dialect)),
        Entry::Statement(qubits_text(n, dialect)),
        Entry::Statement(clbits_text(m, dialect)),
        Entry::Comment(comment_text(name)),
    ]
}

/// The lines of the gates.
spec fn gate_entries(gates: Seq<NativeGate>, dialect: Dialect) -> Seq<Entry> {
    Seq::new(gates.len(), |i: int| Entry::Statement(gate_text(gates[i], dialect)))
}

/// Five lines one after the other.
proof fn lemma_five_entries(es: Seq<Entry>)
    requires
        es.len() == 5,
    ensures
        entries_text(es, 5) == entry_line(es[0]).push('\n') + entry_line(es[1]).push('\n')
            + entry_line(es[2]).push('\n') + entry_line(es[3]).push('\n') + entry_line(es[4]).push(
            '\n',
        ),
{
    let none = Seq::<char>::empty();
    assert(entries_text(es, 0) == none);
    assert(entries_text(es, 1) == none + entry_line(es[0]).push('\n'));
    assert(none + entry_line(es[0]).push('\n') =~= entry_line(es[0]).push('\n'));
    assert(entries_text(es, 2) == entries_text(es, 1) + entry_line(es[1]).push('\n'));
    assert(entries_text(es, 3) == entries_text(es, 2) + entry_line(es[2]).push('\n'));
    assert(entries_text(es, 4) == entries_text(es, 3) + entry_line(es[3]).push('\n'));
}

proof fn lemma_regrouped(
    a: Seq<char>,
    b: Seq<char>,
    c: Seq<char>,
    d: Seq<char>,
    e: Seq<char>,
    f: Seq<char>,
    g: Seq<char>,
    h: Seq<char>,
    i: Seq<char>,
)
    ensures
        a + b + c + d + e + f + g + h + i == a + b + (c + d + e) + (f + g + h) + i,
{
    assert(a + b + c + d + e =~= a + b + (c + d + e));
    let x = a + b + (c + d + e);
    assert(x + f + g + h =~= x + (f + g + h));
}

proof fn lemma_comment_line(name: Seq<char>)
    ensures
        comment_text(name).push('\n') == "// Circuit: "@ + name
            + " (native gate set: rz, ry, rzz, measure)\n"@,
{
    reveal_strlit(" (native gate set: rz, ry, rzz, measure)\n");
    reveal_strlit(" (native gate set: rz, ry, rzz, measure)");
    assert(" (native gate set: rz, ry, rzz, measure)"@.push('\n')
        =~= " (native gate set: rz, ry, rzz, measure)\n"@);
    assert(comment_text(name).push('\n') =~= "// Circuit: "@ + name
        + " (native gate set: rz, ry, rzz, measure)"@.push('\n'));
}

proof fn lemma_head_text(n: usize, m: usize, name: Seq<char>, dialect: Dialect)
    ensures
        preamble(n, m, name, dialect) == entries_text(head_entries(n, m, name, dialect), 5),
{
    let x = decimal(n as nat);
    let y = decimal(m as nat);
    let comment = "// Circuit: "@ + name + " (native gate set: rz, ry, rzz, measure)\n"@;
    lemma_five_entries(head_entries(n, m, name, dialect));
    lemma_comment_line(name);
    match dialect {
        Dialect::Two => {
            lemma_head_two(n, m);
            lemma_regrouped(
                "OPENQASM 2.0;\n"@,
                "include \"qelib1.inc\";\n"@,
                "qreg q["@,
                x,
                "];\n"@,
                "creg c["@,
                y,
                "];\n"@,
                comment,
            );
        },
        Dialect::Three => {
            lemma_head_three(n, m);
            lemma_regrouped(
                "OPENQASM 3.0;\n"@,
                "include \"stdgates.inc\";\n"@,
                "qubit["@,
                x,
                "] q;\n"@,
                "bit["@,
                y,
                "] c;\n"@,
                comment,
            );
        },
    }
}

proof fn lemma_head_two(n: usize, m: usize)
    ensures
        version_text(Dialect::Two).push(';').push('\n') == "OPENQASM 2.0;\n"@,
        library_text(Dialect::Two).push(';').push('\n') == "include \"qelib1.inc\";\n"@,
        qubits_text(n, Dialect::Two).push(';').push('\n') == "qreg q["@ + decimal(n as nat)
            + "];\n"@,
        clbits_text(m, Dialect::Two).push(';').push('\n') == "creg c["@ + decimal(m as nat)
            + "];\n"@,
{
    lemma_keywords();
    reveal_strlit("OPENQASM 2.0");
    reveal_strlit("OPENQASM 2.0;\n");
    reveal_strlit("include \"qelib1.inc\"");
    reveal_strlit("include \"qelib1.inc\";\n");
    reveal_strlit("qreg q[");
    reveal_strlit("creg c[");
    reveal_strlit("];\n");
    assert(version_text(Dialect::Two).push(';').push('\n') =~= "OPENQASM 2.0;\n"@);
    assert(library_text(Dialect::Two).push(';').push('\n') =~= "include \"qelib1.inc\";\n"@);
    assert(qubits_text(n, Dialect::Two).push(';').push('\n') =~= "qreg q["@ + decimal(n as nat)
        + "];\n"@);
    assert(clbits_text(m, Dialect::Two).push(';').push('\n') =~= "creg c["@ + decimal(m as nat)
        + "];\n"@);
}

proof fn lemma_head_three(n: usize, m: usize)
    ensures
        version_text(Dialect::Three).push(';').push('\n') == "OPENQASM 3.0;\n"@,
        library_text(Dialect::Three).push(';').push('\n') == "include \"stdgates.inc\";\n"@,
        qubits_text(n, Dialect::Three).push(';').push('\n') == "qubit["@ + decimal(n as nat)
            + "] q;\n"@,
        clbits_text(m, Dialect::Three).push(';').push('\n') == "bit["@ + decimal(m as nat)
            + "] c;\n"@,
{
    lemma_keywords();
    reveal_strlit("OPENQASM 3.0");
    reveal_strlit("OPENQASM 3.0;\n");
    reveal_strlit("include \"stdgates.inc\"");
    reveal_strlit("include \"stdgates.inc\";\n");
    reveal_strlit("qubit[");
    reveal_strlit("bit[");
    reveal_strlit("] q;\n");
    reveal_strlit("] c;\n");
    assert(version_text(Dialect::Three).push(';').push('\n') =~= "OPENQASM 3.0;\n"@);
    assert(library_text(Dialect::Three).push(';').push('\n') =~= "include \"stdgates.inc\";\n"@);
    assert(qubits_text(n, Dialect::Three).push(';').push('\n') =~= "qubit["@ + decimal(n as nat)
        + "] q;\n"@);
    assert(clbits_text(m, Dialect::Three).push(';').push('\n') =~= "bit["@ + decimal(m as nat)
        + "] c;\n"@);
}

/// The text is made of the lines.
proof fn lemma_circuit_text(
    n: usize,
    m: usize,
    name: Seq<char>,
    gates: Seq<NativeGate>,
    dialect: Dialect,
    k: nat,
)
    requires
        k <= gates.len(),
    ensures
        preamble(n, m, name, dialect) + gates_text(gates, dialect, k) == entries_text(
            head_entries(n, m, name, dialect) + gate_entries(gates, dialect),
            5 + k,
        ),
    decreases k,
{
    let head = head_entries(n, m, name, dialect);
    let es = head + gate_entries(gates, dialect);
    if k == 0 {
        lemma_head_text(n, m, name, dialect);
        lemma_entries_text_same(head, es, 5);
        assert(preamble(n, m, name, dialect) + gates_text(gates, dialect, 0) =~= preamble(
            n,
            m,
            name,
            dialect,
        ));
    } else {
        lemma_circuit_text(n, m, name, gates, dialect, (k - 1) as nat);
        let t = gate_text(gates[k - 1], dialect);
        assert(es[4 + k as int] == Entry::Statement(t));
        reveal_strlit(";\n");
        assert(preamble(n, m, name, dialect) + gates_text(gates, dialect, k) =~= (preamble(
            n,
            m,
            name,
            dialect,
        ) + gates_text(gates, dialect, (k - 1) as nat)) + t.push(';').push('\n'));
    }
}

proof fn lemma_entries_text_same(a: Seq<Entry>, b: Seq<Entry>, n: nat)
    requires
        n <= a.len() <= b.len(),
        forall|i: int| 0 <= i < n ==> a[i] == b[i],
    ensures
        entries_text(a, n) == entries_text(b, n),
    decreases n,
{
    if n > 0 {
        lemma_entries_text_same(a, b, (n - 1) as nat);
    }
}

/// The statements of a circuit's text.
spec fn circuit_statements(n: usize, m: usize, gates: Seq<NativeGate>, dialect: Dialect) -> Seq<
    Seq<char>,
> {
    seq![version_text(dialect), library_text(dialect), qubits_text(n, dialect), clbits_text(m, dialect)]
        + Seq::new(gates.len(), |i: int| gate_text(gates[i], dialect))
}

proof fn lemma_circuit_statements(
    n: usize,
    m: usize,
    name: Seq<char>,
    gates: Seq<NativeGate>,
    dialect: Dialect,
    k: nat,
)
    requires
        k <= gates.len(),
    ensures
        entry_statements(head_entries(n, m, name, dialect) + gate_entries(gates, dialect), 5 + k)
            == circuit_statements(n, m, gates, dialect).take(4 + k as int),
    decreases k,
{
    let es = head_entries(n, m, name, dialect) + gate_entries(gates, dialect);
    let want = circuit_statements(n, m, gates, dialect);
    if k == 0 {
        assert(es[0] == Entry::Statement(version_text(dialect)));
        assert(es[1] == Entry::Statement(library_text(dialect)));
        assert(es[2] == Entry::Statement(qubits_text(n, dialect)));
        assert(es[3] == Entry::Statement(clbits_text(m, dialect)));
        assert(es[4] == Entry::Comment(comment_text(name)));
        reveal_with_fuel(entry_statements, 6);
        assert(entry_statements(es, 5) =~= want.take(4));
    } else {
        lemma_circuit_statements(n, m, name, gates, dialect, (k - 1) as nat);
        assert(es[4 + k as int] == Entry::Statement(gate_text(gates[k - 1], dialect)));
        assert(want.take(4 + k as int) =~= want.take(3 + k as int).push(want[3 + k as int]));
    }
}

proof fn lemma_entries_good(
    n: usize,
    m: usize,
    name: Seq<char>,
    gates: Seq<NativeGate>,
    dialect: Dialect,
)
    requires
        lacks(name, '\n'),
        forall|i: int| 0 <= i < gates.len() ==> comes_back(#[trigger] gates[i], n, m),
    ensures
        good_entries(head_entries(n, m, name, dialect) + gate_entries(gates, dialect)),
{
    let es = head_entries(n, m, name, dialect) + gate_entries(gates, dialect);
    lemma_version(dialect, 0, None, None);
    lemma_library(dialect, 0, None, None);
    lemma_qubits(n, dialect, 0, None, None);
    lemma_clbits(m, dialect, 0, None, None);
    lemma_comment(name);
    assert forall|i: int| 0 <= i < es.len() implies good_entry(#[trigger] es[i]) by {
        if i >= 5 {
            assert(es[i] == Entry::Statement(gate_text(gates[i - 5], dialect)));
            assert(comes_back(gates[i - 5], n, m));
            lemma_statement(gates[i - 5], dialect, n, m, 0);
        } else {
            assert(i == 0 || i == 1 || i == 2 || i == 3 || i == 4);
        }
    }
}

proof fn lemma_comment(name: Seq<char>)
    requires
        lacks(name, '\n'),
    ensures
        good_entry(Entry::Comment(comment_text(name))),
{
    reveal_strlit("// Circuit: ");
    reveal_strlit(" (native gate set: rz, ry, rzz, measure)");
    let a = "// Circuit: "@;
    let b = " (native gate set: rz, ry, rzz, measure)"@;
    assert(lacks(a, '\n'));
    assert(lacks(b, '\n'));
    lemma_lacks_joined(a, name, '\n');
    lemma_lacks_joined(a + name, b, '\n');
    let c = comment_text(name);
    assert(c[0] == a[0] && c[1] == a[1]);
    assert(c.last() == b.last());
}

/// The declarations are read.
proof fn lemma_reading_head(all: Seq<Line>, n: usize, m: usize, dialect: Dialect)
    requires
        all.len() >= 4,
        trim(all[0].text) == version_text(dialect),
        trim(all[1].text) == library_text(dialect),
        trim(all[2].text) == qubits_text(n, dialect),
        trim(all[3].text) == clbits_text(m, dialect),
    ensures
        read_statements(all, 4) == Ok::<Reading, Seq<char>>(
            Reading { nq: Some(n), nc: Some(m), gates: Seq::empty() },
        ),
{
    let nothing = Seq::<Gate>::empty();
    let r0 = Reading { nq: None, nc: None, gates: nothing };
    let r2 = Reading { nq: Some(n), nc: None, gates: nothing };
    lemma_version(dialect, all[0].number, None, None);
    lemma_library(dialect, all[1].number, None, None);
    lemma_qubits(n, dialect, all[2].number, None, None);
    lemma_clbits(m, dialect, all[3].number, Some(n), None);
    assert(read_statements(all, 0) == Ok::<Reading, Seq<char>>(r0));
    lemma_read_step(all, 0, r0, version_text(dialect), Effect::Nothing);
    lemma_read_step(all, 1, r0, library_text(dialect), Effect::Nothing);
    lemma_read_step(all, 2, r0, qubits_text(n, dialect), Effect::Qubits(n));
    lemma_read_step(all, 3, r2, clbits_text(m, dialect), Effect::Clbits(m));
}

/// The gates are read one after the other.
proof fn lemma_reading(
    all: Seq<Line>,
    n: usize,
    m: usize,
    gates: Seq<NativeGate>,
    dialect: Dialect,
    k: nat,
)
    requires
        k <= gates.len(),
        forall|i: int| 0 <= i < gates.len() ==> comes_back(#[trigger] gates[i], n, m),
        all.len() == 4 + gates.len(),
        trim(all[0].text) == version_text(dialect),
        trim(all[1].text) == library_text(dialect),
        trim(all[2].text) == qubits_text(n, dialect),
        trim(all[3].text) == clbits_text(m, dialect),
        forall|i: int|
            0 <= i < gates.len() ==> trim((#[trigger] all[4 + i]).text) == gate_text(
                gates[i],
                dialect,
            ),
    ensures
        read_statements(all, 4 + k) == Ok::<Reading, Seq<char>>(
            Reading { nq: Some(n), nc: Some(m), gates: Seq::new(k, |i: int| back(gates[i])) },
        ),
    decreases k,
{
    if k == 0 {
        lemma_reading_head(all, n, m, dialect);
        assert(Seq::new(0, |i: int| back(gates[i])) =~= Seq::<Gate>::empty());
    } else {
        lemma_reading(all, n, m, gates, dialect, (k - 1) as nat);
        let j = k - 1;
        let g = gates[j];
        let r = Reading {
            nq: Some(n),
            nc: Some(m),
            gates: Seq::new((k - 1) as nat, |i: int| back(gates[i])),
        };
        assert(trim(all[4 + j].text) == gate_text(g, dialect));
        assert(comes_back(g, n, m));
        lemma_statement(g, dialect, n, m, all[4 + j].number);
        lemma_read_step(all, (4 + j) as nat, r, gate_text(g, dialect), Effect::Add(back(g)));
        assert(r.gates.push(back(g)) =~= Seq::new(k, |i: int| back(gates[i])));
    }
}

/// Whether a circuit can be read back: its gates are on its registers, their
/// angles are numbers, and each is under at most one condition.
pub open spec fn readable(circuit: NativeCircuit) -> bool {
    forall|i: int|
        0 <= i < circuit.gates@.len() ==> comes_back(
            #[trigger] circuit.gates@[i],
            circuit.num_qubits,
            circuit.num_clbits,
        )
}

/// The statements that are found in a circuit's text.
proof fn lemma_found(
    n: usize,
    m: usize,
    name: Seq<char>,
    gates: Seq<NativeGate>,
    dialect: Dialect,
)
    requires
        lacks(name, '\n'),
        forall|i: int| 0 <= i < gates.len() ==> comes_back(#[trigger] gates[i], n, m),
    ensures
        ({
            let all = statements(
                preamble(n, m, name, dialect) + gates_text(gates, dialect, gates.len()),
            );
            let want = circuit_statements(n, m, gates, dialect);
            &&& all.len() == want.len()
            &&& forall|i: int| 0 <= i < all.len() ==> trim((#[trigger] all[i]).text) == want[i]
        }),
{
    let es = head_entries(n, m, name, dialect) + gate_entries(gates, dialect);
    let want = circuit_statements(n, m, gates, dialect);
    lemma_entries_good(n, m, name, gates, dialect);
    lemma_circuit_text(n, m, name, gates, dialect, gates.len());
    lemma_circuit_statements(n, m, name, gates, dialect, gates.len());
    assert(want.take(4 + gates.len() as int) =~= want);
    assert(es.len() == 5 + gates.len());
    lemma_statements(es);
}

/// What is found is read.
proof fn lemma_read(
    n: usize,
    m: usize,
    name: Seq<char>,
    gates: Seq<NativeGate>,
    dialect: Dialect,
)
    requires
        lacks(name, '\n'),
        forall|i: int| 0 <= i < gates.len() ==> comes_back(#[trigger] gates[i], n, m),
    ensures
        ({
            let all = statements(
                preamble(n, m, name, dialect) + gates_text(gates, dialect, gates.len()),
            );
            read_statements(all, all.len()) == Ok::<Reading, Seq<char>>(
                Reading {
                    nq: Some(n),
                    nc: Some(m),
                    gates: Seq::new(gates.len(), |i: int| back(gates[i])),
                },
            )
        }),
{
    let all = statements(preamble(n, m, name, dialect) + gates_text(gates, dialect, gates.len()));
    let want = circuit_statements(n, m, gates, dialect);
    lemma_found(n, m, name, gates, dialect);
    assert(all.len() == 4 + gates.len());
    assert(trim(all[0].text) == want[0]);
    assert(trim(all[1].text) == want[1]);
    assert(trim(all[2].text) == want[2]);
    assert(trim(all[3].text) == want[3]);
    assert forall|i: int| 0 <= i < gates.len() implies trim((#[trigger] all[4 + i]).text)
        == gate_text(gates[i], dialect) by {
        assert(trim(all[4 + i].text) == want[4 + i]);
    }
    lemma_reading(all, n, m, gates, dialect, gates.len());
}

proof fn lemma_circuit_of(source: Seq<char>, r: Reading)
    requires
        read_statements(statements(source), statements(source).len()) == Ok::<Reading, Seq<char>>(r),
        r.nq is Some,
    ensures
        circuit_of(source) == Ok::<Reading, Seq<char>>(r),
{
}

/// The text of a circuit, in either version of the language, is read back as
/// the same registers and gates, if its name is on one line.
pub proof fn lemma_reads_back(circuit: NativeCircuit, name: Seq<char>, dialect: Dialect)
    requires
        readable(circuit),
        forall|i: int| 0 <= i < name.len() ==> #[trigger] name[i] != '\n',
    ensures
        circuit_of(circuit_text(circuit, name, dialect)) == Ok::<Reading, Seq<char>>(
            Reading {
                nq: Some(circuit.num_qubits),
                nc: Some(circuit.num_clbits),
                gates: circuit.gates@.map_values(|g: NativeGate| back(g)),
            },
        ),
{
    let gates = circuit.gates@;
    let r = Reading {
        nq: Some(circuit.num_qubits),
        nc: Some(circuit.num_clbits),
        gates: Seq::new(gates.len(), |i: int| back(gates[i])),
    };
    lemma_read(circuit.num_qubits, circuit.num_clbits, name, gates, dialect);
    lemma_circuit_of(circuit_text(circuit, name, dialect), r);
    assert(r.gates =~= gates.map_values(|g: NativeGate| back(g)));
}

/// Both versions say the same.
pub proof fn lemma_dialects_agree(circuit: NativeCircuit, name: Seq<char>, other: Seq<char>)
    requires
        readable(circuit),
        forall|i: int| 0 <= i < name.len() ==> #[trigger] name[i] != '\n',
        forall|i: int| 0 <= i < other.len() ==> #[trigger] other[i] != '\n',
    ensures
        circuit_of(circuit_text(circuit, name, Dialect::Two)) == circuit_of(
            circuit_text(circuit, other, Dialect::Three),
        ),
{
    lemma_reads_back(circuit, name, Dialect::Two);
    lemma_reads_back(circuit, other, Dialect::Three);
}

/// The names of a gate in a program.
pub open spec fn spells(name: Seq<char>, g: Gate) -> bool {
    match g {
        Gate::H(_) => name == seq!['h'],
        Gate::X(_) => name == seq!['x'],
        Gate::Y(_) => name == seq!['y'],
        Gate::Z(_) => name == seq!['z'],
        Gate::S(_) => name == seq!['s'],
        Gate::Sdg(_) => name == seq!['s', 'd', 'g'],
        Gate::T(_) => name == seq!['t'],
        Gate::Tdg(_) => name == seq!['t', 'd', 'g'],
        Gate::Rx(_, _) => name == seq!['r', 'x'],
        Gate::Ry(_, _) => name == seq!['r', 'y'],
        Gate::Rz(_, _) => name == seq!['r', 'z'],
        Gate::Cx(_, _) => name == seq!['c', 'x'] || name == seq!['c', 'n', 'o', 't'],
        Gate::Cz(_, _) => name == seq!['c', 'z'],
        Gate::Swap(_, _) => name == seq!['s', 'w', 'a', 'p'],
        Gate::Rxx(_, _, _) => name == seq!['r', 'x', 'x'],
        Gate::Ryy(_, _, _) => name == seq!['r', 'y', 'y'],
        Gate::Rzz(_, _, _) => name == seq!['r', 'z', 'z'],
        Gate::Cp(_, _, _) => name == seq!['c', 'p'] || name == seq!['c', 'p', 'h', 'a', 's', 'e'],
        Gate::Measure(_, _) | Gate::If(_, _) => false,
    }
}

/// The angle of a gate that has one.
pub open spec fn angles(g: Gate) -> Seq<Binary64> {
    match g {
        Gate::Rx(_, x)
        | Gate::Ry(_, x)
        | Gate::Rz(_, x)
        | Gate::Rxx(_, _, x)
        | Gate::Ryy(_, _, x)
        | Gate::Rzz(_, _, x)
        | Gate::Cp(_, _, x) => seq![x],
        _ => Seq::empty(),
    }
}

/// A qubit of the register.
pub open spec fn operand(q: usize) -> Seq<char> {
    seq!['q', '['] + decimal(q as nat) + seq![']']
}

/// The qubits of a gate in their order.
pub open spec fn operands(w: Seq<usize>) -> Seq<char> {
    if w.len() == 1 {
        operand(w[0])
    } else {
        operand(w[0]) + seq![',', ' '] + operand(w[1])
    }
}

/// A gate as a program has it: its name, its angle in brackets, its qubits.
pub open spec fn source_text(name: Seq<char>, g: Gate) -> Seq<char> {
    if angles(g).len() == 1 {
        name + seq!['('] + shown(angles(g)[0]) + seq![')', ' '] + operands(g.wires())
    } else {
        name + seq![' '] + operands(g.wires())
    }
}

/// Whether a gate of a program can be read: its qubits are in the register and
/// its angle is a number.
pub open spec fn readable_gate(g: Gate, n: usize) -> bool {
    &&& forall|i: int| 0 <= i < g.wires().len() ==> #[trigger] g.wires()[i] < n
    &&& forall|i: int| 0 <= i < angles(g).len() ==> angle_comes_back(#[trigger] angles(g)[i])
}

/// A name has letters only.
proof fn lemma_spelled(name: Seq<char>, g: Gate)
    requires
        spells(name, g),
    ensures
        name.len() > 0,
        forall|i: int| 0 <= i < name.len() ==> 'a' <= #[trigger] name[i] <= 'z',
        name[0] != 'm' && name[0] != 'i' && name[0] != 'q' && name[0] != 'b' && name[0] != 'O',
        name[0] == 'c' ==> name.len() > 1 && name[1] != 'r',
{
}

proof fn lemma_literals()
    ensures
        "h"@ == seq!['h'],
        "x"@ == seq!['x'],
        "y"@ == seq!['y'],
        "z"@ == seq!['z'],
        "s"@ == seq!['s'],
        "sdg"@ == seq!['s', 'd', 'g'],
        "t"@ == seq!['t'],
        "tdg"@ == seq!['t', 'd', 'g'],
        "rx"@ == seq!['r', 'x'],
        "ry"@ == seq!['r', 'y'],
        "rz"@ == seq!['r', 'z'],
        "cx"@ == seq!['c', 'x'],
        "cnot"@ == seq!['c', 'n', 'o', 't'],
        "cz"@ == seq!['c', 'z'],
        "swap"@ == seq!['s', 'w', 'a', 'p'],
        "rxx"@ == seq!['r', 'x', 'x'],
        "ryy"@ == seq!['r', 'y', 'y'],
        "rzz"@ == seq!['r', 'z', 'z'],
        "cp"@ == seq!['c', 'p'],
        "cphase"@ == seq!['c', 'p', 'h', 'a', 's', 'e'],
{
    reveal_strlit("h");
    reveal_strlit("x");
    reveal_strlit("y");
    reveal_strlit("z");
    reveal_strlit("s");
    reveal_strlit("sdg");
    reveal_strlit("t");
    reveal_strlit("tdg");
    reveal_strlit("rx");
    reveal_strlit("ry");
    reveal_strlit("rz");
    reveal_strlit("cx");
    reveal_strlit("cnot");
    reveal_strlit("cz");
    reveal_strlit("swap");
    reveal_strlit("rxx");
    reveal_strlit("ryy");
    reveal_strlit("rzz");
    reveal_strlit("cp");
    reveal_strlit("cphase");
    assert("h"@ =~= seq!['h']);
    assert("x"@ =~= seq!['x']);
    assert("y"@ =~= seq!['y']);
    assert("z"@ =~= seq!['z']);
    assert("s"@ =~= seq!['s']);
    assert("sdg"@ =~= seq!['s', 'd', 'g']);
    assert("t"@ =~= seq!['t']);
    assert("tdg"@ =~= seq!['t', 'd', 'g']);
    assert("rx"@ =~= seq!['r', 'x']);
    assert("ry"@ =~= seq!['r', 'y']);
    assert("rz"@ =~= seq!['r', 'z']);
    assert("cx"@ =~= seq!['c', 'x']);
    assert("cnot"@ =~= seq!['c', 'n', 'o', 't']);
    assert("cz"@ =~= seq!['c', 'z']);
    assert("swap"@ =~= seq!['s', 'w', 'a', 'p']);
    assert("rxx"@ =~= seq!['r', 'x', 'x']);
    assert("ryy"@ =~= seq!['r', 'y', 'y']);
    assert("rzz"@ =~= seq!['r', 'z', 'z']);
    assert("cp"@ =~= seq!['c', 'p']);
    assert("cphase"@ =~= seq!['c', 'p', 'h', 'a', 's', 'e']);
}

/// A name stands for its gate.
proof fn lemma_named(line: nat, name: Seq<char>, g: Gate, stmt: Seq<char>)
    requires
        spells(name, g),
    ensures
        named_gate(line, name, g.wires(), angles(g), stmt) == Ok::<Gate, Seq<char>>(g),
{
    lemma_literals();
    let k = name.len();
    assert(k == 1 || k == 2 || k == 3 || k == 4 || k == 6);
    let c0 = name[0];
    let c1 = name[1];
    let c2 = name[2];
    assert(k == 1 ==> name =~= seq![c0]);
    assert(seq!['h'][0] == 'h' && seq!['x'][0] == 'x' && seq!['y'][0] == 'y' && seq!['z'][0] == 'z'
        && seq!['s'][0] == 's' && seq!['t'][0] == 't');
    assert(seq!['r', 'x'][1] == 'x' && seq!['r', 'y'][1] == 'y' && seq!['r', 'z'][1] == 'z'
        && seq!['c', 'x'][1] == 'x' && seq!['c', 'z'][1] == 'z' && seq!['c', 'p'][1] == 'p');
    assert(seq!['r', 'x'][0] == 'r' && seq!['r', 'y'][0] == 'r' && seq!['r', 'z'][0] == 'r'
        && seq!['c', 'x'][0] == 'c' && seq!['c', 'z'][0] == 'c' && seq!['c', 'p'][0] == 'c');
    assert(seq!['s', 'd', 'g'][0] == 's' && seq!['t', 'd', 'g'][0] == 't' && seq!['r', 'x', 'x'][0]
        == 'r' && seq!['r', 'y', 'y'][0] == 'r' && seq!['r', 'z', 'z'][0] == 'r');
    assert(seq!['r', 'x', 'x'][1] == 'x' && seq!['r', 'y', 'y'][1] == 'y' && seq!['r', 'z', 'z'][1]
        == 'z');
    assert(seq!['c', 'n', 'o', 't'][0] == 'c' && seq!['s', 'w', 'a', 'p'][0] == 's');
    assert(g.wires().len() == 1 || g.wires().len() == 2);
}

proof fn lemma_name_end_space(s: Seq<char>, i: int, k: int)
    requires
        0 <= i <= k < s.len(),
        forall|j: int| i <= j < k ==> #[trigger] s[j] != '(' && !is_space(s[j]),
        is_space(s[k]),
    ensures
        name_end(s, i) == k,
    decreases k - i,
{
    if i < k {
        lemma_name_end_space(s, i + 1, k);
    }
}

/// The qubits of a gate are read in their order, whether or not a space stands
/// in front.
proof fn lemma_operands(w: Seq<usize>, lead: Seq<char>, line: nat)
    requires
        w.len() == 1 || w.len() == 2,
        lead.len() <= 1,
        blank(lead),
        lacks(lead, ','),
    ensures
        qubit_list(lead + operands(w), line) == Ok::<Seq<usize>, Seq<char>>(w),
{
    let none = Seq::<char>::empty();
    let s = lead + operand(w[0]);
    assert(operand(w[0]) == ref_text('q', w[0]));
    lemma_index_ref(lead, 'q', w[0], none, line);
    assert(s + none =~= s);
    lemma_comma_free(w[0]);
    lemma_lacks_joined(lead, operand(w[0]), ',');
    assert(Seq::<usize>::empty().push(w[0]) =~= seq![w[0]]);
    if w.len() == 1 {
        lemma_pieces_one(s, ',');
        let toks = seq![s];
        assert(toks[0] == s);
        assert(index_list(toks, line, 0) == Ok::<Seq<usize>, Seq<char>>(Seq::empty()));
        assert(index_list(toks, line, 1) == Ok::<Seq<usize>, Seq<char>>(seq![w[0]]));
        assert(w =~= seq![w[0]]);
    } else {
        let t = seq![' '] + operand(w[1]);
        assert(operand(w[1]) == ref_text('q', w[1]));
        lemma_index_ref(seq![' '], 'q', w[1], none, line);
        assert(t + none =~= t);
        lemma_comma_free(w[1]);
        lemma_lacks_joined(seq![' '], operand(w[1]), ',');
        lemma_pieces_two(s, ',', t);
        assert(lead + operands(w) =~= s.push(',') + t);
        let toks = seq![s, t];
        assert(toks[0] == s && toks[1] == t);
        assert(index_list(toks, line, 0) == Ok::<Seq<usize>, Seq<char>>(Seq::empty()));
        assert(index_list(toks, line, 1) == Ok::<Seq<usize>, Seq<char>>(seq![w[0]]));
        assert(seq![w[0]].push(w[1]) =~= w);
        assert(index_list(toks, line, 2) == Ok::<Seq<usize>, Seq<char>>(w));
    }
}

proof fn lemma_comma_free(q: usize)
    ensures
        lacks(operand(q), ','),
{
    let s = operand(q);
    let d = decimal(q as nat);
    lemma_numeral_plain(q as nat);
    assert forall|i: int| 0 <= i < s.len() implies #[trigger] s[i] != ',' by {
        if 2 <= i < 2 + d.len() {
            assert(s[i] == d[i - 2]);
        }
    }
}

proof fn lemma_operands_clean(w: Seq<usize>)
    requires
        w.len() == 1 || w.len() == 2,
    ensures
        clean(operands(w)),
        lacks(operands(w), '='),
        operands(w).len() > 1,
        operands(w)[0] == 'q',
        !is_space(operands(w).last()),
{
    lemma_ref_clean('q', w[0]);
    assert(operand(w[0]) == ref_text('q', w[0]));
    if w.len() == 2 {
        lemma_ref_clean('q', w[1]);
        assert(operand(w[1]) == ref_text('q', w[1]));
        let mid = seq![',', ' '];
        assert(clean(mid) && lacks(mid, '='));
        lemma_clean_joined(operand(w[0]), mid);
        lemma_clean_joined(operand(w[0]) + mid, operand(w[1]));
        lemma_lacks_joined(operand(w[0]), mid, '=');
        lemma_lacks_joined(operand(w[0]) + mid, operand(w[1]), '=');
        assert(operands(w).last() == operand(w[1]).last());
        assert(operands(w)[0] == operand(w[0])[0]);
    }
}

/// A gate without an angle.
proof fn lemma_plain_gate(name: Seq<char>, w: Seq<usize>, g: Gate, line: nat)
    requires
        w.len() == 1 || w.len() == 2,
        name.len() > 0,
        forall|i: int| 0 <= i < name.len() ==> #[trigger] name[i] != '(' && !is_space(name[i]),
        named_gate(line, name, w, Seq::empty(), name + seq![' '] + operands(w)) == Ok::<
            Gate,
            Seq<char>,
        >(g),
    ensures
        gate_statement(name + seq![' '] + operands(w), line) == Ok::<Gate, Seq<char>>(g),
{
    let o = operands(w);
    let stmt = name + seq![' '] + o;
    let k = name.len() as int;
    let none = Seq::<char>::empty();
    lemma_operands_clean(w);
    assert(stmt[0] == name[0]);
    lemma_space_end_at(stmt, 0, 0);
    let t = trim_start(stmt);
    assert(t =~= stmt);
    assert forall|j: int| 0 <= j < k implies #[trigger] t[j] != '(' && !is_space(t[j]) by {
        assert(t[j] == name[j]);
    }
    assert(t[k] == ' ');
    lemma_name_end_space(t, 0, k);
    assert(t.take(k) =~= name);
    let rest = t.skip(k);
    assert(rest =~= seq![' '] + o);
    assert(rest[0] == ' ' && rest[1] == o[0]);
    lemma_space_end_at(rest, 0, 1);
    assert(trim_start(rest) =~= o);
    lemma_operands(w, none, line);
    assert(none + o =~= o);
}

proof fn lemma_shape(g: Gate)
    requires
        !(g is If),
    ensures
        g.wires().len() == 1 || g.wires().len() == 2,
        angles(g).len() == 0 ==> angles(g) == Seq::<Binary64>::empty(),
        angles(g).len() <= 1,
{
}

/// A gate of a program is read as itself, its qubits in their order.
proof fn lemma_source_gate(name: Seq<char>, g: Gate, n: usize, line: nat)
    requires
        spells(name, g),
        readable_gate(g, n),
    ensures
        gate_statement(source_text(name, g), line) == Ok::<Gate, Seq<char>>(g),
{
    let stmt = source_text(name, g);
    lemma_shape(g);
    lemma_spelled(name, g);
    lemma_named(line, name, g, stmt);
    lemma_source_gate_parts(name, g.wires(), angles(g), g, line);
}

proof fn lemma_source_gate_parts(
    name: Seq<char>,
    w: Seq<usize>,
    p: Seq<Binary64>,
    g: Gate,
    line: nat,
)
    requires
        w.len() == 1 || w.len() == 2,
        p.len() <= 1,
        p.len() == 1 ==> angle_comes_back(p[0]),
        name.len() > 0,
        forall|i: int| 0 <= i < name.len() ==> 'a' <= #[trigger] name[i] <= 'z',
        ({
            let stmt = if p.len() == 1 {
                name + seq!['('] + shown(p[0]) + seq![')', ' '] + operands(w)
            } else {
                name + seq![' '] + operands(w)
            };
            named_gate(line, name, w, p, stmt) == Ok::<Gate, Seq<char>>(g)
        }),
    ensures
        ({
            let stmt = if p.len() == 1 {
                name + seq!['('] + shown(p[0]) + seq![')', ' '] + operands(w)
            } else {
                name + seq![' '] + operands(w)
            };
            gate_statement(stmt, line) == Ok::<Gate, Seq<char>>(g)
        }),
{
    assert forall|i: int| 0 <= i < name.len() implies #[trigger] name[i] != '(' && !is_space(
        name[i],
    ) by {
        assert('a' <= name[i] <= 'z');
    }
    if p.len() == 1 {
        let x = p[0];
        let tail = seq![' '] + operands(w);
        assert(name + seq!['('] + shown(x) + seq![')', ' '] + operands(w) =~= name.push('(') + shown(
            x,
        ) + seq![')'] + tail);
        lemma_operands(w, seq![' '], line);
        assert(p =~= seq![x]);
        lemma_gate_statement(name, x, tail, w, g, line);
    } else {
        assert(p =~= Seq::<Binary64>::empty());
        lemma_plain_gate(name, w, g, line);
    }
}

/// The text of a gate stands for itself in a program.
proof fn lemma_source_plain(name: Seq<char>, g: Gate)
    requires
        spells(name, g),
    ensures
        clean(source_text(name, g)),
        lacks(source_text(name, g), '='),
        tight(source_text(name, g)),
        source_text(name, g).len() > 2,
        source_text(name, g)[0] == name[0],
        name.len() > 1 ==> source_text(name, g)[1] == name[1],
{
    let s = source_text(name, g);
    let o = operands(g.wires());
    lemma_spelled(name, g);
    lemma_operands_clean(g.wires());
    assert forall|i: int| 0 <= i < name.len() implies #[trigger] name[i] != ';' && name[i] != '\n'
        && name[i] != '\r' && name[i] != '/' && name[i] != '=' by {
        assert('a' <= name[i] <= 'z');
    }
    assert(clean(name) && lacks(name, '='));
    if angles(g).len() == 1 {
        let x = angles(g)[0];
        let v = shown(x);
        lemma_shown_plain(x);
        lemma_shown_chars(x);
        let open = seq!['('];
        let close = seq![')', ' '];
        assert(clean(open) && lacks(open, '=') && clean(close) && lacks(close, '='));
        lemma_clean_joined(name, open);
        lemma_clean_joined(name + open, v);
        lemma_clean_joined(name + open + v, close);
        lemma_clean_joined(name + open + v + close, o);
        lemma_lacks_joined(name, open, '=');
        lemma_lacks_joined(name + open, v, '=');
        lemma_lacks_joined(name + open + v, close, '=');
        lemma_lacks_joined(name + open + v + close, o, '=');
    } else {
        let space = seq![' '];
        assert(clean(space) && lacks(space, '='));
        lemma_clean_joined(name, space);
        lemma_clean_joined(name + space, o);
        lemma_lacks_joined(name, space, '=');
        lemma_lacks_joined(name + space, o, '=');
    }
    assert(s[0] == name[0]);
    assert(s.last() == o.last());
    assert('a' <= name[0] <= 'z');
}

/// The statement of a gate adds it: its qubits are those of the text, in
/// the same order, and so is its angle.
pub proof fn lemma_gate_read(name: Seq<char>, g: Gate, n: usize, nc: Option<usize>, line: nat)
    requires
        spells(name, g),
        readable_gate(g, n),
    ensures
        statement(source_text(name, g), line, Some(n), nc) == Ok::<Effect, Seq<char>>(
            Effect::Add(g),
        ),
{
    let t = source_text(name, g);
    lemma_source_plain(name, g);
    lemma_spelled(name, g);
    lemma_source_gate(name, g, n, line);
    lemma_keywords();
    assert('a' <= name[0] <= 'z');
    lemma_not_prefix("OPENQASM"@, t, 0);
    lemma_not_prefix("include"@, t, 0);
    lemma_not_prefix("qreg"@, t, 0);
    if name[0] == 'c' {
        lemma_not_prefix("creg"@, t, 1);
    } else {
        lemma_not_prefix("creg"@, t, 0);
    }
    lemma_not_prefix("qubit"@, t, 0);
    lemma_not_prefix("bit"@, t, 0);
    lemma_not_prefix("//"@, t, 0);
    lemma_not_prefix("measure"@, t, 0);
    lemma_not_prefix("if"@, t, 0);
    lemma_find_at(t, '=', t.len() as int);
    assert(!is_assignment(t));
    let w = g.wires();
    assert(w.len() == 1 || w.len() == 2);
    assert(w[0] < n);
    assert(w.len() == 2 ==> w[1] < n);
    assert(gate_in_range(g, n, line, t) == Ok::<Gate, Seq<char>>(g));
}

/// A program: the registers, and the first `k` gates on a line each.
pub open spec fn program(n: usize, m: usize, names: Seq<Seq<char>>, gates: Seq<Gate>, k: nat) -> Seq<
    char,
>
    decreases k,
{
    if k == 0 {
        seq!['q', 'r', 'e', 'g', ' ', 'q', '['] + decimal(n as nat) + seq![
            ']',
            ';',
            '\n',
            'c',
            'r',
            'e',
            'g',
            ' ',
            'c',
            '[',
        ] + decimal(m as nat) + seq![']', ';', '\n']
    } else {
        program(n, m, names, gates, (k - 1) as nat) + source_text(names[k - 1], gates[k - 1])
            + seq![';', '\n']
    }
}

spec fn program_entries(n: usize, m: usize, names: Seq<Seq<char>>, gates: Seq<Gate>) -> Seq<Entry> {
    seq![
        Entry::Statement(qubits_text(n, Dialect::Two)),
        Entry::Statement(clbits_text(m, Dialect::Two)),
    ] + Seq::new(gates.len(), |i: int| Entry::Statement(source_text(names[i], gates[i])))
}

proof fn lemma_program_head(n: usize, m: usize)
    ensures
        program(n, m, Seq::empty(), Seq::empty(), 0) == qubits_text(n, Dialect::Two).push(';').push(
            '\n',
        ) + clbits_text(m, Dialect::Two).push(';').push('\n'),
{
    lemma_keywords();
    assert(program(n, m, Seq::empty(), Seq::empty(), 0) =~= qubits_text(n, Dialect::Two).push(
        ';',
    ).push('\n') + clbits_text(m, Dialect::Two).push(';').push('\n'));
}

proof fn lemma_program_entries(
    n: usize,
    m: usize,
    names: Seq<Seq<char>>,
    gates: Seq<Gate>,
    k: nat,
)
    requires
        k <= gates.len(),
    ensures
        entries_text(program_entries(n, m, names, gates), 2 + k) == program(n, m, names, gates, k),
        entry_statements(program_entries(n, m, names, gates), 2 + k) == seq![
            qubits_text(n, Dialect::Two),
            clbits_text(m, Dialect::Two),
        ] + Seq::new(k, |i: int| source_text(names[i], gates[i])),
    decreases k,
{
    let es = program_entries(n, m, names, gates);
    if k == 0 {
        lemma_program_head(n, m);
        assert(program(n, m, names, gates, 0) == program(n, m, Seq::empty(), Seq::empty(), 0));
        reveal_with_fuel(entries_text, 3);
        reveal_with_fuel(entry_statements, 3);
        assert(es[0] == Entry::Statement(qubits_text(n, Dialect::Two)));
        assert(es[1] == Entry::Statement(clbits_text(m, Dialect::Two)));
        assert(entries_text(es, 2) =~= program(n, m, names, gates, 0));
        assert(entry_statements(es, 2) =~= seq![
            qubits_text(n, Dialect::Two),
            clbits_text(m, Dialect::Two),
        ] + Seq::new(0, |i: int| source_text(names[i], gates[i])));
    } else {
        lemma_program_entries(n, m, names, gates, (k - 1) as nat);
        let t = source_text(names[k - 1], gates[k - 1]);
        assert(es[1 + k as int] == Entry::Statement(t));
        assert(entries_text(es, 2 + k) =~= program(n, m, names, gates, k));
        assert(entry_statements(es, 2 + k) =~= seq![
            qubits_text(n, Dialect::Two),
            clbits_text(m, Dialect::Two),
        ] + Seq::new(k, |i: int| source_text(names[i], gates[i])));
    }
}

proof fn lemma_program_read(
    all: Seq<Line>,
    n: usize,
    m: usize,
    names: Seq<Seq<char>>,
    gates: Seq<Gate>,
    k: nat,
)
    requires
        k <= gates.len(),
        all.len() == 2 + gates.len(),
        trim(all[0].text) == qubits_text(n, Dialect::Two),
        trim(all[1].text) == clbits_text(m, Dialect::Two),
        forall|i: int|
            0 <= i < gates.len() ==> trim((#[trigger] all[2 + i]).text) == source_text(
                names[i],
                gates[i],
            ),
        forall|i: int|
            0 <= i < gates.len() ==> spells(names[i], #[trigger] gates[i]) && readable_gate(
                gates[i],
                n,
            ),
    ensures
        read_statements(all, 2 + k) == Ok::<Reading, Seq<char>>(
            Reading { nq: Some(n), nc: Some(m), gates: gates.take(k as int) },
        ),
    decreases k,
{
    let nothing = Seq::<Gate>::empty();
    if k == 0 {
        let r0 = Reading { nq: None, nc: None, gates: nothing };
        let r1 = Reading { nq: Some(n), nc: None, gates: nothing };
        lemma_qubits(n, Dialect::Two, all[0].number, None, None);
        lemma_clbits(m, Dialect::Two, all[1].number, Some(n), None);
        assert(read_statements(all, 0) == Ok::<Reading, Seq<char>>(r0));
        lemma_read_step(all, 0, r0, qubits_text(n, Dialect::Two), Effect::Qubits(n));
        lemma_read_step(all, 1, r1, clbits_text(m, Dialect::Two), Effect::Clbits(m));
        assert(gates.take(0) =~= nothing);
    } else {
        lemma_program_read(all, n, m, names, gates, (k - 1) as nat);
        let j = k - 1;
        let g = gates[j];
        let t = source_text(names[j], g);
        let r = Reading { nq: Some(n), nc: Some(m), gates: gates.take(j) };
        assert(trim(all[2 + j].text) == t);
        lemma_gate_read(names[j], g, n, Some(m), all[2 + j].number);
        lemma_source_plain(names[j], g);
        lemma_reads(t, all[2 + j].number, Some(n), Some(m), Effect::Add(g));
        lemma_read_step(all, (2 + j) as nat, r, t, Effect::Add(g));
        assert(gates.take(j).push(g) =~= gates.take(k as int));
    }
}

/// A program is read as the circuit that it spells out: the sizes of its
/// registers, and its gates in their order, each on its qubits in their order
/// and with its angle.
pub proof fn lemma_program(n: usize, m: usize, names: Seq<Seq<char>>, gates: Seq<Gate>)
    requires
        forall|i: int|
            0 <= i < gates.len() ==> spells(names[i], #[trigger] gates[i]) && readable_gate(
                gates[i],
                n,
            ),
    ensures
        circuit_of(program(n, m, names, gates, gates.len())) == Ok::<Reading, Seq<char>>(
            Reading { nq: Some(n), nc: Some(m), gates },
        ),
{
    let es = program_entries(n, m, names, gates);
    let source = program(n, m, names, gates, gates.len());
    lemma_program_entries(n, m, names, gates, gates.len());
    lemma_qubits(n, Dialect::Two, 0, None, None);
    lemma_clbits(m, Dialect::Two, 0, None, None);
    assert forall|i: int| 0 <= i < es.len() implies good_entry(#[trigger] es[i]) by {
        if i >= 2 {
            assert(es[i] == Entry::Statement(source_text(names[i - 2], gates[i - 2])));
            lemma_source_plain(names[i - 2], gates[i - 2]);
        } else {
            assert(i == 0 || i == 1);
        }
    }
    lemma_statements(es);
    let all = statements(source);
    let want = entry_statements(es, es.len());
    assert(es.len() == 2 + gates.len());
    assert(want[0] == qubits_text(n, Dialect::Two));
    assert(want[1] == clbits_text(m, Dialect::Two));
    assert(trim(all[0].text) == want[0]);
    assert(trim(all[1].text) == want[1]);
    assert forall|i: int| 0 <= i < gates.len() implies trim((#[trigger] all[2 + i]).text)
        == source_text(names[i], gates[i]) by {
        assert(trim(all[2 + i].text) == want[2 + i]);
    }
    lemma_program_read(all, n, m, names, gates, gates.len());
    assert(gates.take(gates.len() as int) =~= gates);
    lemma_circuit_of(source, Reading { nq: Some(n), nc: Some(m), gates });
}

/// A measurement as a program has it, in the older spelling.
pub open spec fn measure_text(q: usize, c: usize) -> Seq<char> {
    seq!['m', 'e', 'a', 's', 'u', 'r', 'e', ' '] + operand(q) + seq![' ', '-', '>', ' ', 'c', '[']
        + decimal(c as nat) + seq![']']
}

/// A measurement is read as itself: the qubit stands in front of the arrow,
/// the classical bit behind it.
pub proof fn lemma_measure_read(q: usize, c: usize, n: usize, m: usize, line: nat)
    requires
        q < n,
        c < m,
    ensures
        statement(measure_text(q, c), line, Some(n), Some(m)) == Ok::<Effect, Seq<char>>(
            Effect::Add(Gate::Measure(q, c)),
        ),
{
    lemma_measure_two(q, c, n, m, line);
    lemma_measure_text(q, c);
}

proof fn lemma_measure_text(q: usize, c: usize)
    ensures
        measure_text(q, c) == gate_text(NativeGate::Measure(q, c), Dialect::Two),
{
    lemma_arrow_text(q, c);
    lemma_keywords();
    assert(measure_text(q, c) =~= "measure"@ + arrow_text(q, c));
}

/// A conditioned gate as a program has it.
pub open spec fn if_text(bit: usize, v: bool, name: Seq<char>, g: Gate) -> Seq<char> {
    seq!['i', 'f', ' ', '(', 'c', '['] + decimal(bit as nat) + seq![']', '=', '='] + (if v {
        seq!['1']
    } else {
        seq!['0']
    }) + seq![')', ' '] + source_text(name, g)
}

/// A conditioned gate is read as itself, under its condition.
pub proof fn lemma_if_read(
    bit: usize,
    v: bool,
    name: Seq<char>,
    g: Gate,
    n: usize,
    m: usize,
    line: nat,
)
    requires
        bit < m,
        spells(name, g),
        readable_gate(g, n),
    ensures
        statement(if_text(bit, v, name, g), line, Some(n), Some(m)) == Ok::<Effect, Seq<char>>(
            Effect::Add(
                Gate::If(
                    Conditions::When(bit, v, Box::new(Conditions::Always)),
                    Box::new(g),
                ),
            ),
        ),
{
    let u = source_text(name, g);
    let t = if_text(bit, v, name, g);
    lemma_if_text(bit, v, name, g);
    lemma_source_plain(name, g);
    lemma_guard_clean(bit, v, u);
    lemma_no_declaration(t);
    lemma_source_guard_read(bit, v, name, g, n, m, line, t);
    lemma_if_applies(t, guard_text(bit, v, u), n, m, line);
}

proof fn lemma_if_applies(t: Seq<char>, rest: Seq<char>, n: usize, m: usize, line: nat)
    requires
        t == "if"@ + rest,
        no_declaration(t),
        !"measure"@.is_prefix_of(t),
    ensures
        statement(t, line, Some(n), Some(m)) == if_statement(rest, n, m, line, t),
{
    lemma_prefix("if"@, rest);
}

proof fn lemma_if_text(bit: usize, v: bool, name: Seq<char>, g: Gate)
    ensures
        if_text(bit, v, name, g) == "if"@ + guard_text(bit, v, source_text(name, g)),
{
    lemma_keywords();
    reveal_strlit("1");
    reveal_strlit("0");
    assert("1"@ =~= seq!['1']);
    assert("0"@ =~= seq!['0']);
    let u = source_text(name, g);
    assert(if_text(bit, v, name, g) =~= "if"@ + guard_text(bit, v, u));
}

proof fn lemma_source_guard_read(
    bit: usize,
    v: bool,
    name: Seq<char>,
    g: Gate,
    n: usize,
    m: usize,
    line: nat,
    stmt: Seq<char>,
)
    requires
        bit < m,
        spells(name, g),
        readable_gate(g, n),
    ensures
        if_statement(guard_text(bit, v, source_text(name, g)), n, m, line, stmt) == Ok::<
            Effect,
            Seq<char>,
        >(
            Effect::Add(
                Gate::If(
                    Conditions::When(bit, v, Box::new(Conditions::Always)),
                    Box::new(g),
                ),
            ),
        ),
{
    let u = source_text(name, g);
    let none = Seq::<char>::empty();
    lemma_condition(bit, v, u, line);
    lemma_source_plain(name, g);
    lemma_spelled(name, g);
    lemma_keywords();
    lemma_trim(seq![' '], u, none);
    assert(seq![' '] + u + none =~= seq![' '] + u);
    lemma_not_prefix("measure"@, u, 0);
    lemma_not_prefix("if"@, u, 0);
    lemma_source_gate(name, g, n, line);
    lemma_shape(g);
    let w = g.wires();
    assert(w[0] < n);
    assert(w.len() == 2 ==> w[1] < n);
    assert(gate_in_range(g, n, line, stmt) == Ok::<Gate, Seq<char>>(g));
}

} // verus!
