//! Reads circuits from OPENQASM text.
//!
//! The dialect has the gates of [`crate::ir::Gate`] with one quantum and
//! one classical register, in the spelling of version 2.0 or 3.0, and one
//! extension: `if (c[N]==0|1) <gate>;`. Anything else is an error that names
//! the line.
use crate::binary64::Binary64;
use crate::ir::{Circuit, Conditions, Gate};
use crate::number::{digit_of, digit_value, digits_end, digits_value, number, parse_number};
use crate::text::{
    after, chars_of, decimal, find, find_two, is_space, lemma_find, pieces, position_of,
    position_of_two, push_chars, push_decimal, rows, slice, space, spelled, split_at, starts_with,
    trim, trim_start, trimmed, trimmed_start,
};
use vstd::prelude::*;

verus! {

/// A result and what it stands for.
pub open spec fn same<T>(r: Result<T, String>, s: Result<T, Seq<char>>) -> bool {
    match r {
        Ok(x) => s == Ok::<T, Seq<char>>(x),
        Err(text) => s == Err::<T, Seq<char>>(text@),
    }
}

/// The whole number that a text stands for, with an optional plus sign.
pub open spec fn whole_number(s: Seq<char>) -> Option<usize> {
    let u = if s.len() > 0 && s[0] == '+' {
        s.skip(1)
    } else {
        s
    };
    if u.len() > 0 && digits_end(u, 0) == u.len() && digits_value(u, 0, u.len() as int, 0)
        <= usize::MAX {
        Some(digits_value(u, 0, u.len() as int, 0) as usize)
    } else {
        None
    }
}

proof fn lemma_digits_value_grows(s: Seq<char>, i: int, end: int, acc: nat)
    requires
        i <= end,
    ensures
        digits_value(s, i, end, acc) >= acc,
    decreases end - i,
{
    if i < end {
        lemma_digits_value_grows(s, i + 1, end, acc * 10 + digit_value(s[i]).unwrap_or(0));
    }
}

fn parse_whole(s: &Vec<char>) -> (r: Option<usize>)
    ensures
        r == whole_number(s@),
{
    let mut from: usize = 0;
    if s.len() > 0 && s[0] == '+' {
        from = 1;
    }
    let ghost u = s@.skip(from as int);
    assert(s@.skip(0) =~= s@);
    if from == s.len() {
        return None;
    }
    let mut k: usize = from;
    let mut n: usize = 0;
    while k < s.len()
        invariant
            from <= k <= s.len(),
            u == s@.skip(from as int),
            u == (if s@.len() > 0 && s@[0] == '+' {
                s@.skip(1)
            } else {
                s@
            }),
            from < s.len(),
            digits_end(u, 0) == digits_end(u, k - from),
            digits_value(u, 0, u.len() as int, 0) == digits_value(
                u,
                k - from,
                u.len() as int,
                n as nat,
            ),
        decreases s.len() - k,
    {
        assert(u[k - from] == s@[k as int]);
        match digit_of(s[k]) {
            None => {
                return None;
            },
            Some(d) => {
                proof {
                    lemma_digits_value_grows(
                        u,
                        k - from + 1,
                        u.len() as int,
                        (n * 10 + d) as nat,
                    );
                    lemma_all_digits(u, k - from + 1);
                }
                if n > (usize::MAX - d as usize) / 10 {
                    assert(n * 10 + d > usize::MAX);
                    return None;
                }
                n = n * 10 + d as usize;
                k = k + 1;
            },
        }
    }
    Some(n)
}

proof fn lemma_all_digits(s: Seq<char>, i: int)
    requires
        0 <= i <= s.len(),
    ensures
        digits_end(s, i) <= s.len(),
    decreases s.len() - i,
{
    if i < s.len() && digit_value(s[i]) is Some {
        lemma_all_digits(s, i + 1);
    }
}

pub open spec fn line_head(line: nat) -> Seq<char> {
    "line "@ + decimal(line) + ": "@
}

fn head(line: usize) -> (r: String)
    ensures
        r@ == line_head(line as nat),
{
    let mut s = String::from_str("line ");
    push_decimal(&mut s, line as u128);
    s.append(": ");
    s
}

/// A message and a text in backquotes.
pub open spec fn quoting(line: nat, message: Seq<char>, quoted: Seq<char>) -> Seq<char> {
    line_head(line) + message + "`"@ + quoted + "`"@
}

fn quote(line: usize, message: &str, quoted: &Vec<char>) -> (r: String)
    ensures
        r@ == quoting(line as nat, message@, quoted@),
{
    let mut s = head(line);
    s.append(message);
    s.append("`");
    push_chars(&mut s, quoted);
    s.append("`");
    s
}

/// The text between the first brackets.
pub open spec fn bracketed(s: Seq<char>) -> Option<Seq<char>> {
    let open = find(s, '[', 0);
    let close = find(s, ']', 0);
    if open < s.len() && close < s.len() && open < close {
        Some(s.subrange(open + 1, close))
    } else {
        None
    }
}

pub open spec fn has_brackets(s: Seq<char>) -> bool {
    find(s, '[', 0) < s.len() && find(s, ']', 0) < s.len()
}

/// The size of a register, as in `q[5]`.
pub open spec fn register_size(rest: Seq<char>, line: nat) -> Result<usize, Seq<char>> {
    match bracketed(rest) {
        None => Err(line_head(line) + "malformed register declaration"@),
        Some(inner) => match whole_number(trim(inner)) {
            None => Err(line_head(line) + "malformed register size"@),
            Some(n) => Ok(n),
        },
    }
}

fn parse_register_size(rest: &Vec<char>, line: usize) -> (r: Result<usize, String>)
    ensures
        same(r, register_size(rest@, line as nat)),
{
    let open = position_of(rest, '[');
    let close = position_of(rest, ']');
    if open >= rest.len() || close >= rest.len() || open >= close {
        let mut s = head(line);
        s.append("malformed register declaration");
        return Err(s);
    }
    let inner = slice(rest, open + 1, close);
    match parse_whole(&trimmed(&inner)) {
        None => {
            let mut s = head(line);
            s.append("malformed register size");
            Err(s)
        },
        Some(n) => Ok(n),
    }
}

/// The size of a register declared as in `qubit[5] q` or `qubit q`.
pub open spec fn declared_size(rest: Seq<char>, line: nat) -> Result<usize, Seq<char>> {
    let t = trim_start(rest);
    if t.len() > 0 && t[0] == '[' {
        register_size(rest, line)
    } else {
        Ok(1usize)
    }
}

fn parse_declared_size(rest: &Vec<char>, line: usize) -> (r: Result<usize, String>)
    ensures
        same(r, declared_size(rest@, line as nat)),
{
    let t = trimmed_start(rest);
    if t.len() > 0 && t[0] == '[' {
        parse_register_size(rest, line)
    } else {
        Ok(1)
    }
}

/// The index in a reference like `q[0]`.
pub open spec fn index_ref(tok: Seq<char>, line: nat) -> Result<usize, Seq<char>> {
    let t = trim(tok);
    if !has_brackets(t) {
        Err(quoting(line, "expected `name[N]`, got "@, t))
    } else {
        match bracketed(t) {
            None => Err(quoting(line, "bad index in "@, t)),
            Some(inner) => match whole_number(trim(inner)) {
                None => Err(quoting(line, "bad index in "@, t)),
                Some(n) => Ok(n),
            },
        }
    }
}

fn parse_index_ref(tok: &Vec<char>, line: usize) -> (r: Result<usize, String>)
    ensures
        same(r, index_ref(tok@, line as nat)),
{
    let t = trimmed(tok);
    let open = position_of(&t, '[');
    let close = position_of(&t, ']');
    if open >= t.len() || close >= t.len() {
        return Err(quote(line, "expected `name[N]`, got ", &t));
    }
    if open >= close {
        return Err(quote(line, "bad index in ", &t));
    }
    let inner = slice(&t, open + 1, close);
    match parse_whole(&trimmed(&inner)) {
        None => Err(quote(line, "bad index in ", &t)),
        Some(n) => Ok(n),
    }
}

/// The indices in a list of references.
pub open spec fn index_list(toks: Seq<Seq<char>>, line: nat, n: nat) -> Result<Seq<usize>, Seq<char>>
    decreases n,
{
    if n == 0 {
        Ok(Seq::empty())
    } else {
        match index_list(toks, line, (n - 1) as nat) {
            Err(e) => Err(e),
            Ok(front) => match index_ref(toks[n - 1], line) {
                Err(e) => Err(e),
                Ok(i) => Ok(front.push(i)),
            },
        }
    }
}

/// A failing prefix fails the whole list.
proof fn lemma_index_list_fails(toks: Seq<Seq<char>>, line: nat, n: nat, m: nat)
    requires
        n <= m,
        index_list(toks, line, n) is Err,
    ensures
        index_list(toks, line, m) == index_list(toks, line, n),
    decreases m - n,
{
    if n < m {
        lemma_index_list_fails(toks, line, n, (m - 1) as nat);
    }
}

pub open spec fn same_list<T>(r: Result<Vec<T>, String>, s: Result<Seq<T>, Seq<char>>) -> bool {
    match r {
        Ok(v) => s == Ok::<Seq<T>, Seq<char>>(v@),
        Err(text) => s == Err::<Seq<T>, Seq<char>>(text@),
    }
}

pub open spec fn qubit_list(rest: Seq<char>, line: nat) -> Result<Seq<usize>, Seq<char>> {
    index_list(pieces(rest, ','), line, pieces(rest, ',').len())
}

fn parse_qubit_list(rest: &Vec<char>, line: usize) -> (r: Result<Vec<usize>, String>)
    ensures
        same_list(r, qubit_list(rest@, line as nat)),
{
    let toks = split_at(rest, ',');
    let ghost all = pieces(rest@, ',');
    let mut out: Vec<usize> = Vec::new();
    let mut i: usize = 0;
    while i < toks.len()
        invariant
            rows(toks@) == all,
            all == pieces(rest@, ','),
            0 <= i <= toks.len(),
            index_list(all, line as nat, i as nat) == Ok::<Seq<usize>, Seq<char>>(out@),
        decreases toks.len() - i,
    {
        assert(rows(toks@)[i as int] == toks@[i as int]@);
        match parse_index_ref(&toks[i], line) {
            Ok(n) => {
                out.push(n);
            },
            Err(e) => {
                proof {
                    lemma_index_list_fails(all, line as nat, (i + 1) as nat, all.len());
                }
                return Err(e);
            },
        }
        i = i + 1;
    }
    Ok(out)
}

/// The numbers in a list of parameters.
pub open spec fn number_list(toks: Seq<Seq<char>>, line: nat, n: nat) -> Result<Seq<Binary64>, Seq<char>>
    decreases n,
{
    if n == 0 {
        Ok(Seq::empty())
    } else {
        match number_list(toks, line, (n - 1) as nat) {
            Err(e) => Err(e),
            Ok(front) => match number(trim(toks[n - 1])) {
                None => Err(quoting(line, "bad numeric parameter "@, trim(toks[n - 1]))),
                Some(x) => Ok(front.push(x)),
            },
        }
    }
}

proof fn lemma_number_list_fails(toks: Seq<Seq<char>>, line: nat, n: nat, m: nat)
    requires
        n <= m,
        number_list(toks, line, n) is Err,
    ensures
        number_list(toks, line, m) == number_list(toks, line, n),
    decreases m - n,
{
    if n < m {
        lemma_number_list_fails(toks, line, n, (m - 1) as nat);
    }
}

/// The parameters at the start of a text, in parentheses or absent.
pub open spec fn parameters(rest: Seq<char>, line: nat) -> Result<Seq<Binary64>, Seq<char>> {
    let t = trim_start(rest);
    let close = find(t, ')', 0);
    if t.len() == 0 || t[0] != '(' {
        Ok(Seq::empty())
    } else if close >= t.len() {
        Err(line_head(line) + "unterminated parameter list"@)
    } else {
        let toks = pieces(t.subrange(1, close), ',');
        number_list(toks, line, toks.len())
    }
}

/// What follows the parameters.
pub open spec fn after_parameters(rest: Seq<char>) -> Seq<char> {
    let t = trim_start(rest);
    if t.len() == 0 || t[0] != '(' {
        t
    } else {
        t.skip(find(t, ')', 0) + 1)
    }
}

fn split_params(rest: &Vec<char>, line: usize) -> (r: Result<(Vec<Binary64>, Vec<char>), String>)
    ensures
        match r {
            Ok((params, tail)) => parameters(rest@, line as nat) == Ok::<Seq<Binary64>, Seq<char>>(
                params@,
            ) && tail@ == after_parameters(rest@),
            Err(text) => parameters(rest@, line as nat) == Err::<Seq<Binary64>, Seq<char>>(text@),
        },
{
    let t = trimmed_start(rest);
    if t.len() == 0 || t[0] != '(' {
        let none: Vec<Binary64> = Vec::new();
        return Ok((none, t));
    }
    let close = position_of(&t, ')');
    if close >= t.len() {
        let mut s = head(line);
        s.append("unterminated parameter list");
        return Err(s);
    }
    let inner = slice(&t, 1, close);
    let toks = split_at(&inner, ',');
    let ghost all = pieces(inner@, ',');
    let mut out: Vec<Binary64> = Vec::new();
    let mut i: usize = 0;
    while i < toks.len()
        invariant
            rows(toks@) == all,
            0 <= i <= toks.len(),
            number_list(all, line as nat, i as nat) == Ok::<Seq<Binary64>, Seq<char>>(out@),
            t@ == trim_start(rest@),
            t.len() > 0,
            t@[0] == '(',
            close == find(t@, ')', 0),
            close < t.len(),
            all == pieces(t@.subrange(1, close as int), ','),
        decreases toks.len() - i,
    {
        assert(rows(toks@)[i as int] == toks@[i as int]@);
        let tok = trimmed(&toks[i]);
        match parse_number(&tok) {
            Some(x) => {
                out.push(x);
            },
            None => {
                let e = quote(line, "bad numeric parameter ", &tok);
                proof {
                    lemma_number_list_fails(all, line as nat, (i + 1) as nat, all.len());
                }
                return Err(e);
            },
        }
        i = i + 1;
    }
    let tail = slice(&t, close + 1, t.len());
    assert(tail@ =~= t@.skip(close + 1));
    Ok((out, tail))
}

/// The end of the name at the start of a text.
pub open spec fn name_end(s: Seq<char>, i: int) -> int
    decreases s.len() - i,
{
    if 0 <= i < s.len() && s[i] != '(' && !is_space(s[i]) {
        name_end(s, i + 1)
    } else {
        i
    }
}

fn end_of_name(s: &Vec<char>) -> (r: usize)
    ensures
        r == name_end(s@, 0),
        r <= s.len(),
{
    let mut i: usize = 0;
    while i < s.len() && s[i] != '(' && !space(s[i])
        invariant
            0 <= i <= s.len(),
            name_end(s@, 0) == name_end(s@, i as int),
        decreases s.len() - i,
    {
        i = i + 1;
    }
    i
}

pub open spec fn wrong_arity(line: nat, name: Seq<char>, k: nat, got: nat) -> Seq<char> {
    line_head(line) + "`"@ + name + "` expects "@ + decimal(k) + " qubit(s), got "@ + decimal(got)
}

pub open spec fn missing_angle(line: nat, name: Seq<char>) -> Seq<char> {
    line_head(line) + "`"@ + name + "` is missing a numeric parameter"@
}

/// A gate that must have one qubit.
pub open spec fn one_qubit(line: nat, name: Seq<char>, q: Seq<usize>, g: Gate) -> Result<Gate, Seq<char>> {
    if q.len() != 1 {
        Err(wrong_arity(line, name, 1, q.len()))
    } else {
        Ok(g)
    }
}

/// A gate that must have one qubit and an angle.
pub open spec fn one_qubit_angle(
    line: nat,
    name: Seq<char>,
    q: Seq<usize>,
    p: Seq<Binary64>,
    g: Gate,
) -> Result<Gate, Seq<char>> {
    if q.len() != 1 {
        Err(wrong_arity(line, name, 1, q.len()))
    } else if p.len() == 0 {
        Err(missing_angle(line, name))
    } else {
        Ok(g)
    }
}

pub open spec fn two_qubit(line: nat, name: Seq<char>, q: Seq<usize>, g: Gate) -> Result<Gate, Seq<char>> {
    if q.len() != 2 {
        Err(wrong_arity(line, name, 2, q.len()))
    } else {
        Ok(g)
    }
}

pub open spec fn two_qubit_angle(
    line: nat,
    name: Seq<char>,
    q: Seq<usize>,
    p: Seq<Binary64>,
    g: Gate,
) -> Result<Gate, Seq<char>> {
    if q.len() != 2 {
        Err(wrong_arity(line, name, 2, q.len()))
    } else if p.len() == 0 {
        Err(missing_angle(line, name))
    } else {
        Ok(g)
    }
}

/// What gate a name stands for, on given qubits and with given
/// parameters.
pub open spec fn named_gate(
    line: nat,
    name: Seq<char>,
    q: Seq<usize>,
    p: Seq<Binary64>,
    stmt: Seq<char>,
) -> Result<Gate, Seq<char>> {
    if name == "h"@ {
        one_qubit(line, name, q, Gate::H(q[0]))
    } else if name == "x"@ {
        one_qubit(line, name, q, Gate::X(q[0]))
    } else if name == "y"@ {
        one_qubit(line, name, q, Gate::Y(q[0]))
    } else if name == "z"@ {
        one_qubit(line, name, q, Gate::Z(q[0]))
    } else if name == "s"@ {
        one_qubit(line, name, q, Gate::S(q[0]))
    } else if name == "sdg"@ {
        one_qubit(line, name, q, Gate::Sdg(q[0]))
    } else if name == "t"@ {
        one_qubit(line, name, q, Gate::T(q[0]))
    } else if name == "tdg"@ {
        one_qubit(line, name, q, Gate::Tdg(q[0]))
    } else if name == "rx"@ {
        one_qubit_angle(line, name, q, p, Gate::Rx(q[0], p[0]))
    } else if name == "ry"@ {
        one_qubit_angle(line, name, q, p, Gate::Ry(q[0], p[0]))
    } else if name == "rz"@ {
        one_qubit_angle(line, name, q, p, Gate::Rz(q[0], p[0]))
    } else if name == "cx"@ || name == "cnot"@ {
        two_qubit(line, name, q, Gate::Cx(q[0], q[1]))
    } else if name == "cz"@ {
        two_qubit(line, name, q, Gate::Cz(q[0], q[1]))
    } else if name == "swap"@ {
        two_qubit(line, name, q, Gate::Swap(q[0], q[1]))
    } else if name == "rxx"@ {
        two_qubit_angle(line, name, q, p, Gate::Rxx(q[0], q[1], p[0]))
    } else if name == "ryy"@ {
        two_qubit_angle(line, name, q, p, Gate::Ryy(q[0], q[1], p[0]))
    } else if name == "rzz"@ {
        two_qubit_angle(line, name, q, p, Gate::Rzz(q[0], q[1], p[0]))
    } else if name == "cp"@ || name == "cphase"@ || name == "crz_phase"@ {
        two_qubit_angle(line, name, q, p, Gate::Cp(q[0], q[1], p[0]))
    } else {
        Err(
            line_head(line) + "unsupported gate `"@ + name + "` (statement: `"@ + stmt + "`)"@,
        )
    }
}

fn arity_text(line: usize, name: &Vec<char>, k: usize, got: usize) -> (r: String)
    ensures
        r@ == wrong_arity(line as nat, name@, k as nat, got as nat),
{
    let mut s = head(line);
    s.append("`");
    push_chars(&mut s, name);
    s.append("` expects ");
    push_decimal(&mut s, k as u128);
    s.append(" qubit(s), got ");
    push_decimal(&mut s, got as u128);
    s
}

fn angle_text(line: usize, name: &Vec<char>) -> (r: String)
    ensures
        r@ == missing_angle(line as nat, name@),
{
    let mut s = head(line);
    s.append("`");
    push_chars(&mut s, name);
    s.append("` is missing a numeric parameter");
    s
}

fn need_one(line: usize, name: &Vec<char>, q: &Vec<usize>) -> (r: Result<usize, String>)
    ensures
        match r {
            Ok(a) => q@ == seq![a],
            Err(t) => q.len() != 1 && t@ == wrong_arity(line as nat, name@, 1, q@.len()),
        },
{
    if q.len() != 1 {
        Err(arity_text(line, name, 1, q.len()))
    } else {
        assert(q@ =~= seq![q@[0]]);
        Ok(q[0])
    }
}

fn need_two(line: usize, name: &Vec<char>, q: &Vec<usize>) -> (r: Result<(usize, usize), String>)
    ensures
        match r {
            Ok((a, b)) => q@ == seq![a, b],
            Err(t) => q.len() != 2 && t@ == wrong_arity(line as nat, name@, 2, q@.len()),
        },
{
    if q.len() != 2 {
        Err(arity_text(line, name, 2, q.len()))
    } else {
        assert(q@ =~= seq![q@[0], q@[1]]);
        Ok((q[0], q[1]))
    }
}

fn need_angle(line: usize, name: &Vec<char>, p: &Vec<Binary64>) -> (r: Result<Binary64, String>)
    ensures
        match r {
            Ok(x) => p.len() > 0 && p@[0] == x,
            Err(t) => p.len() == 0 && t@ == missing_angle(line as nat, name@),
        },
{
    if p.len() == 0 {
        Err(angle_text(line, name))
    } else {
        Ok(p[0])
    }
}

/// Which shape of gate a name stands for.
enum Shape {
    One,
    OneAngle,
    Two,
    TwoAngle,
    Unknown,
}

spec fn shape(name: Seq<char>) -> Shape {
    if name == "h"@ || name == "x"@ || name == "y"@ || name == "z"@ || name == "s"@ || name == "sdg"@
        || name == "t"@ || name == "tdg"@ {
        Shape::One
    } else if name == "rx"@ || name == "ry"@ || name == "rz"@ {
        Shape::OneAngle
    } else if name == "cx"@ || name == "cnot"@ || name == "cz"@ || name == "swap"@ {
        Shape::Two
    } else if name == "rxx"@ || name == "ryy"@ || name == "rzz"@ || name == "cp"@ || name
        == "cphase"@ || name == "crz_phase"@ {
        Shape::TwoAngle
    } else {
        Shape::Unknown
    }
}

fn shape_of(name: &Vec<char>) -> (r: Shape)
    ensures
        r == shape(name@),
{
    if spelled(name, "h") || spelled(name, "x") || spelled(name, "y") || spelled(name, "z")
        || spelled(name, "s") || spelled(name, "sdg") || spelled(name, "t") || spelled(name, "tdg") {
        Shape::One
    } else if spelled(name, "rx") || spelled(name, "ry") || spelled(name, "rz") {
        Shape::OneAngle
    } else if spelled(name, "cx") || spelled(name, "cnot") || spelled(name, "cz") || spelled(
        name,
        "swap",
    ) {
        Shape::Two
    } else if spelled(name, "rxx") || spelled(name, "ryy") || spelled(name, "rzz") || spelled(
        name,
        "cp",
    ) || spelled(name, "cphase") || spelled(name, "crz_phase") {
        Shape::TwoAngle
    } else {
        Shape::Unknown
    }
}

fn build_one(name: &Vec<char>, a: usize) -> (r: Gate)
    requires
        shape(name@) is One,
    ensures
        forall|line: nat, q: Seq<usize>, p: Seq<Binary64>, stmt: Seq<char>|
            q == seq![a] ==> #[trigger] named_gate(line, name@, q, p, stmt) == Ok::<Gate, Seq<char>>(r),
{
    if spelled(name, "h") {
        Gate::H(a)
    } else if spelled(name, "x") {
        Gate::X(a)
    } else if spelled(name, "y") {
        Gate::Y(a)
    } else if spelled(name, "z") {
        Gate::Z(a)
    } else if spelled(name, "s") {
        Gate::S(a)
    } else if spelled(name, "sdg") {
        Gate::Sdg(a)
    } else if spelled(name, "t") {
        Gate::T(a)
    } else {
        Gate::Tdg(a)
    }
}

/// Which literals differ.
proof fn lemma_names()
    ensures
        "rx"@.len() == 2,
        "rx"@[0] == 'r',
        "rx"@[1] == 'x',
        "ry"@.len() == 2,
        "ry"@[0] == 'r',
        "ry"@[1] == 'y',
        "rz"@.len() == 2,
        "rz"@[0] == 'r',
        "rz"@[1] == 'z',
        "h"@.len() == 1,
        "x"@.len() == 1,
        "y"@.len() == 1,
        "z"@.len() == 1,
        "s"@.len() == 1,
        "t"@.len() == 1,
        "sdg"@.len() == 3,
        "sdg"@[0] == 's',
        "tdg"@.len() == 3,
        "tdg"@[0] == 't',
        "cx"@.len() == 2,
        "cx"@[0] == 'c',
        "cx"@[1] == 'x',
        "cz"@.len() == 2,
        "cz"@[0] == 'c',
        "cz"@[1] == 'z',
        "cp"@.len() == 2,
        "cp"@[0] == 'c',
        "cp"@[1] == 'p',
        "cnot"@.len() == 4,
        "cnot"@[0] == 'c',
        "swap"@.len() == 4,
        "swap"@[0] == 's',
        "rxx"@.len() == 3,
        "rxx"@[0] == 'r',
        "rxx"@[1] == 'x',
        "ryy"@.len() == 3,
        "ryy"@[0] == 'r',
        "ryy"@[1] == 'y',
        "rzz"@.len() == 3,
        "rzz"@[0] == 'r',
        "rzz"@[1] == 'z',
        "cphase"@.len() == 6,
        "crz_phase"@.len() == 9,
{
    reveal_strlit("rx");
    reveal_strlit("ry");
    reveal_strlit("rz");
    reveal_strlit("h");
    reveal_strlit("x");
    reveal_strlit("y");
    reveal_strlit("z");
    reveal_strlit("s");
    reveal_strlit("t");
    reveal_strlit("sdg");
    reveal_strlit("tdg");
    reveal_strlit("cx");
    reveal_strlit("cz");
    reveal_strlit("cp");
    reveal_strlit("cnot");
    reveal_strlit("swap");
    reveal_strlit("rxx");
    reveal_strlit("ryy");
    reveal_strlit("rzz");
    reveal_strlit("cphase");
    reveal_strlit("crz_phase");
}

fn build_one_angle(name: &Vec<char>, a: usize, t: Binary64) -> (r: Gate)
    requires
        shape(name@) is OneAngle,
    ensures
        forall|line: nat, q: Seq<usize>, p: Seq<Binary64>, stmt: Seq<char>|
            q == seq![a] && p.len() > 0 && p[0] == t ==> #[trigger] named_gate(line, name@, q, p, stmt)
                == Ok::<Gate, Seq<char>>(r),
{
    proof {
        lemma_names();
    }
    if spelled(name, "rx") {
        Gate::Rx(a, t)
    } else if spelled(name, "ry") {
        Gate::Ry(a, t)
    } else {
        Gate::Rz(a, t)
    }
}

fn build_two(name: &Vec<char>, a: usize, b: usize) -> (r: Gate)
    requires
        shape(name@) is Two,
    ensures
        forall|line: nat, q: Seq<usize>, p: Seq<Binary64>, stmt: Seq<char>|
            q == seq![a, b] ==> #[trigger] named_gate(line, name@, q, p, stmt) == Ok::<Gate, Seq<char>>(
                r,
            ),
{
    proof {
        lemma_names();
    }
    if spelled(name, "cx") || spelled(name, "cnot") {
        Gate::Cx(a, b)
    } else if spelled(name, "cz") {
        Gate::Cz(a, b)
    } else {
        Gate::Swap(a, b)
    }
}

fn build_two_angle(name: &Vec<char>, a: usize, b: usize, t: Binary64) -> (r: Gate)
    requires
        shape(name@) is TwoAngle,
    ensures
        forall|line: nat, q: Seq<usize>, p: Seq<Binary64>, stmt: Seq<char>|
            q == seq![a, b] && p.len() > 0 && p[0] == t ==> #[trigger] named_gate(line, name@, q, p, stmt)
                == Ok::<Gate, Seq<char>>(r),
{
    proof {
        lemma_names();
    }
    if spelled(name, "rxx") {
        Gate::Rxx(a, b, t)
    } else if spelled(name, "ryy") {
        Gate::Ryy(a, b, t)
    } else if spelled(name, "rzz") {
        Gate::Rzz(a, b, t)
    } else {
        Gate::Cp(a, b, t)
    }
}

/// What gate a statement stands for: a name, parameters, references.
pub open spec fn gate_statement(stmt: Seq<char>, line: nat) -> Result<Gate, Seq<char>> {
    let t = trim_start(stmt);
    let end = name_end(t, 0);
    let name = t.take(end);
    let rest = t.skip(end);
    match parameters(rest, line) {
        Err(e) => Err(e),
        Ok(p) => match qubit_list(after_parameters(rest), line) {
            Err(e) => Err(e),
            Ok(q) => named_gate(line, name, q, p, stmt),
        },
    }
}

fn parse_gate_statement(stmt: &Vec<char>, line: usize) -> (r: Result<Gate, String>)
    ensures
        same(r, gate_statement(stmt@, line as nat)),
{
    let t = trimmed_start(stmt);
    let end = end_of_name(&t);
    let name = slice(&t, 0, end);
    let rest = slice(&t, end, t.len());
    assert(name@ =~= t@.take(end as int));
    assert(rest@ =~= t@.skip(end as int));
    let (params, tail) = match split_params(&rest, line) {
        Ok(x) => x,
        Err(e) => {
            return Err(e);
        },
    };
    let qubits = match parse_qubit_list(&tail, line) {
        Ok(x) => x,
        Err(e) => {
            return Err(e);
        },
    };
    proof {
        lemma_names();
    }
    match shape_of(&name) {
        Shape::One => match need_one(line, &name, &qubits) {
            Ok(a) => Ok(build_one(&name, a)),
            Err(e) => Err(e),
        },
        Shape::OneAngle => match need_one(line, &name, &qubits) {
            Ok(a) => match need_angle(line, &name, &params) {
                Ok(x) => Ok(build_one_angle(&name, a, x)),
                Err(e) => Err(e),
            },
            Err(e) => Err(e),
        },
        Shape::Two => match need_two(line, &name, &qubits) {
            Ok((a, b)) => Ok(build_two(&name, a, b)),
            Err(e) => Err(e),
        },
        Shape::TwoAngle => match need_two(line, &name, &qubits) {
            Ok((a, b)) => match need_angle(line, &name, &params) {
                Ok(x) => Ok(build_two_angle(&name, a, b, x)),
                Err(e) => Err(e),
            },
            Err(e) => Err(e),
        },
        Shape::Unknown => {
            let mut s = head(line);
            s.append("unsupported gate `");
            push_chars(&mut s, &name);
            s.append("` (statement: `");
            push_chars(&mut s, stmt);
            s.append("`)");
            Err(s)
        },
    }
}


/// What one statement does.
pub enum Effect {
    Nothing,
    Qubits(usize),
    Clbits(usize),
    Add(Gate),
}

pub open spec fn range_text(
    line: nat,
    what: Seq<char>,
    index: nat,
    size: nat,
    unit: Seq<char>,
    stmt: Seq<char>,
) -> Seq<char> {
    line_head(line) + what + decimal(index) + " out of range for a "@ + decimal(size) + unit + "`"@
        + stmt + "`"@
}

pub open spec fn qubit_range_text(line: nat, q: usize, n: usize, stmt: Seq<char>) -> Seq<char> {
    range_text(line, "qubit index "@, q as nat, n as nat, "-qubit register: "@, stmt)
}

pub open spec fn clbit_range_text(line: nat, c: usize, n: usize, stmt: Seq<char>) -> Seq<char> {
    range_text(line, "classical bit index "@, c as nat, n as nat, "-bit register: "@, stmt)
}

fn range_message(line: usize, what: &str, index: usize, size: usize, unit: &str, stmt: &Vec<char>) -> (r:
    String)
    ensures
        r@ == range_text(line as nat, what@, index as nat, size as nat, unit@, stmt@),
{
    let mut s = head(line);
    s.append(what);
    push_decimal(&mut s, index as u128);
    s.append(" out of range for a ");
    push_decimal(&mut s, size as u128);
    s.append(unit);
    s.append("`");
    push_chars(&mut s, stmt);
    s.append("`");
    s
}

/// A gate all of whose qubits are in range.
pub open spec fn gate_in_range(g: Gate, n: usize, line: nat, stmt: Seq<char>) -> Result<Gate, Seq<char>> {
    let w = g.wires();
    if w[0] >= n {
        Err(qubit_range_text(line, w[0], n, stmt))
    } else if w.len() > 1 && w[1] >= n {
        Err(qubit_range_text(line, w[1], n, stmt))
    } else {
        Ok(g)
    }
}

fn check_gate_range(g: Gate, n: usize, line: usize, stmt: &Vec<char>) -> (r: Result<Gate, String>)
    ensures
        same(r, gate_in_range(g, n, line as nat, stmt@)),
{
    let w = g.qubits();
    if w[0] >= n {
        return Err(range_message(line, "qubit index ", w[0], n, "-qubit register: ", stmt));
    }
    if w.len() > 1 && w[1] >= n {
        return Err(range_message(line, "qubit index ", w[1], n, "-qubit register: ", stmt));
    }
    Ok(g)
}

/// A measurement whose qubit and classical bit are in range.
pub open spec fn measure_in_range(
    q: usize,
    n: usize,
    c: usize,
    m: usize,
    line: nat,
    stmt: Seq<char>,
) -> Result<Effect, Seq<char>> {
    if q >= n {
        Err(qubit_range_text(line, q, n, stmt))
    } else if c >= m {
        Err(clbit_range_text(line, c, m, stmt))
    } else {
        Ok(Effect::Add(Gate::Measure(q, c)))
    }
}

fn check_measure_range(q: usize, n: usize, c: usize, m: usize, line: usize, stmt: &Vec<char>) -> (r:
    Result<Effect, String>)
    ensures
        same(r, measure_in_range(q, n, c, m, line as nat, stmt@)),
{
    if q >= n {
        return Err(range_message(line, "qubit index ", q, n, "-qubit register: ", stmt));
    }
    if c >= m {
        return Err(range_message(line, "classical bit index ", c, m, "-bit register: ", stmt));
    }
    Ok(Effect::Add(Gate::Measure(q, c)))
}

/// `measure q[0] -> c[1]` without the keyword.
pub open spec fn measure_statement(
    rest: Seq<char>,
    n: usize,
    m: usize,
    line: nat,
    stmt: Seq<char>,
) -> Result<Effect, Seq<char>> {
    let arrow = find_two(rest, '-', '>', 0);
    if arrow >= rest.len() {
        Err(quoting(line, "`measure` statement missing `->`: "@, "measure"@ + rest))
    } else {
        match index_ref(rest.take(arrow), line) {
            Err(e) => Err(e),
            Ok(q) => match index_ref(rest.skip(arrow + 2), line) {
                Err(e) => Err(e),
                Ok(c) => measure_in_range(q, n, c, m, line, stmt),
            },
        }
    }
}

fn joined(a: &str, b: &Vec<char>) -> (r: Vec<char>)
    ensures
        r@ == a@ + b@,
{
    let mut out = chars_of(a);
    let mut i: usize = 0;
    assert(out@ =~= a@ + b@.take(0));
    while i < b.len()
        invariant
            0 <= i <= b.len(),
            out@ == a@ + b@.take(i as int),
        decreases b.len() - i,
    {
        out.push(b[i]);
        i = i + 1;
        assert(out@ =~= a@ + b@.take(i as int));
    }
    assert(b@.take(i as int) =~= b@);
    out
}

fn parse_measure_statement(rest: &Vec<char>, n: usize, m: usize, line: usize, stmt: &Vec<char>) -> (r:
    Result<Effect, String>)
    ensures
        same(r, measure_statement(rest@, n, m, line as nat, stmt@)),
{
    let arrow = position_of_two(rest, '-', '>');
    if arrow >= rest.len() {
        return Err(quote(line, "`measure` statement missing `->`: ", &joined("measure", rest)));
    }
    let left = slice(rest, 0, arrow);
    let right = slice(rest, arrow + 2, rest.len());
    assert(left@ =~= rest@.take(arrow as int));
    assert(right@ =~= rest@.skip(arrow + 2));
    match parse_index_ref(&left, line) {
        Err(e) => Err(e),
        Ok(q) => match parse_index_ref(&right, line) {
            Err(e) => Err(e),
            Ok(c) => check_measure_range(q, n, c, m, line, stmt),
        },
    }
}

/// A condition and the statement that it applies to.
pub struct Conditioned {
    pub clbit: usize,
    pub value: bool,
    pub body: Seq<char>,
}

/// `(c[0]==1) x q[1]`, the part of an `if` behind its keyword.
pub open spec fn condition(rest: Seq<char>, line: nat) -> Result<Conditioned, Seq<char>> {
    let t = trim_start(rest);
    if t.len() == 0 || t[0] != '(' {
        Err(quoting(line, "`if` missing `(condition)`: "@, "if"@ + t))
    } else {
        let inside = t.skip(1);
        let close = find(inside, ')', 0);
        if close >= inside.len() {
            Err(quoting(line, "`if` missing closing `)`: "@, "if"@ + t))
        } else {
            let c = inside.take(close);
            let eq = find_two(c, '=', '=', 0);
            if eq >= c.len() {
                Err(
                    line_head(line) + "`if` condition must be `c[N]==0` or `c[N]==1`: `if("@ + c
                        + ")`"@,
                )
            } else {
                match index_ref(c.take(eq), line) {
                    Err(e) => Err(e),
                    Ok(clbit) => {
                        let value = trim(c.skip(eq + 2));
                        if value == "0"@ {
                            Ok(Conditioned { clbit, value: false, body: inside.skip(close + 1) })
                        } else if value == "1"@ {
                            Ok(Conditioned { clbit, value: true, body: inside.skip(close + 1) })
                        } else {
                            Err(
                                line_head(line) + "`if` condition value must be `0` or `1`, got `"@
                                    + value + "`: `if("@ + c + ")`"@,
                            )
                        }
                    },
                }
            }
        }
    }
}

fn parse_if_condition(rest: &Vec<char>, line: usize) -> (r: Result<(usize, bool, Vec<char>), String>)
    ensures
        match r {
            Ok((clbit, value, body)) => condition(rest@, line as nat) == Ok::<Conditioned, Seq<char>>(
                Conditioned { clbit, value, body: body@ },
            ),
            Err(text) => condition(rest@, line as nat) == Err::<Conditioned, Seq<char>>(text@),
        },
{
    let t = trimmed_start(rest);
    if t.len() == 0 || t[0] != '(' {
        return Err(quote(line, "`if` missing `(condition)`: ", &joined("if", &t)));
    }
    let inside = slice(&t, 1, t.len());
    assert(inside@ =~= t@.skip(1));
    let close = position_of(&inside, ')');
    if close >= inside.len() {
        return Err(quote(line, "`if` missing closing `)`: ", &joined("if", &t)));
    }
    let c = slice(&inside, 0, close);
    assert(c@ =~= inside@.take(close as int));
    let eq = position_of_two(&c, '=', '=');
    if eq >= c.len() {
        let mut s = head(line);
        s.append("`if` condition must be `c[N]==0` or `c[N]==1`: `if(");
        push_chars(&mut s, &c);
        s.append(")`");
        return Err(s);
    }
    let left = slice(&c, 0, eq);
    let right = slice(&c, eq + 2, c.len());
    assert(left@ =~= c@.take(eq as int));
    assert(right@ =~= c@.skip(eq + 2));
    let clbit = match parse_index_ref(&left, line) {
        Err(e) => {
            return Err(e);
        },
        Ok(n) => n,
    };
    let value = trimmed(&right);
    let body = slice(&inside, close + 1, inside.len());
    assert(body@ =~= inside@.skip(close + 1));
    if spelled(&value, "0") {
        Ok((clbit, false, body))
    } else if spelled(&value, "1") {
        Ok((clbit, true, body))
    } else {
        let mut s = head(line);
        s.append("`if` condition value must be `0` or `1`, got `");
        push_chars(&mut s, &value);
        s.append("`: `if(");
        push_chars(&mut s, &c);
        s.append(")`");
        Err(s)
    }
}

/// An `if` behind its keyword: one gate under one condition.
pub open spec fn if_statement(
    rest: Seq<char>,
    n: usize,
    m: usize,
    line: nat,
    stmt: Seq<char>,
) -> Result<Effect, Seq<char>> {
    match condition(rest, line) {
        Err(e) => Err(e),
        Ok(c) => {
            let body = trim(c.body);
            if c.clbit >= m {
                Err(clbit_range_text(line, c.clbit, m, stmt))
            } else if "measure"@.is_prefix_of(body) {
                Err(
                    quoting(
                        line,
                        "`if` cannot condition a `measure` -- a measurement produces a classical bit, it doesn't consume one: "@,
                        stmt,
                    ),
                )
            } else if "if"@.is_prefix_of(body) {
                Err(
                    quoting(
                        line,
                        "`if` cannot condition another `if` -- nested classical conditions aren't supported here: "@,
                        stmt,
                    ),
                )
            } else {
                match gate_statement(body, line) {
                    Err(e) => Err(e),
                    Ok(g) => match gate_in_range(g, n, line, stmt) {
                        Err(e) => Err(e),
                        Ok(g) => Ok(
                            Effect::Add(
                                Gate::If(
                                    Conditions::When(
                                        c.clbit,
                                        c.value,
                                        Box::new(Conditions::Always),
                                    ),
                                    Box::new(g),
                                ),
                            ),
                        ),
                    },
                }
            }
        },
    }
}

fn parse_if_statement(rest: &Vec<char>, n: usize, m: usize, line: usize, stmt: &Vec<char>) -> (r: Result<
    Effect,
    String,
>)
    ensures
        same(r, if_statement(rest@, n, m, line as nat, stmt@)),
{
    let (clbit, value, body) = match parse_if_condition(rest, line) {
        Err(e) => {
            return Err(e);
        },
        Ok(x) => x,
    };
    if clbit >= m {
        return Err(range_message(line, "classical bit index ", clbit, m, "-bit register: ", stmt));
    }
    let inner = trimmed(&body);
    if starts_with(&inner, "measure") {
        return Err(
            quote(
                line,
                "`if` cannot condition a `measure` -- a measurement produces a classical bit, it doesn't consume one: ",
                stmt,
            ),
        );
    }
    if starts_with(&inner, "if") {
        return Err(
            quote(
                line,
                "`if` cannot condition another `if` -- nested classical conditions aren't supported here: ",
                stmt,
            ),
        );
    }
    match parse_gate_statement(&inner, line) {
        Err(e) => Err(e),
        Ok(g) => match check_gate_range(g, n, line, stmt) {
            Err(e) => Err(e),
            Ok(g) => Ok(Effect::Add(Gate::If(Conditions::bit(clbit, value), Box::new(g)))),
        },
    }
}

pub open spec fn early_text(line: nat, what: Seq<char>, stmt: Seq<char>) -> Seq<char> {
    quoting(line, what, stmt)
}

/// `c[0] = measure q[0]`, split at the equals sign.
pub open spec fn assignment(
    stmt: Seq<char>,
    eq: int,
    rest: Seq<char>,
    n: usize,
    m: usize,
    line: nat,
) -> Result<Effect, Seq<char>> {
    match index_ref(trim(stmt.take(eq)), line) {
        Err(e) => Err(e),
        Ok(c) => match index_ref(rest, line) {
            Err(e) => Err(e),
            Ok(q) => measure_in_range(q, n, c, m, line, stmt),
        },
    }
}

fn parse_assignment(stmt: &Vec<char>, eq: usize, rest: &Vec<char>, n: usize, m: usize, line: usize) -> (r:
    Result<Effect, String>)
    requires
        eq <= stmt.len(),
    ensures
        same(r, assignment(stmt@, eq as int, rest@, n, m, line as nat)),
{
    let left = slice(stmt, 0, eq);
    assert(left@ =~= stmt@.take(eq as int));
    match parse_index_ref(&trimmed(&left), line) {
        Err(e) => Err(e),
        Ok(c) => match parse_index_ref(rest, line) {
            Err(e) => Err(e),
            Ok(q) => check_measure_range(q, n, c, m, line, stmt),
        },
    }
}

/// What follows the equals sign of an assignment, without white space.
pub open spec fn assigned(stmt: Seq<char>) -> Seq<char> {
    trim_start(stmt.skip(find(stmt, '=', 0) + 1))
}

pub open spec fn is_assignment(stmt: Seq<char>) -> bool {
    find(stmt, '=', 0) < stmt.len() && "measure"@.is_prefix_of(assigned(stmt))
}

/// A gate behind both registers' declarations.
pub open spec fn plain_gate(stmt: Seq<char>, n: usize, line: nat) -> Result<Effect, Seq<char>> {
    match gate_statement(stmt, line) {
        Err(e) => Err(e),
        Ok(g) => match gate_in_range(g, n, line, stmt) {
            Err(e) => Err(e),
            Ok(g) => Ok(Effect::Add(g)),
        },
    }
}

/// A declaration of a register, of the size `r`, where `known` is the size of
/// a register of this kind that was declared before. There is one of a kind.
pub open spec fn declared(
    r: Result<usize, Seq<char>>,
    qubits: bool,
    known: Option<usize>,
    line: nat,
    stmt: Seq<char>,
) -> Result<Effect, Seq<char>> {
    match r {
        Err(e) => Err(e),
        Ok(n) => if known is Some {
            Err(early_text(line, second_text(qubits), stmt))
        } else if qubits {
            Ok(Effect::Qubits(n))
        } else {
            Ok(Effect::Clbits(n))
        },
    }
}

pub open spec fn second_text(qubits: bool) -> Seq<char> {
    if qubits {
        "a second qubit register declaration: "@
    } else {
        "a second classical register declaration: "@
    }
}

/// What a statement does, where the registers have the given sizes so far.
pub open spec fn statement(
    stmt: Seq<char>,
    line: nat,
    nq: Option<usize>,
    nc: Option<usize>,
) -> Result<Effect, Seq<char>> {
    if "OPENQASM"@.is_prefix_of(stmt) || "include"@.is_prefix_of(stmt) {
        Ok(Effect::Nothing)
    } else if "qreg"@.is_prefix_of(stmt) {
        declared(register_size(stmt.skip("qreg"@.len() as int), line), true, nq, line, stmt)
    } else if "creg"@.is_prefix_of(stmt) {
        declared(register_size(stmt.skip("creg"@.len() as int), line), false, nc, line, stmt)
    } else if "qubit"@.is_prefix_of(stmt) {
        declared(declared_size(stmt.skip("qubit"@.len() as int), line), true, nq, line, stmt)
    } else if "bit"@.is_prefix_of(stmt) {
        declared(declared_size(stmt.skip("bit"@.len() as int), line), false, nc, line, stmt)
    } else if "//"@.is_prefix_of(stmt) {
        Ok(Effect::Nothing)
    } else if "measure"@.is_prefix_of(stmt) {
        if nq is None {
            Err(early_text(line, "`measure` before a qubit register declaration: "@, stmt))
        } else if nc is None {
            Err(early_text(line, "`measure` before a classical register declaration: "@, stmt))
        } else {
            measure_statement(stmt.skip("measure"@.len() as int), nq->0, nc->0, line, stmt)
        }
    } else if "if"@.is_prefix_of(stmt) {
        if nq is None {
            Err(early_text(line, "`if` before a qubit register declaration: "@, stmt))
        } else if nc is None {
            Err(early_text(line, "`if` before a classical register declaration: "@, stmt))
        } else {
            if_statement(stmt.skip("if"@.len() as int), nq->0, nc->0, line, stmt)
        }
    } else if is_assignment(stmt) {
        if nq is None {
            Err(early_text(line, "`measure` before a qubit register declaration: "@, stmt))
        } else if nc is None {
            Err(early_text(line, "`measure` before a classical register declaration: "@, stmt))
        } else {
            assignment(
                stmt,
                find(stmt, '=', 0),
                assigned(stmt).skip("measure"@.len() as int),
                nq->0,
                nc->0,
                line,
            )
        }
    } else if nq is None {
        Err(
            early_text(
                line,
                "gate before a qubit register declaration (`qreg`/`qubit`): "@,
                stmt,
            ),
        )
    } else {
        plain_gate(stmt, nq->0, line)
    }
}

fn size_effect(
    r: Result<usize, String>,
    qubits: bool,
    known: Option<usize>,
    line: usize,
    stmt: &Vec<char>,
) -> (e: Result<Effect, String>)
    ensures
        forall|s: Result<usize, Seq<char>>| #[trigger]
            same(r, s) ==> same(e, declared(s, qubits, known, line as nat, stmt@)),
{
    match r {
        Err(e) => Err(e),
        Ok(n) => if known.is_some() {
            Err(
                quote(
                    line,
                    if qubits {
                        "a second qubit register declaration: "
                    } else {
                        "a second classical register declaration: "
                    },
                    stmt,
                ),
            )
        } else if qubits {
            Ok(Effect::Qubits(n))
        } else {
            Ok(Effect::Clbits(n))
        },
    }
}

#[verifier::rlimit(60)]
fn parse_statement(stmt: &Vec<char>, line: usize, nq: Option<usize>, nc: Option<usize>) -> (r: Result<
    Effect,
    String,
>)
    ensures
        same(r, statement(stmt@, line as nat, nq, nc)),
{
    if starts_with(stmt, "OPENQASM") || starts_with(stmt, "include") {
        return Ok(Effect::Nothing);
    }
    if starts_with(stmt, "qreg") {
        return size_effect(parse_register_size(&after(stmt, "qreg"), line), true, nq, line, stmt);
    }
    if starts_with(stmt, "creg") {
        return size_effect(parse_register_size(&after(stmt, "creg"), line), false, nc, line, stmt);
    }
    if starts_with(stmt, "qubit") {
        return size_effect(parse_declared_size(&after(stmt, "qubit"), line), true, nq, line, stmt);
    }
    if starts_with(stmt, "bit") {
        return size_effect(parse_declared_size(&after(stmt, "bit"), line), false, nc, line, stmt);
    }
    if starts_with(stmt, "//") {
        return Ok(Effect::Nothing);
    }
    if starts_with(stmt, "measure") {
        return match nq {
            None => Err(quote(line, "`measure` before a qubit register declaration: ", stmt)),
            Some(n) => match nc {
                None => Err(quote(line, "`measure` before a classical register declaration: ", stmt)),
                Some(m) => parse_measure_statement(&after(stmt, "measure"), n, m, line, stmt),
            },
        };
    }
    if starts_with(stmt, "if") {
        return match nq {
            None => Err(quote(line, "`if` before a qubit register declaration: ", stmt)),
            Some(n) => match nc {
                None => Err(quote(line, "`if` before a classical register declaration: ", stmt)),
                Some(m) => parse_if_statement(&after(stmt, "if"), n, m, line, stmt),
            },
        };
    }
    let eq = position_of(stmt, '=');
    if eq < stmt.len() {
        let right = slice(stmt, eq + 1, stmt.len());
        assert(right@ =~= stmt@.skip(eq + 1));
        let value = trimmed_start(&right);
        if starts_with(&value, "measure") {
            let rest = after(&value, "measure");
            return match nq {
                None => Err(quote(line, "`measure` before a qubit register declaration: ", stmt)),
                Some(n) => match nc {
                    None => Err(
                        quote(line, "`measure` before a classical register declaration: ", stmt),
                    ),
                    Some(m) => parse_assignment(stmt, eq, &rest, n, m, line),
                },
            };
        }
    }
    match nq {
        None => Err(
            quote(line, "gate before a qubit register declaration (`qreg`/`qubit`): ", stmt),
        ),
        Some(n) => match parse_gate_statement(stmt, line) {
            Err(e) => Err(e),
            Ok(g) => match check_gate_range(g, n, line, stmt) {
                Err(e) => Err(e),
                Ok(g) => Ok(Effect::Add(g)),
            },
        },
    }
}

/// A statement with the line of its first character that is not blank.
pub struct Line {
    pub number: nat,
    pub text: Seq<char>,
}

/// The lines of a text: a line ends with a line feed, which may follow a
/// carriage return.
pub open spec fn lines(s: Seq<char>) -> Seq<Seq<char>>
    decreases s.len(),
{
    let p = find(s, '\n', 0);
    if s.len() == 0 {
        Seq::empty()
    } else if p < 0 || p >= s.len() {
        seq![s]
    } else {
        let line = if p > 0 && s[p - 1] == '\r' {
            s.take(p - 1)
        } else {
            s.take(p)
        };
        seq![line] + lines(s.skip(p + 1))
    }
}

/// A line without its comment.
pub open spec fn code(line: Seq<char>) -> Seq<char> {
    line.take(find_two(line, '/', '/', 0))
}

/// Statements found so far, and the text not yet ended by a semicolon.
pub struct Scan {
    pub found: Seq<Line>,
    pub rest: Seq<char>,
    pub start: nat,
}

/// Cuts off each statement that a semicolon ends.
pub open spec fn cut(s: Scan, line: nat) -> Scan
    decreases s.rest.len(),
{
    let p = find(s.rest, ';', 0);
    if p < 0 || p >= s.rest.len() {
        s
    } else {
        cut(
            Scan {
                found: s.found.push(Line { number: s.start, text: s.rest.take(p) }),
                rest: s.rest.skip(p + 1),
                start: line,
            },
            line,
        )
    }
}

/// Adds one line. Where only blanks are left of what came before, the next
/// statement starts here.
pub open spec fn scan_line(s: Scan, line: Seq<char>, number: nat) -> Scan {
    cut(
        Scan {
            found: s.found,
            rest: (s.rest + code(line)).push(' '),
            start: if trim(s.rest).len() == 0 {
                number
            } else {
                s.start
            },
        },
        number,
    )
}

/// Adds the first `n` lines.
pub open spec fn scan(all: Seq<Seq<char>>, n: nat) -> Scan
    decreases n,
{
    if n == 0 {
        Scan { found: Seq::empty(), rest: Seq::empty(), start: 1 }
    } else {
        scan_line(scan(all, (n - 1) as nat), all[n - 1], n)
    }
}

/// The statements of a source text. Text behind the last semicolon is one,
/// unless it is blank.
pub open spec fn statements(source: Seq<char>) -> Seq<Line> {
    let all = lines(source);
    let s = scan(all, all.len());
    if trim(s.rest).len() > 0 {
        s.found.push(Line { number: s.start, text: s.rest })
    } else {
        s.found
    }
}

/// A circuit under construction.
pub struct Reading {
    pub nq: Option<usize>,
    pub nc: Option<usize>,
    pub gates: Seq<Gate>,
}

pub open spec fn applied(r: Reading, e: Effect) -> Reading {
    match e {
        Effect::Nothing => r,
        Effect::Qubits(n) => Reading { nq: Some(n), ..r },
        Effect::Clbits(n) => Reading { nc: Some(n), ..r },
        Effect::Add(g) => Reading { gates: r.gates.push(g), ..r },
    }
}

/// Reads the first `n` statements.
pub open spec fn read_statements(all: Seq<Line>, n: nat) -> Result<Reading, Seq<char>>
    decreases n,
{
    if n == 0 {
        Ok(Reading { nq: None, nc: None, gates: Seq::empty() })
    } else {
        match read_statements(all, (n - 1) as nat) {
            Err(e) => Err(e),
            Ok(r) => {
                let stmt = trim(all[n - 1].text);
                if stmt.len() == 0 {
                    Ok(r)
                } else {
                    match statement(stmt, all[n - 1].number, r.nq, r.nc) {
                        Err(e) => Err(e),
                        Ok(e) => Ok(applied(r, e)),
                    }
                }
            },
        }
    }
}

/// The circuit that a source text describes, or what is wrong with the first
/// bad statement.
pub open spec fn circuit_of(source: Seq<char>) -> Result<Reading, Seq<char>> {
    let all = statements(source);
    match read_statements(all, all.len()) {
        Err(e) => Err(e),
        Ok(r) => if r.nq is None {
            Err("no qubit register declaration (`qreg`/`qubit`) found"@)
        } else {
            Ok(r)
        },
    }
}

proof fn lemma_reading_fails(all: Seq<Line>, n: nat, m: nat)
    requires
        n <= m,
        read_statements(all, n) is Err,
    ensures
        read_statements(all, m) == read_statements(all, n),
    decreases m - n,
{
    if n < m {
        lemma_reading_fails(all, n, (m - 1) as nat);
    }
}

fn split_lines(s: &Vec<char>) -> (r: Vec<Vec<char>>)
    ensures
        rows(r@) == lines(s@),
        r.len() <= s.len(),
{
    let mut out: Vec<Vec<char>> = Vec::new();
    let mut rest = slice(s, 0, s.len());
    assert(rest@ =~= s@);
    assert(rows(out@) + lines(rest@) =~= lines(s@));
    while rest.len() > 0
        invariant
            rows(out@) + lines(rest@) == lines(s@),
            out.len() + rest.len() <= s.len(),
        decreases rest.len(),
    {
        let p = position_of(&rest, '\n');
        if p >= rest.len() {
            proof {
                lemma_find(rest@, '\n', 0);
                assert(rows(out@.push(rest)) =~= rows(out@) + seq![rest@]);
            }
            out.push(rest);
            return out;
        }
        let end: usize = if p > 0 && rest[p - 1] == '\r' {
            p - 1
        } else {
            p
        };
        let line = slice(&rest, 0, end);
        let tail = slice(&rest, p + 1, rest.len());
        proof {
            assert(line@ =~= rest@.take(end as int));
            assert(tail@ =~= rest@.skip(p + 1));
            assert(rows(out@.push(line)) =~= rows(out@) + seq![line@]);
            assert(rows(out@) + (seq![line@] + lines(tail@)) =~= (rows(out@) + seq![line@]) + lines(
                tail@,
            ));
        }
        out.push(line);
        rest = tail;
    }
    assert(rows(out@) =~= lines(s@));
    out
}

/// A list of numbered texts and what it holds.
pub open spec fn numbered(v: Seq<(usize, Vec<char>)>) -> Seq<Line> {
    v.map_values(|x: (usize, Vec<char>)| Line { number: x.0 as nat, text: x.1@ })
}

proof fn lemma_numbered_push(v: Seq<(usize, Vec<char>)>, x: (usize, Vec<char>))
    ensures
        numbered(v.push(x)) == numbered(v).push(Line { number: x.0 as nat, text: x.1@ }),
{
    assert(numbered(v.push(x)) =~= numbered(v).push(Line { number: x.0 as nat, text: x.1@ }));
}

fn split_statements(source: &Vec<char>) -> (r: Vec<(usize, Vec<char>)>)
    ensures
        numbered(r@) == statements(source@),
{
    let all = split_lines(source);
    let ghost rows_all = lines(source@);
    let mut out: Vec<(usize, Vec<char>)> = Vec::new();
    let mut rest: Vec<char> = Vec::new();
    let mut start: usize = 1;
    let mut i: usize = 0;
    assert(numbered(out@) =~= Seq::empty());
    while i < all.len()
        invariant
            rows(all@) == rows_all,
            0 <= i <= all.len(),
            scan(rows_all, i as nat) == (Scan {
                found: numbered(out@),
                rest: rest@,
                start: start as nat,
            }),
        decreases all.len() - i,
    {
        assert(rows(all@)[i as int] == all@[i as int]@);
        let number: usize = i + 1;
        let comment = position_of_two(&all[i], '/', '/');
        if trimmed(&rest).len() == 0 {
            start = number;
        }
        let text = slice(&all[i], 0, comment);
        assert(text@ =~= code(all@[i as int]@));
        let mut joined = rest;
        let ghost before = joined@;
        let mut k: usize = 0;
        assert(joined@ =~= before + text@.take(0));
        while k < text.len()
            invariant
                0 <= k <= text.len(),
                joined@ == before + text@.take(k as int),
            decreases text.len() - k,
        {
            joined.push(text[k]);
            k = k + 1;
            assert(joined@ =~= before + text@.take(k as int));
        }
        assert(text@.take(k as int) =~= text@);
        joined.push(' ');
        rest = joined;
        let ghost goal = scan(rows_all, (i + 1) as nat);
        assert(goal == cut(
            Scan { found: numbered(out@), rest: rest@, start: start as nat },
            number as nat,
        ));
        let mut p = position_of(&rest, ';');
        while p < rest.len()
            invariant
                p == find(rest@, ';', 0),
                p <= rest.len(),
                goal == cut(
                    Scan { found: numbered(out@), rest: rest@, start: start as nat },
                    number as nat,
                ),
            decreases rest.len(),
        {
            let piece = slice(&rest, 0, p);
            let tail = slice(&rest, p + 1, rest.len());
            proof {
                assert(piece@ =~= rest@.take(p as int));
                assert(tail@ =~= rest@.skip(p + 1));
                lemma_numbered_push(out@, (start, piece));
            }
            out.push((start, piece));
            rest = tail;
            start = number;
            p = position_of(&rest, ';');
        }
        i = i + 1;
    }
    if trimmed(&rest).len() > 0 {
        proof {
            lemma_numbered_push(out@, (start, rest));
        }
        out.push((start, rest));
    }
    out
}

/// Reads a circuit. Every gate of the result is on its registers.
pub fn parse(source: &str) -> (r: Result<Circuit, String>)
    ensures
        match r {
            Ok(c) => circuit_of(source@) matches Ok(x) && {
                &&& c.gates@ == x.gates
                &&& x.nq == Some(c.num_qubits)
                &&& c.num_clbits == (if x.nc is Some {
                    x.nc->0
                } else {
                    0
                })
                &&& forall|i: int|
                    0 <= i < c.gates@.len() ==> on_registers(
                        #[trigger] c.gates@[i],
                        c.num_qubits,
                        c.num_clbits,
                    )
            },
            Err(text) => circuit_of(source@) == Err::<Reading, Seq<char>>(text@),
        },
{
    let all = split_statements(&chars_of(source));
    let ghost stmts = statements(source@);
    let mut nq: Option<usize> = None;
    let mut nc: Option<usize> = None;
    let mut circuit = Circuit::new(0);
    let mut i: usize = 0;
    while i < all.len()
        invariant
            numbered(all@) == stmts,
            stmts == statements(source@),
            0 <= i <= all.len(),
            read_statements(stmts, i as nat) == Ok::<Reading, Seq<char>>(
                Reading { nq, nc, gates: circuit.gates@ },
            ),
            nq is Some ==> nq->0 == circuit.num_qubits,
            circuit.num_clbits == (if nc is Some {
                nc->0
            } else {
                0
            }),
        decreases all.len() - i,
    {
        let line = all[i].0;
        let stmt = trimmed(&all[i].1);
        assert(numbered(all@)[i as int] == (Line { number: line as nat, text: all@[i as int].1@ }));
        if stmt.len() > 0 {
            match parse_statement(&stmt, line, nq, nc) {
                Err(e) => {
                    proof {
                        lemma_reading_fails(stmts, (i + 1) as nat, stmts.len());
                    }
                    return Err(e);
                },
                Ok(Effect::Nothing) => {},
                Ok(Effect::Qubits(n)) => {
                    nq = Some(n);
                    circuit.num_qubits = n;
                },
                Ok(Effect::Clbits(n)) => {
                    nc = Some(n);
                    circuit.num_clbits = n;
                },
                Ok(Effect::Add(g)) => {
                    circuit.gates.push(g);
                },
            }
        }
        i = i + 1;
    }
    match nq {
        None => Err(String::from_str("no qubit register declaration (`qreg`/`qubit`) found")),
        Some(_) => {
            proof {
                lemma_circuit_on_registers(source@);
                let x = Reading { nq, nc, gates: circuit.gates@ };
                assert(circuit_of(source@) == Ok::<Reading, Seq<char>>(x));
                assert(all_on_registers(x));
                assert forall|i: int| 0 <= i < circuit.gates@.len() implies on_registers(
                    #[trigger] circuit.gates@[i],
                    circuit.num_qubits,
                    circuit.num_clbits,
                ) by {
                    assert(x.gates[i] == circuit.gates@[i]);
                }
            }
            Ok(circuit)
        },
    }
}

/// Whether the listed bits of conditions are below a size.
pub open spec fn bits_below(c: Conditions, m: usize) -> bool
    decreases c,
{
    match c {
        Conditions::Always => true,
        Conditions::When(b, _, rest) => b < m && bits_below(*rest, m),
    }
}

/// Whether a gate is on registers of the given sizes.
pub open spec fn on_registers(g: Gate, n: usize, m: usize) -> bool {
    &&& forall|i: int| 0 <= i < g.wires().len() ==> #[trigger] g.wires()[i] < n
    &&& g matches Gate::Measure(_, c) ==> c < m
    &&& g matches Gate::If(c, _) ==> bits_below(c, m)
}

proof fn lemma_in_range(g: Gate, n: usize, line: nat, stmt: Seq<char>)
    requires
        gate_in_range(g, n, line, stmt) is Ok,
    ensures
        forall|i: int| 0 <= i < g.wires().len() ==> #[trigger] g.wires()[i] < n,
    decreases g,
{
    assert(g.wires().len() <= 2) by {
        lemma_wires_len(g);
    }
}

proof fn lemma_wires_len(g: Gate)
    ensures
        1 <= g.wires().len() <= 2,
    decreases g,
{
    if let Gate::If(_, inner) = g {
        lemma_wires_len(*inner);
    }
}

proof fn lemma_plain_name(line: nat, name: Seq<char>, q: Seq<usize>, p: Seq<Binary64>, stmt: Seq<char>)
    ensures
        named_gate(line, name, q, p, stmt) matches Ok(g) ==> !(g is Measure) && !(g is If),
{
}

/// Every gate that a statement adds is on the registers as they were declared
/// before it.
pub proof fn lemma_statement_on_registers(
    stmt: Seq<char>,
    line: nat,
    nq: Option<usize>,
    nc: Option<usize>,
)
    ensures
        statement(stmt, line, nq, nc) matches Ok(Effect::Add(g)) ==> {
            &&& nq is Some
            &&& on_registers(
                g,
                nq->0,
                if nc is Some {
                    nc->0
                } else {
                    0
                },
            )
        },
{
    if let Ok(Effect::Add(g)) = statement(stmt, line, nq, nc) {
        let n = nq->0;
        match g {
            Gate::Measure(q, c) => {
                assert(g.wires() == seq![q]);
                if plain_gate(stmt, n, line) == Ok::<Effect, Seq<char>>(Effect::Add(g)) {
                    lemma_gate_statement_plain(stmt, line);
                }
            },
            Gate::If(c, inner) => {
                reveal_with_fuel(bits_below, 3);
                if plain_gate(stmt, n, line) == Ok::<Effect, Seq<char>>(Effect::Add(g)) {
                    lemma_gate_statement_plain(stmt, line);
                } else {
                    lemma_in_range(*inner, n, line, stmt);
                    assert(g.wires() == inner.wires());
                    assert forall|i: int| 0 <= i < g.wires().len() implies #[trigger] g.wires()[i]
                        < n by {
                        assert(inner.wires()[i] < n);
                    }
                }
            },
            _ => {
                lemma_in_range(g, n, line, stmt);
            },
        }
    }
}

/// Whether the gates of a reading are on its registers.
pub open spec fn all_on_registers(r: Reading) -> bool {
    forall|i: int|
        0 <= i < r.gates.len() ==> r.nq is Some && on_registers(
            #[trigger] r.gates[i],
            r.nq->0,
            if r.nc is Some {
                r.nc->0
            } else {
                0
            },
        )
}

/// Bits below a size are below a larger one.
proof fn lemma_bits_below(c: Conditions, m: usize, k: usize)
    requires
        bits_below(c, m),
        m <= k,
    ensures
        bits_below(c, k),
    decreases c,
{
    if let Conditions::When(_, _, rest) = c {
        lemma_bits_below(*rest, m, k);
    }
}

/// A register is declared where there is none of its kind.
pub proof fn lemma_declared_once(stmt: Seq<char>, line: nat, nq: Option<usize>, nc: Option<usize>)
    ensures
        statement(stmt, line, nq, nc) matches Ok(Effect::Qubits(_)) ==> nq is None,
        statement(stmt, line, nq, nc) matches Ok(Effect::Clbits(_)) ==> nc is None,
{
}

/// What a statement does leaves the gates on the registers.
proof fn lemma_applied_on_registers(r: Reading, stmt: Seq<char>, line: nat, e: Effect)
    requires
        all_on_registers(r),
        statement(stmt, line, r.nq, r.nc) == Ok::<Effect, Seq<char>>(e),
    ensures
        all_on_registers(applied(r, e)),
{
    let to = applied(r, e);
    lemma_statement_on_registers(stmt, line, r.nq, r.nc);
    lemma_declared_once(stmt, line, r.nq, r.nc);
    assert forall|i: int| 0 <= i < to.gates.len() implies to.nq is Some && on_registers(
        #[trigger] to.gates[i],
        to.nq->0,
        if to.nc is Some {
            to.nc->0
        } else {
            0
        },
    ) by {
        if i < r.gates.len() {
            assert(to.gates[i] == r.gates[i]);
            if let Gate::If(c, _) = r.gates[i] {
                if let Effect::Clbits(m) = e {
                    lemma_bits_below(c, 0, m);
                }
            }
        }
    }
}

proof fn lemma_statements_on_registers(all: Seq<Line>, n: nat)
    ensures
        read_statements(all, n) matches Ok(r) ==> all_on_registers(r),
    decreases n,
{
    if n > 0 {
        lemma_statements_on_registers(all, (n - 1) as nat);
        if let Ok(r) = read_statements(all, (n - 1) as nat) {
            let stmt = trim(all[n - 1].text);
            if let Ok(e) = statement(stmt, all[n - 1].number, r.nq, r.nc) {
                lemma_applied_on_registers(r, stmt, all[n - 1].number, e);
            }
        }
    }
}

/// Every qubit and every classical bit that a circuit names lies below the
/// size of its register.
pub proof fn lemma_circuit_on_registers(source: Seq<char>)
    ensures
        circuit_of(source) matches Ok(r) ==> all_on_registers(r),
{
    lemma_statements_on_registers(statements(source), statements(source).len());
}

proof fn lemma_gate_statement_plain(stmt: Seq<char>, line: nat)
    ensures
        gate_statement(stmt, line) matches Ok(g) ==> !(g is Measure) && !(g is If),
{
    let t = trim_start(stmt);
    let end = name_end(t, 0);
    let rest = t.skip(end);
    if let Ok(p) = parameters(rest, line) {
        if let Ok(q) = qubit_list(after_parameters(rest), line) {
            lemma_plain_name(line, t.take(end), q, p, stmt);
        }
    }
}

} // verus!
