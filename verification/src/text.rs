//! Decimal numerals and character buffers.
use vstd::prelude::*;

verus! {

/// Appends one character to a `String`: `std::string::String::push`.
pub assume_specification[ String::push ](s: &mut String, c: char)
    ensures
        final(s)@ == old(s)@.push(c),
;

/// The character that stands for the decimal digit `d`.
pub open spec fn digit_char(d: nat) -> char {
    if d == 0 {
        '0'
    } else if d == 1 {
        '1'
    } else if d == 2 {
        '2'
    } else if d == 3 {
        '3'
    } else if d == 4 {
        '4'
    } else if d == 5 {
        '5'
    } else if d == 6 {
        '6'
    } else if d == 7 {
        '7'
    } else if d == 8 {
        '8'
    } else {
        '9'
    }
}

/// The decimal numeral of `n`, without leading zeros.
pub open spec fn decimal(n: nat) -> Seq<char>
    decreases n,
{
    if n < 10 {
        seq![digit_char(n)]
    } else {
        decimal(n / 10).push(digit_char(n % 10))
    }
}

/// Appends the character of one decimal digit.
pub fn push_digit(s: &mut String, d: u8)
    requires
        d < 10,
    ensures
        final(s)@ == old(s)@.push(digit_char(d as nat)),
{
    let c: char = if d == 0 {
        '0'
    } else if d == 1 {
        '1'
    } else if d == 2 {
        '2'
    } else if d == 3 {
        '3'
    } else if d == 4 {
        '4'
    } else if d == 5 {
        '5'
    } else if d == 6 {
        '6'
    } else if d == 7 {
        '7'
    } else if d == 8 {
        '8'
    } else {
        '9'
    };
    s.push(c);
}

/// Appends the decimal numeral of `n`.
pub fn push_decimal(s: &mut String, n: u128)
    ensures
        final(s)@ == old(s)@ + decimal(n as nat),
    decreases n,
{
    if n < 10 {
        push_digit(s, n as u8);
    } else {
        push_decimal(s, n / 10);
        push_digit(s, (n % 10) as u8);
    }
}

/// The characters of a string, in order.
pub fn chars_of(s: &str) -> (r: Vec<char>)
    ensures
        r@ == s@,
{
    let mut out: Vec<char> = Vec::new();
    for c in it: s.chars()
        invariant
            out@ == s@.take(it.index()),
            it.seq() == s@,
    {
        out.push(c);
    }
    out
}


/// A part of a row of characters.
pub fn slice(s: &Vec<char>, from: usize, to: usize) -> (r: Vec<char>)
    requires
        from <= to <= s.len(),
    ensures
        r@ == s@.subrange(from as int, to as int),
{
    let mut out: Vec<char> = Vec::new();
    let mut i: usize = from;
    while i < to
        invariant
            from <= i <= to <= s.len(),
            out@ == s@.subrange(from as int, i as int),
        decreases to - i,
    {
        out.push(s[i]);
        i = i + 1;
    }
    out
}


/// Whether a character is white space.
pub open spec fn is_space(c: char) -> bool {
    let n = c as u32;
    ||| 9 <= n <= 13
    ||| n == 32
    ||| n == 0x85
    ||| n == 0xa0
    ||| n == 0x1680
    ||| 0x2000 <= n <= 0x200a
    ||| n == 0x2028
    ||| n == 0x2029
    ||| n == 0x202f
    ||| n == 0x205f
    ||| n == 0x3000
}

pub fn space(c: char) -> (r: bool)
    ensures
        r == is_space(c),
{
    let n: u32 = c as u32;
    (9 <= n && n <= 13) || n == 32 || n == 0x85 || n == 0xa0 || n == 0x1680 || (0x2000 <= n && n
        <= 0x200a) || n == 0x2028 || n == 0x2029 || n == 0x202f || n == 0x205f || n == 0x3000
}

/// The first position from `i` on that is no white space.
pub open spec fn space_end(s: Seq<char>, i: int) -> int
    decreases s.len() - i,
{
    if 0 <= i < s.len() && is_space(s[i]) {
        space_end(s, i + 1)
    } else {
        i
    }
}

/// The end of `s.take(n)` without the white space at its end.
pub open spec fn space_start(s: Seq<char>, n: int) -> int
    decreases n,
{
    if 0 < n <= s.len() && is_space(s[n - 1]) {
        space_start(s, n - 1)
    } else {
        n
    }
}

/// Without white space at the start.
pub open spec fn trim_start(s: Seq<char>) -> Seq<char> {
    s.skip(space_end(s, 0))
}

/// Without white space at either end.
pub open spec fn trim(s: Seq<char>) -> Seq<char> {
    let t = trim_start(s);
    t.take(space_start(t, t.len() as int))
}

proof fn lemma_space_end(s: Seq<char>, i: int)
    requires
        0 <= i <= s.len(),
    ensures
        i <= space_end(s, i) <= s.len(),
    decreases s.len() - i,
{
    if i < s.len() && is_space(s[i]) {
        lemma_space_end(s, i + 1);
    }
}

pub fn trimmed_start(s: &Vec<char>) -> (r: Vec<char>)
    ensures
        r@ == trim_start(s@),
{
    let mut i: usize = 0;
    while i < s.len() && space(s[i])
        invariant
            0 <= i <= s.len(),
            space_end(s@, 0) == space_end(s@, i as int),
        decreases s.len() - i,
    {
        i = i + 1;
    }
    slice(s, i, s.len())
}

pub fn trimmed(s: &Vec<char>) -> (r: Vec<char>)
    ensures
        r@ == trim(s@),
{
    let t = trimmed_start(s);
    let mut n: usize = t.len();
    while n > 0 && space(t[n - 1])
        invariant
            0 <= n <= t.len(),
            space_start(t@, t.len() as int) == space_start(t@, n as int),
        decreases n,
    {
        n = n - 1;
    }
    let r = slice(&t, 0, n);
    assert(r@ =~= t@.take(n as int));
    r
}

/// The first position from `i` on that holds `c`; the length if there is
/// none.
pub open spec fn find(s: Seq<char>, c: char, i: int) -> int
    decreases s.len() - i,
{
    if 0 <= i < s.len() && s[i] != c {
        find(s, c, i + 1)
    } else {
        i
    }
}

pub proof fn lemma_find(s: Seq<char>, c: char, i: int)
    requires
        0 <= i <= s.len(),
    ensures
        i <= find(s, c, i) <= s.len(),
        forall|k: int| i <= k < find(s, c, i) ==> #[trigger] s[k] != c,
        find(s, c, i) < s.len() ==> s[find(s, c, i)] == c,
    decreases s.len() - i,
{
    if i < s.len() && s[i] != c {
        lemma_find(s, c, i + 1);
    }
}

pub fn position_of(s: &Vec<char>, c: char) -> (r: usize)
    ensures
        r == find(s@, c, 0),
        r <= s.len(),
        r < s.len() ==> s@[r as int] == c,
{
    let mut i: usize = 0;
    while i < s.len() && s[i] != c
        invariant
            0 <= i <= s.len(),
            find(s@, c, 0) == find(s@, c, i as int),
        decreases s.len() - i,
    {
        i = i + 1;
    }
    i
}

/// The first position from `i` on where `a` and then `b` stand; the length
/// if there is none.
pub open spec fn find_two(s: Seq<char>, a: char, b: char, i: int) -> int
    decreases s.len() - i,
{
    if i + 1 >= s.len() {
        s.len() as int
    } else if i >= 0 && s[i] == a && s[i + 1] == b {
        i
    } else {
        find_two(s, a, b, i + 1)
    }
}

pub fn position_of_two(s: &Vec<char>, a: char, b: char) -> (r: usize)
    ensures
        r == find_two(s@, a, b, 0),
        r <= s.len(),
        r < s.len() ==> r + 1 < s.len(),
{
    let mut i: usize = 0;
    while i < s.len() && i + 1 < s.len()
        invariant
            0 <= i <= s.len(),
            find_two(s@, a, b, 0) == find_two(s@, a, b, i as int),
        decreases s.len() - i,
    {
        if s[i] == a && s[i + 1] == b {
            return i;
        }
        i = i + 1;
    }
    s.len()
}

/// Whether the characters start with those of a string.
pub fn starts_with(s: &Vec<char>, p: &str) -> (r: bool)
    ensures
        r == p@.is_prefix_of(s@),
        r ==> p@.len() <= s.len(),
{
    let w = chars_of(p);
    if w.len() > s.len() {
        return false;
    }
    let mut i: usize = 0;
    while i < w.len()
        invariant
            w@ == p@,
            w.len() <= s.len(),
            0 <= i <= w.len(),
            forall|k: int| 0 <= k < i ==> #[trigger] s@[k] == p@[k],
        decreases w.len() - i,
    {
        if s[i] != w[i] {
            proof {
                if p@.is_prefix_of(s@) {
                    assert(s@.subrange(0, p@.len() as int)[i as int] == p@[i as int]);
                }
            }
            return false;
        }
        i = i + 1;
    }
    assert(s@.subrange(0, p@.len() as int) =~= p@);
    true
}

/// Whether the characters are those of a string.
pub fn spelled(s: &Vec<char>, p: &str) -> (r: bool)
    ensures
        r == (s@ == p@),
{
    let starts = starts_with(s, p);
    let same = s.len() == p.unicode_len();
    proof {
        if starts && same {
            assert(s@.subrange(0, s@.len() as int) =~= s@);
        }
        if s@ == p@ {
            assert(s@.subrange(0, s@.len() as int) =~= s@);
        }
    }
    starts && same
}

/// What follows a prefix.
pub fn after(s: &Vec<char>, p: &str) -> (r: Vec<char>)
    requires
        p@.len() <= s.len(),
    ensures
        r@ == s@.skip(p@.len() as int),
{
    let n: usize = p.unicode_len();
    let r = slice(s, n, s.len());
    assert(r@ =~= s@.skip(n as int));
    r
}

/// Appends characters.
pub fn push_chars(s: &mut String, chars: &Vec<char>)
    ensures
        final(s)@ == old(s)@ + chars@,
{
    let ghost start = s@;
    let mut i: usize = 0;
    assert(s@ =~= start + chars@.take(0));
    while i < chars.len()
        invariant
            0 <= i <= chars.len(),
            s@ == start + chars@.take(i as int),
        decreases chars.len() - i,
    {
        s.push(chars[i]);
        i = i + 1;
        assert(s@ =~= start + chars@.take(i as int));
    }
    assert(chars@.take(i as int) =~= chars@);
}

/// The parts between the occurrences of `c`.
pub open spec fn pieces(s: Seq<char>, c: char) -> Seq<Seq<char>>
    decreases s.len(),
{
    let p = find(s, c, 0);
    if p < 0 || p >= s.len() {
        seq![s]
    } else {
        seq![s.take(p)] + pieces(s.skip(p + 1), c)
    }
}

/// Rows of characters and what they hold.
pub open spec fn rows(v: Seq<Vec<char>>) -> Seq<Seq<char>> {
    v.map_values(|r: Vec<char>| r@)
}

pub fn split_at(s: &Vec<char>, c: char) -> (r: Vec<Vec<char>>)
    ensures
        rows(r@) == pieces(s@, c),
        r.len() >= 1,
{
    let mut out: Vec<Vec<char>> = Vec::new();
    let mut rest = slice(s, 0, s.len());
    assert(rest@ =~= s@);
    assert(rows(out@) + pieces(rest@, c) =~= pieces(s@, c));
    loop
        invariant
            rows(out@) + pieces(rest@, c) == pieces(s@, c),
        decreases rest@.len(),
    {
        let p = position_of(&rest, c);
        if p >= rest.len() {
            proof {
                lemma_find(rest@, c, 0);
                assert(rows(out@.push(rest)) =~= rows(out@) + seq![rest@]);
            }
            out.push(rest);
            return out;
        }
        let piece = slice(&rest, 0, p);
        let tail = slice(&rest, p + 1, rest.len());
        proof {
            assert(piece@ =~= rest@.take(p as int));
            assert(tail@ =~= rest@.skip(p + 1));
            assert(rows(out@.push(piece)) =~= rows(out@) + seq![piece@]);
            assert(rows(out@) + (seq![piece@] + pieces(tail@, c)) =~= (rows(out@) + seq![piece@])
                + pieces(tail@, c));
        }
        out.push(piece);
        rest = tail;
    }
}

} // verus!
