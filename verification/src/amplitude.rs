//! States of two qubits, exactly.
//!
//! An amplitude is a whole combination of the first four powers of an eighth
//! of a full turn, `w`, whose fourth power is minus one. Gates act on states
//! as linear operators that are not normalized: a state stands for itself
//! times any power of the root of two, `w - w^3`, and of `w`.
use vstd::prelude::*;

verus! {

/// The number `a + b w + c w^2 + d w^3`.
pub struct Amplitude {
    pub a: int,
    pub b: int,
    pub c: int,
    pub d: int,
}

impl Amplitude {
    pub open spec fn plus(self, o: Amplitude) -> Amplitude {
        Amplitude { a: self.a + o.a, b: self.b + o.b, c: self.c + o.c, d: self.d + o.d }
    }

    pub open spec fn minus(self, o: Amplitude) -> Amplitude {
        Amplitude { a: self.a - o.a, b: self.b - o.b, c: self.c - o.c, d: self.d - o.d }
    }

    /// The number times `w`.
    pub open spec fn eighth(self) -> Amplitude {
        Amplitude { a: -self.d, b: self.a, c: self.b, d: self.c }
    }

    /// The number times a power of `w`.
    pub open spec fn turned(self, k: nat) -> Amplitude
        decreases k,
    {
        if k == 0 {
            self
        } else {
            self.turned((k - 1) as nat).eighth()
        }
    }
}

/// The amplitudes of two qubits that are both zero; of the second being one;
/// of the first; and of both.
pub struct State {
    pub v00: Amplitude,
    pub v01: Amplitude,
    pub v10: Amplitude,
    pub v11: Amplitude,
}

impl State {
    pub open spec fn plus(self, o: State) -> State {
        State {
            v00: self.v00.plus(o.v00),
            v01: self.v01.plus(o.v01),
            v10: self.v10.plus(o.v10),
            v11: self.v11.plus(o.v11),
        }
    }

    pub open spec fn minus(self, o: State) -> State {
        State {
            v00: self.v00.minus(o.v00),
            v01: self.v01.minus(o.v01),
            v10: self.v10.minus(o.v10),
            v11: self.v11.minus(o.v11),
        }
    }

    pub open spec fn eighth(self) -> State {
        State {
            v00: self.v00.eighth(),
            v01: self.v01.eighth(),
            v10: self.v10.eighth(),
            v11: self.v11.eighth(),
        }
    }

    pub open spec fn turned(self, k: nat) -> State {
        State {
            v00: self.v00.turned(k),
            v01: self.v01.turned(k),
            v10: self.v10.turned(k),
            v11: self.v11.turned(k),
        }
    }

    /// The state times the root of two.
    pub open spec fn root(self) -> State {
        self.eighth().minus(self.eighth().eighth().eighth())
    }

    pub open spec fn roots(self, m: nat) -> State
        decreases m,
    {
        if m == 0 {
            self
        } else {
            self.roots((m - 1) as nat).root()
        }
    }

    /// The state times a power of the root of two and one of `w`.
    pub open spec fn scaled(self, m: nat, k: nat) -> State {
        self.roots(m).turned(k)
    }

    /// The first or the second qubit flipped.
    pub open spec fn flipped(self, first: bool) -> State {
        if first {
            State { v00: self.v10, v01: self.v11, v10: self.v00, v11: self.v01 }
        } else {
            State { v00: self.v01, v01: self.v00, v10: self.v11, v11: self.v10 }
        }
    }

    /// The sign changed where a qubit is one.
    pub open spec fn signed(self, first: bool) -> State {
        let none = Amplitude { a: 0, b: 0, c: 0, d: 0 };
        if first {
            State { v10: none.minus(self.v10), v11: none.minus(self.v11), ..self }
        } else {
            State { v01: none.minus(self.v01), v11: none.minus(self.v11), ..self }
        }
    }

    /// Turned where a qubit is one.
    pub open spec fn phased(self, first: bool, k: nat) -> State {
        if first {
            State { v10: self.v10.turned(k), v11: self.v11.turned(k), ..self }
        } else {
            State { v01: self.v01.turned(k), v11: self.v11.turned(k), ..self }
        }
    }
}

/// What acts on states.
pub type Operator = spec_fn(State) -> State;

/// Whether an operator respects sums, differences and factors.
pub open spec fn linear(f: Operator) -> bool {
    &&& forall|x: State, y: State| #[trigger] f(x.plus(y)) == f(x).plus(f(y))
    &&& forall|x: State, y: State| #[trigger] f(x.minus(y)) == f(x).minus(f(y))
    &&& forall|x: State| #[trigger] f(x.eighth()) == f(x).eighth()
}

/// A rotation about the axis of `p`, an operator that is its own inverse: what
/// `p` keeps stays, and what it negates is turned by `k` eighths.
pub open spec fn rotated(s: State, p: State, k: nat) -> State {
    s.plus(p).plus(s.minus(p).turned(k))
}

pub proof fn lemma_amplitude_turned(x: Amplitude, y: Amplitude, k: nat)
    ensures
        x.plus(y).turned(k) == x.turned(k).plus(y.turned(k)),
        x.minus(y).turned(k) == x.turned(k).minus(y.turned(k)),
        x.eighth().turned(k) == x.turned(k).eighth(),
    decreases k,
{
    if k > 0 {
        lemma_amplitude_turned(x, y, (k - 1) as nat);
    }
}

pub proof fn lemma_turned_twice(x: Amplitude, j: nat, k: nat)
    ensures
        x.turned(j).turned(k) == x.turned(j + k),
    decreases k,
{
    if k > 0 {
        lemma_turned_twice(x, j, (k - 1) as nat);
    }
}

/// Eight eighths are a full turn.
pub proof fn lemma_full_turn(x: Amplitude, k: nat)
    ensures
        x.turned(k) == x.turned((k % 8) as nat),
    decreases k,
{
    if k >= 8 {
        lemma_full_turn(x, (k - 8) as nat);
        reveal_with_fuel(Amplitude::turned, 9);
        assert(x.turned(k) == x.turned((k - 8) as nat));
        assert((k - 8) % 8 == k as int % 8);
    }
}

pub proof fn lemma_same_turn(x: Amplitude, j: nat, k: nat)
    requires
        j % 8 == k % 8,
    ensures
        x.turned(j) == x.turned(k),
{
    lemma_full_turn(x, j);
    lemma_full_turn(x, k);
}

pub proof fn lemma_state_turned(x: State, y: State, k: nat)
    ensures
        x.plus(y).turned(k) == x.turned(k).plus(y.turned(k)),
        x.minus(y).turned(k) == x.turned(k).minus(y.turned(k)),
        x.eighth().turned(k) == x.turned(k).eighth(),
{
    lemma_amplitude_turned(x.v00, y.v00, k);
    lemma_amplitude_turned(x.v01, y.v01, k);
    lemma_amplitude_turned(x.v10, y.v10, k);
    lemma_amplitude_turned(x.v11, y.v11, k);
}

pub proof fn lemma_state_turned_twice(x: State, j: nat, k: nat)
    ensures
        x.turned(j).turned(k) == x.turned(j + k),
{
    lemma_turned_twice(x.v00, j, k);
    lemma_turned_twice(x.v01, j, k);
    lemma_turned_twice(x.v10, j, k);
    lemma_turned_twice(x.v11, j, k);
}

pub proof fn lemma_state_same_turn(x: State, j: nat, k: nat)
    requires
        j % 8 == k % 8,
    ensures
        x.turned(j) == x.turned(k),
{
    lemma_same_turn(x.v00, j, k);
    lemma_same_turn(x.v01, j, k);
    lemma_same_turn(x.v10, j, k);
    lemma_same_turn(x.v11, j, k);
}

/// A rotation about an axis is linear where the axis is.
pub proof fn lemma_rotated_linear(p: Operator, k: nat)
    requires
        linear(p),
    ensures
        linear(|s: State| rotated(s, p(s), k)),
{
    let f = |s: State| rotated(s, p(s), k);
    assert forall|x: State, y: State| #[trigger] f(x.plus(y)) == f(x).plus(f(y)) by {
        assert(p(x.plus(y)) == p(x).plus(p(y)));
        assert(x.plus(y).minus(p(x).plus(p(y))) == x.minus(p(x)).plus(y.minus(p(y))));
        lemma_state_turned(x.minus(p(x)), y.minus(p(y)), k);
    }
    assert forall|x: State, y: State| #[trigger] f(x.minus(y)) == f(x).minus(f(y)) by {
        assert(p(x.minus(y)) == p(x).minus(p(y)));
        assert(x.minus(y).minus(p(x).minus(p(y))) == x.minus(p(x)).minus(y.minus(p(y))));
        lemma_state_turned(x.minus(p(x)), y.minus(p(y)), k);
    }
    assert forall|x: State| #[trigger] f(x.eighth()) == f(x).eighth() by {
        assert(p(x.eighth()) == p(x).eighth());
        assert(x.eighth().minus(p(x).eighth()) == x.minus(p(x)).eighth());
        lemma_state_turned(x.minus(p(x)), x, k);
    }
}

pub proof fn lemma_linear_turned(f: Operator, s: State, k: nat)
    requires
        linear(f),
    ensures
        f(s.turned(k)) == f(s).turned(k),
    decreases k,
{
    if k == 0 {
        assert(s.turned(0) == s);
    } else {
        lemma_linear_turned(f, s, (k - 1) as nat);
        assert(s.turned(k) == s.turned((k - 1) as nat).eighth());
        assert(f(s).turned(k) == f(s).turned((k - 1) as nat).eighth());
        assert(f(s.turned((k - 1) as nat).eighth()) == f(s.turned((k - 1) as nat)).eighth());
    }
}

pub proof fn lemma_linear_root(f: Operator, s: State)
    requires
        linear(f),
    ensures
        f(s.root()) == f(s).root(),
{
    let x = s.eighth();
    let y = x.eighth();
    let z = y.eighth();
    assert(f(x) == f(s).eighth() && f(y) == f(x).eighth() && f(z) == f(y).eighth());
    assert(f(x.minus(z)) == f(x).minus(f(z)));
}

pub proof fn lemma_linear_roots(f: Operator, s: State, m: nat)
    requires
        linear(f),
    ensures
        f(s.roots(m)) == f(s).roots(m),
    decreases m,
{
    if m > 0 {
        lemma_linear_roots(f, s, (m - 1) as nat);
        lemma_linear_root(f, s.roots((m - 1) as nat));
    }
}

pub proof fn lemma_linear_scaled(f: Operator, s: State, m: nat, k: nat)
    requires
        linear(f),
    ensures
        f(s.scaled(m, k)) == f(s).scaled(m, k),
{
    lemma_linear_turned(f, s.roots(m), k);
    lemma_linear_roots(f, s, m);
}

pub proof fn lemma_turning_linear(k: nat)
    ensures
        linear(|s: State| s.turned(k)),
{
    let f = |s: State| s.turned(k);
    assert forall|x: State, y: State| #[trigger] f(x.plus(y)) == f(x).plus(f(y)) by {
        lemma_state_turned(x, y, k);
    }
    assert forall|x: State, y: State| #[trigger] f(x.minus(y)) == f(x).minus(f(y)) by {
        lemma_state_turned(x, y, k);
    }
    assert forall|x: State| #[trigger] f(x.eighth()) == f(x).eighth() by {
        lemma_state_turned(x, x, k);
    }
}

pub proof fn lemma_roots_joined(s: State, m: nat, n: nat)
    ensures
        s.roots(m).roots(n) == s.roots(m + n),
    decreases n,
{
    if n > 0 {
        lemma_roots_joined(s, m, (n - 1) as nat);
    }
}

/// Factors multiply.
pub proof fn lemma_scaled_twice(s: State, m: nat, j: nat, n: nat, k: nat)
    ensures
        s.scaled(m, j).scaled(n, k) == s.scaled(m + n, j + k),
{
    let f = |s: State| s.turned(j);
    lemma_turning_linear(j);
    lemma_linear_roots(f, s.roots(m), n);
    assert(f(s.roots(m)) == s.roots(m).turned(j));
    assert(f(s.roots(m).roots(n)) == s.roots(m).roots(n).turned(j));
    lemma_roots_joined(s, m, n);
    lemma_state_turned_twice(s.roots(m + n), j, k);
}

/// Twice a state is the root of two times the root of two times it.
pub proof fn lemma_doubled(s: State)
    ensures
        s.plus(s) == s.scaled(2, 0),
{
    reveal_with_fuel(State::roots, 3);
    assert(s.roots(2) == s.root().root());
    assert(s.plus(s) == s.root().root());
    assert(s.roots(2).turned(0) == s.roots(2));
}

} // verus!
