//! Natural numbers of any size.
use vstd::arithmetic::power2::{lemma_pow2_adds, lemma_pow2_pos, lemma_pow2_strictly_increases, pow2};
use crate::text::{decimal, digit_char, push_digit};
use vstd::prelude::*;

verus! {

/// The weight of the limb at position `i`.
pub open spec fn weight(i: nat) -> nat {
    pow2(32 * i)
}

/// The limb at position `i`; zero beyond the end.
pub open spec fn limb(s: Seq<u32>, i: int) -> nat {
    if 0 <= i < s.len() {
        s[i] as nat
    } else {
        0
    }
}

/// What the first `n` limbs stand for.
pub open spec fn partial(s: Seq<u32>, n: nat) -> nat
    decreases n,
{
    if n == 0 {
        0
    } else {
        partial(s, (n - 1) as nat) + limb(s, n - 1) * weight((n - 1) as nat)
    }
}

/// A natural number, as limbs of 32 bits with the lowest first.
pub struct BigNat {
    limbs: Vec<u32>,
}

impl View for BigNat {
    type V = nat;

    closed spec fn view(&self) -> nat {
        partial(self.limbs@, self.limbs@.len())
    }
}

proof fn lemma_weight(i: nat)
    ensures
        weight(i) > 0,
        weight(i + 1) == 0x1_0000_0000 * weight(i),
        weight(0) == 1,
{
    lemma_pow2_pos(32 * i);
    lemma_pow2_adds(32, 32 * i);
    vstd::arithmetic::power2::lemma2_to64();
}

/// Limbs beyond the end add nothing.
proof fn lemma_partial_tail(s: Seq<u32>, n: nat)
    requires
        n >= s.len(),
    ensures
        partial(s, n) == partial(s, s.len()),
    decreases n,
{
    if n > s.len() {
        lemma_partial_tail(s, (n - 1) as nat);
        assert(0 * weight((n - 1) as nat) == 0);
    }
}

/// Later limbs do not matter to an initial part.
proof fn lemma_partial_same(s: Seq<u32>, t: Seq<u32>, n: nat)
    requires
        forall|i: int| 0 <= i < n ==> limb(s, i) == #[trigger] limb(t, i),
    ensures
        partial(s, n) == partial(t, n),
    decreases n,
{
    if n > 0 {
        lemma_partial_same(s, t, (n - 1) as nat);
        assert(limb(s, n - 1) == limb(t, n - 1));
    }
}

proof fn lemma_partial_bound(s: Seq<u32>, n: nat)
    ensures
        partial(s, n) < weight(n),
    decreases n,
{
    lemma_weight(0);
    if n > 0 {
        let m = (n - 1) as nat;
        lemma_partial_bound(s, m);
        lemma_weight(m);
        let d = limb(s, n - 1);
        let w = weight(m);
        assert(d * w + w <= 0x1_0000_0000 * w) by (nonlinear_arith)
            requires
                d + 1 <= 0x1_0000_0000,
        ;
    }
}

/// Appending a limb to an accumulator of `n` limbs.
proof fn lemma_partial_push(s: Seq<u32>, d: u32)
    ensures
        partial(s.push(d), s.len() + 1) == partial(s, s.len()) + d * weight(s.len()),
{
    let t = s.push(d);
    assert forall|i: int| 0 <= i < s.len() implies limb(s, i) == #[trigger] limb(t, i) by {}
    lemma_partial_same(s, t, s.len());
    assert(limb(t, s.len() as int) == d);
}

/// The number of some limbs, without empty ones at the top.
fn tidy(limbs: Vec<u32>) -> (r: BigNat)
    ensures
        r@ == partial(limbs@, limbs@.len()),
{
    let mut kept = limbs;
    while kept.len() > 0 && kept[kept.len() - 1] == 0
        invariant
            partial(kept@, kept@.len()) == partial(limbs@, limbs@.len()),
        decreases kept.len(),
    {
        let ghost before = kept@;
        kept.pop();
        proof {
            lemma_partial_push(kept@, 0);
            assert(kept@.push(0) =~= before);
            assert(0 * weight(kept@.len()) == 0);
        }
    }
    BigNat { limbs: kept }
}

impl BigNat {
    pub fn zero() -> (r: BigNat)
        ensures
            r@ == 0,
    {
        BigNat { limbs: Vec::new() }
    }

    pub fn from_u128(n: u128) -> (r: BigNat)
        ensures
            r@ == n,
    {
        let mut limbs: Vec<u32> = Vec::new();
        let mut rest: u128 = n;
        proof {
            lemma_weight(0);
            assert(rest * weight(0) == rest) by (nonlinear_arith)
                requires
                    weight(0) == 1,
            ;
        }
        while rest > 0
            invariant
                partial(limbs@, limbs@.len()) + rest * weight(limbs@.len()) == n,
            decreases rest,
        {
            let d: u32 = (rest % 0x1_0000_0000) as u32;
            let next: u128 = rest / 0x1_0000_0000;
            proof {
                let w = weight(limbs@.len());
                lemma_weight(limbs@.len());
                lemma_partial_push(limbs@, d);
                assert(rest == next * 0x1_0000_0000 + d);
                assert(rest * w == d * w + next * (0x1_0000_0000 * w)) by (nonlinear_arith)
                    requires
                        rest == next * 0x1_0000_0000 + d,
                ;
            }
            limbs.push(d);
            rest = next;
        }
        assert(0 * weight(limbs@.len()) == 0);
        BigNat { limbs }
    }

    pub fn copy(&self) -> (r: BigNat)
        ensures
            r@ == self@,
    {
        let mut limbs: Vec<u32> = Vec::new();
        let mut i: usize = 0;
        while i < self.limbs.len()
            invariant
                0 <= i <= self.limbs.len(),
                limbs@ == self.limbs@.take(i as int),
            decreases self.limbs.len() - i,
        {
            limbs.push(self.limbs[i]);
            i = i + 1;
        }
        assert(limbs@ =~= self.limbs@);
        BigNat { limbs }
    }

    pub fn is_zero(&self) -> (r: bool)
        ensures
            r == (self@ == 0),
    {
        let mut i: usize = 0;
        while i < self.limbs.len()
            invariant
                0 <= i <= self.limbs.len(),
                partial(self.limbs@, i as nat) == 0,
            decreases self.limbs.len() - i,
        {
            proof {
                lemma_weight(i as nat);
                let d = self.limbs@[i as int];
                let w = weight(i as nat);
                assert(d > 0 ==> d * w > 0) by (nonlinear_arith)
                    requires
                        w > 0,
                ;
            }
            if self.limbs[i] != 0 {
                proof {
                    lemma_partial_grows(self.limbs@, i as nat + 1, self.limbs@.len());
                }
                return false;
            }
            i = i + 1;
        }
        true
    }

    fn get(&self, i: usize) -> (r: u32)
        ensures
            r == limb(self.limbs@, i as int),
    {
        if i < self.limbs.len() {
            self.limbs[i]
        } else {
            0
        }
    }

    /// Whether this number is below the other, and whether it is equal.
    pub fn compare(&self, other: &BigNat) -> (r: (bool, bool))
        ensures
            r.0 == (self@ < other@),
            r.1 == (self@ == other@),
    {
        let n: usize = if self.limbs.len() < other.limbs.len() {
            other.limbs.len()
        } else {
            self.limbs.len()
        };
        let mut less = false;
        let mut equal = true;
        let mut i: usize = 0;
        while i < n
            invariant
                0 <= i <= n,
                less == (partial(self.limbs@, i as nat) < partial(other.limbs@, i as nat)),
                equal == (partial(self.limbs@, i as nat) == partial(other.limbs@, i as nat)),
            decreases n - i,
        {
            let a = self.get(i);
            let b = other.get(i);
            proof {
                let w = weight(i as nat) as int;
                let x = partial(self.limbs@, i as nat) as int;
                let y = partial(other.limbs@, i as nat) as int;
                lemma_partial_bound(self.limbs@, i as nat);
                lemma_partial_bound(other.limbs@, i as nat);
                if a < b {
                    assert((a + 1) * w <= b * w && (a + 1) * w == a * w + w) by (nonlinear_arith)
                        requires
                            a + 1 <= b,
                            w >= 0,
                    ;
                } else if a > b {
                    assert((b + 1) * w <= a * w && (b + 1) * w == b * w + w) by (nonlinear_arith)
                        requires
                            b + 1 <= a,
                            w >= 0,
                    ;
                }
            }
            if a < b {
                less = true;
                equal = false;
            } else if a > b {
                less = false;
                equal = false;
            }
            i = i + 1;
        }
        proof {
            lemma_partial_tail(self.limbs@, n as nat);
            lemma_partial_tail(other.limbs@, n as nat);
        }
        (less, equal)
    }

    pub fn plus(&self, other: &BigNat) -> (r: BigNat)
        ensures
            r@ == self@ + other@,
    {
        let n: usize = if self.limbs.len() < other.limbs.len() {
            other.limbs.len()
        } else {
            self.limbs.len()
        };
        let mut out: Vec<u32> = Vec::new();
        let mut carry: u32 = 0;
        let mut i: usize = 0;
        while i < n
            invariant
                0 <= i <= n,
                out.len() == i,
                carry <= 1,
                partial(out@, i as nat) + carry * weight(i as nat) == partial(self.limbs@, i as nat)
                    + partial(other.limbs@, i as nat),
            decreases n - i,
        {
            let a = self.get(i);
            let b = other.get(i);
            let sum: u64 = a as u64 + b as u64 + carry as u64;
            let d: u32 = (sum % 0x1_0000_0000) as u32;
            let next: u32 = (sum / 0x1_0000_0000) as u32;
            proof {
                let w = weight(i as nat);
                lemma_weight(i as nat);
                lemma_partial_push(out@, d);
                assert(sum == next * 0x1_0000_0000 + d);
                assert(d * w + next * (0x1_0000_0000 * w) == a * w + b * w + carry * w)
                    by (nonlinear_arith)
                    requires
                        a + b + carry == next * 0x1_0000_0000 + d,
                ;
            }
            out.push(d);
            carry = next;
            i = i + 1;
        }
        proof {
            lemma_partial_tail(self.limbs@, n as nat);
            lemma_partial_tail(other.limbs@, n as nat);
            lemma_partial_push(out@, carry);
        }
        out.push(carry);
        tidy(out)
    }

    /// The difference to a number that is not larger.
    pub fn minus(&self, other: &BigNat) -> (r: BigNat)
        requires
            other@ <= self@,
        ensures
            r@ == self@ - other@,
    {
        let n: usize = if self.limbs.len() < other.limbs.len() {
            other.limbs.len()
        } else {
            self.limbs.len()
        };
        let mut out: Vec<u32> = Vec::new();
        let mut borrow: u32 = 0;
        let mut i: usize = 0;
        while i < n
            invariant
                0 <= i <= n,
                out.len() == i,
                borrow <= 1,
                partial(out@, i as nat) + partial(other.limbs@, i as nat) == partial(
                    self.limbs@,
                    i as nat,
                ) + borrow * weight(i as nat),
            decreases n - i,
        {
            let a = self.get(i);
            let b = other.get(i);
            let diff: u64 = a as u64 + 0x1_0000_0000 - b as u64 - borrow as u64;
            let d: u32 = (diff % 0x1_0000_0000) as u32;
            let next: u32 = if diff < 0x1_0000_0000 {
                1
            } else {
                0
            };
            proof {
                let w = weight(i as nat);
                lemma_weight(i as nat);
                lemma_partial_push(out@, d);
                assert(d + b + borrow == a + next * 0x1_0000_0000);
                assert(d * w + b * w + borrow * w == a * w + next * (0x1_0000_0000 * w))
                    by (nonlinear_arith)
                    requires
                        d + b + borrow == a + next * 0x1_0000_0000,
                ;
            }
            out.push(d);
            borrow = next;
            i = i + 1;
        }
        proof {
            lemma_partial_tail(self.limbs@, n as nat);
            lemma_partial_tail(other.limbs@, n as nat);
            lemma_partial_bound(out@, n as nat);
            if borrow == 1 {
                assert(1 * weight(n as nat) == weight(n as nat));
            }
            assert(0 * weight(n as nat) == 0);
        }
        tidy(out)
    }

    pub fn times(&self, m: u64) -> (r: BigNat)
        ensures
            r@ == self@ * m,
    {
        let mut out: Vec<u32> = Vec::new();
        let mut carry: u128 = 0;
        let mut i: usize = 0;
        assert(0 * weight(0) == 0 && 0 * m == 0);
        while i < self.limbs.len()
            invariant
                0 <= i <= self.limbs.len(),
                out.len() == i,
                carry <= 0x1_0000_0000_0000_0000,
                partial(out@, i as nat) + carry * weight(i as nat) == partial(self.limbs@, i as nat) * m,
            decreases self.limbs.len() - i,
        {
            let a = self.limbs[i];
            assert(a * m <= 0xffff_ffff * 0xffff_ffff_ffff_ffff) by (nonlinear_arith)
                requires
                    a <= 0xffff_ffff,
                    m <= 0xffff_ffff_ffff_ffff,
            ;
            let sum: u128 = (a as u128) * (m as u128) + carry;
            let d: u32 = (sum % 0x1_0000_0000) as u32;
            let next: u128 = sum / 0x1_0000_0000;
            proof {
                let w = weight(i as nat);
                let p = partial(self.limbs@, i as nat);
                lemma_weight(i as nat);
                lemma_partial_push(out@, d);
                assert(sum == next * 0x1_0000_0000 + d);
                assert(d * w + next * (0x1_0000_0000 * w) == (a * m) * w + carry * w)
                    by (nonlinear_arith)
                    requires
                        a * m + carry == next * 0x1_0000_0000 + d,
                ;
                assert((p + a * w) * m == p * m + (a * m) * w) by (nonlinear_arith);
            }
            out.push(d);
            carry = next;
            i = i + 1;
        }
        while carry > 0
            invariant
                partial(out@, out@.len()) + carry * weight(out@.len()) == self@ * m,
            decreases carry,
        {
            let d: u32 = (carry % 0x1_0000_0000) as u32;
            let next: u128 = carry / 0x1_0000_0000;
            proof {
                let w = weight(out@.len());
                lemma_weight(out@.len());
                lemma_partial_push(out@, d);
                assert(carry == next * 0x1_0000_0000 + d);
                assert(carry * w == d * w + next * (0x1_0000_0000 * w)) by (nonlinear_arith)
                    requires
                        carry == next * 0x1_0000_0000 + d,
                ;
            }
            out.push(d);
            carry = next;
        }
        assert(0 * weight(out@.len()) == 0);
        tidy(out)
    }

    /// Multiplied by a power of two.
    pub fn shifted(&self, k: usize) -> (r: BigNat)
        ensures
            r@ == self@ * pow2(k as nat),
    {
        let whole: usize = k / 32;
        let part: usize = k % 32;
        let mut limbs: Vec<u32> = Vec::new();
        let mut i: usize = 0;
        while i < whole
            invariant
                0 <= i <= whole,
                limbs.len() == i,
                partial(limbs@, i as nat) == 0,
            decreases whole - i,
        {
            proof {
                lemma_partial_push(limbs@, 0);
                assert(0 * weight(i as nat) == 0);
            }
            limbs.push(0);
            i = i + 1;
        }
        i = 0;
        proof {
            assert(0 * weight(whole as nat) == 0);
        }
        while i < self.limbs.len()
            invariant
                0 <= i <= self.limbs.len(),
                limbs.len() == whole + i,
                partial(limbs@, (whole + i) as nat) == partial(self.limbs@, i as nat) * weight(
                    whole as nat,
                ),
            decreases self.limbs.len() - i,
        {
            let d = self.limbs[i];
            proof {
                let w = weight(i as nat);
                let v = weight(whole as nat);
                let p = partial(self.limbs@, i as nat);
                lemma_partial_push(limbs@, d);
                lemma_pow2_adds(32 * whole as nat, 32 * i as nat);
                assert(32 * whole + 32 * i == 32 * (whole + i));
                assert((p + d * w) * v == p * v + d * (v * w)) by (nonlinear_arith);
            }
            limbs.push(d);
            i = i + 1;
        }
        let moved = BigNat { limbs };
        let mut scale: u64 = 1;
        let mut s: usize = 0;
        proof {
            vstd::arithmetic::power2::lemma2_to64();
        }
        while s < part
            invariant
                0 <= s <= part,
                part < 32,
                scale == pow2(s as nat),
                scale <= 0x1_0000_0000,
            decreases part - s,
        {
            proof {
                vstd::arithmetic::power2::lemma_pow2_unfold((s + 1) as nat);
                lemma_pow2_strictly_increases(s as nat, 31);
                lemma_pow2_strictly_increases((s + 1) as nat, 32);
                vstd::arithmetic::power2::lemma2_to64();
            }
            scale = scale * 2;
            s = s + 1;
        }
        proof {
            let v = weight(whole as nat);
            lemma_pow2_adds(32 * whole as nat, part as nat);
            assert(32 * whole + part == k);
            assert((self@ * v) * scale == self@ * (v * scale)) by (nonlinear_arith);
        }
        moved.times(scale)
    }

    /// Quotient and remainder.
    pub fn divided(&self, other: &BigNat) -> (r: (BigNat, BigNat))
        requires
            other@ > 0,
        ensures
            r.0@ == self@ / other@,
            r.1@ == self@ % other@,
    {
        let mut rest = BigNat::zero();
        let mut quotient = BigNat::zero();
        let mut i: usize = self.limbs.len();
        let ghost total = self.limbs@.len();
        let ghost m = other@;
        proof {
            lemma_high_all(self.limbs@, total);
            assert(0 * m == 0);
        }
        while i > 0
            invariant
                m == other@,
                m > 0,
                total == self.limbs@.len(),
                0 <= i <= total,
                rest@ < m,
                high(self.limbs@, i as nat) == quotient@ * m + rest@,
            decreases i,
        {
            i = i - 1;
            let d = self.limbs[i];
            let mut b: u32 = 0;
            let ghost h = high(self.limbs@, (i + 1) as nat);
            proof {
                lemma_high_step(self.limbs@, i as nat);
                lemma_taken_all(d);
                assert(h * 1 == h);
                vstd::arithmetic::power2::lemma2_to64();
            }
            while b < 32
                invariant
                    m == other@,
                    m > 0,
                    0 <= b <= 32,
                    rest@ < m,
                    h * pow2(b as nat) + taken(d, b as nat) == quotient@ * m + rest@,
                decreases 32 - b,
            {
                let bit: u32 = (d >> (31 - b)) & 1;
                let doubled = rest.plus(&rest).plus(&BigNat::from_u128(bit as u128));
                let ghost q = quotient@;
                proof {
                    lemma_taken_step(d, b, bit);
                    vstd::arithmetic::power2::lemma_pow2_unfold((b + 1) as nat);
                    assert(h * pow2((b + 1) as nat) == 2 * (h * pow2(b as nat))) by (nonlinear_arith)
                        requires
                            pow2((b + 1) as nat) == 2 * pow2(b as nat),
                    ;
                    assert(2 * (q * m) == (2 * q) * m) by (nonlinear_arith);
                    assert((2 * q + 1) * m == (2 * q) * m + m) by (nonlinear_arith);
                }
                let (below, _same) = doubled.compare(other);
                quotient = quotient.plus(&quotient);
                if below {
                    rest = doubled;
                } else {
                    rest = doubled.minus(other);
                    quotient = quotient.plus(&BigNat::from_u128(1));
                }
                b = b + 1;
            }
            proof {
                lemma_taken_all(d);
            }
        }
        proof {
            vstd::arithmetic::div_mod::lemma_fundamental_div_mod_converse(
                self@ as int,
                m as int,
                quotient@ as int,
                rest@ as int,
            );
        }
        (quotient, rest)
    }

    /// The remainder after division.
    pub fn modulo(&self, other: &BigNat) -> (r: BigNat)
        requires
            other@ > 0,
        ensures
            r@ == self@ % other@,
    {
        let (_quotient, rest) = self.divided(other);
        rest
    }

    /// Quotient and remainder where the quotient is a digit.
    pub fn divided_small(&self, other: &BigNat) -> (r: (u8, BigNat))
        requires
            other@ > 0,
            self@ / other@ < 10,
        ensures
            r.0 == self@ / other@,
            r.0 < 10,
            r.1@ == self@ % other@,
    {
        let mut q: u8 = 0;
        let mut rest = self.copy();
        let ghost m = other@ as int;
        let ghost all = self@ as int;
        proof {
            assert(0 * m == 0);
        }
        loop
            invariant
                m == other@,
                m > 0,
                all == self@,
                all / m < 10,
                q <= all / m,
                all == q * m + rest@,
            decreases rest@,
        {
            let (less, _same) = rest.compare(other);
            if less {
                proof {
                    vstd::arithmetic::div_mod::lemma_fundamental_div_mod_converse(
                        all,
                        m,
                        q as int,
                        rest@ as int,
                    );
                }
                return (q, rest);
            }
            proof {
                assert((q + 1) * m == q * m + m) by (nonlinear_arith);
                assert(q + 1 <= all / m) by (nonlinear_arith)
                    requires
                        (q + 1) * m <= all,
                        m > 0,
                ;
            }
            rest = rest.minus(other);
            q = q + 1;
        }
    }

    /// The last decimal digit, and the number without it.
    fn split_digit(&self) -> (r: (BigNat, u8))
        ensures
            r.0@ == self@ / 10,
            r.1 as nat == self@ % 10,
    {
        let mut rest: u64 = 0;
        let mut out: Vec<u32> = Vec::new();
        let mut i: usize = self.limbs.len();
        let ghost total = self.limbs@.len();
        proof {
            lemma_high_all(self.limbs@, total);
        }
        while i > 0
            invariant
                total == self.limbs@.len(),
                0 <= i <= total,
                out.len() == total - i,
                rest < 10,
                high(self.limbs@, i as nat) == falling(out@) * 10 + rest,
            decreases i,
        {
            i = i - 1;
            let d = self.limbs[i];
            let cur: u64 = rest * 0x1_0000_0000 + d as u64;
            let q: u64 = cur / 10;
            proof {
                lemma_high_step(self.limbs@, i as nat);
                lemma_falling_push(out@, q as u32);
            }
            out.push(q as u32);
            rest = cur % 10;
        }
        let mut limbs: Vec<u32> = Vec::new();
        let mut k: usize = out.len();
        while k > 0
            invariant
                0 <= k <= out.len(),
                limbs.len() == out.len() - k,
                forall|j: int| 0 <= j < limbs.len() ==> #[trigger] limbs@[j] == out@[out.len() - 1 - j],
            decreases k,
        {
            k = k - 1;
            limbs.push(out[k]);
        }
        proof {
            lemma_falling_reverse(out@, limbs@, 0);
            lemma_high_all(limbs@, limbs@.len());
        }
        (tidy(limbs), rest as u8)
    }

    /// Appends the decimal numeral of the number.
    pub fn push_decimal(&self, s: &mut String)
        ensures
            final(s)@ == old(s)@ + decimal(self@),
    {
        let mut digits: Vec<u8> = Vec::new();
        let mut rest = self.copy();
        let ghost start = s@;
        while !rest.at_most_nine()
            invariant
                forall|i: int| 0 <= i < digits.len() ==> #[trigger] digits@[i] < 10,
                decimal(self@) == decimal(rest@) + digit_text(digits@),
            decreases rest@,
        {
            let (front, d) = rest.split_digit();
            proof {
                assert(decimal(rest@) =~= decimal(front@).push(digit_char(d as nat)));
                lemma_digit_text(digits@, d);
                assert(decimal(front@).push(digit_char(d as nat)) + digit_text(digits@)
                    =~= decimal(front@) + digit_text(digits@.push(d)));
            }
            digits.push(d);
            rest = front;
        }
        let (_none, top) = rest.split_digit();
        push_digit(s, top);
        let mut k: usize = digits.len();
        proof {
            assert(s@ =~= start + decimal(rest@));
            assert(digits@.subrange(k as int, digits.len() as int) =~= Seq::empty());
        }
        let ghost lead = s@;
        while k > 0
            invariant
                0 <= k <= digits.len(),
                forall|i: int| 0 <= i < digits.len() ==> #[trigger] digits@[i] < 10,
                s@.len() == lead.len() + digits.len() - k,
                lead.is_prefix_of(s@),
                forall|j: int|
                    0 <= j < digits.len() - k ==> #[trigger] s@[lead.len() + j] == digit_char(
                        digits@[digits.len() - 1 - j] as nat,
                    ),
            decreases k,
        {
            k = k - 1;
            push_digit(s, digits[k]);
        }
        proof {
            lemma_digit_text_index(digits@);
            assert(s@ =~= lead + digit_text(digits@)) by {
                assert forall|i: int| 0 <= i < s@.len() implies s@[i] == (lead + digit_text(digits@))[i] by {
                    if i >= lead.len() {
                        assert(s@[lead.len() + (i - lead.len())] == digit_char(
                            digits@[digits.len() - 1 - (i - lead.len())] as nat,
                        ));
                    }
                }
            }
            assert(start + decimal(rest@) + digit_text(digits@) =~= start + (decimal(rest@)
                + digit_text(digits@)));
        }
    }

    fn at_most_nine(&self) -> (r: bool)
        ensures
            r == (self@ < 10),
    {
        let (less, _same) = self.compare(&BigNat::from_u128(10));
        less
    }
}

/// Digits with the lowest first, as text with the highest first.
spec fn digit_text(digits: Seq<u8>) -> Seq<char>
    decreases digits.len(),
{
    if digits.len() == 0 {
        Seq::empty()
    } else {
        seq![digit_char(digits.last() as nat)] + digit_text(digits.drop_last())
    }
}

proof fn lemma_digit_text(digits: Seq<u8>, d: u8)
    ensures
        digit_text(digits.push(d)) == seq![digit_char(d as nat)] + digit_text(digits),
{
    assert(digits.push(d).drop_last() =~= digits);
}

proof fn lemma_digit_text_index(digits: Seq<u8>)
    ensures
        digit_text(digits).len() == digits.len(),
        forall|j: int|
            0 <= j < digits.len() ==> #[trigger] digit_text(digits)[j] == digit_char(
                digits[digits.len() - 1 - j] as nat,
            ),
    decreases digits.len(),
{
    if digits.len() > 0 {
        lemma_digit_text_index(digits.drop_last());
    }
}

/// What limbs with the highest first stand for.
spec fn falling(s: Seq<u32>) -> nat
    decreases s.len(),
{
    if s.len() == 0 {
        0
    } else {
        falling(s.drop_last()) * 0x1_0000_0000 + s.last() as nat
    }
}

proof fn lemma_falling_push(s: Seq<u32>, d: u32)
    ensures
        falling(s.push(d)) == falling(s) * 0x1_0000_0000 + d,
{
    assert(s.push(d).drop_last() =~= s);
}

proof fn lemma_falling_reverse(out: Seq<u32>, limbs: Seq<u32>, n: nat)
    requires
        limbs.len() == out.len(),
        forall|j: int| 0 <= j < limbs.len() ==> #[trigger] limbs[j] == out[out.len() - 1 - j],
        n <= out.len(),
    ensures
        high(limbs, n) == falling(out.take(out.len() - n)),
        n == 0 ==> high(limbs, 0) == falling(out),
    decreases out.len() - n,
{
    if n < out.len() {
        lemma_falling_reverse(out, limbs, n + 1);
        let a = out.take(out.len() - n);
        assert(a.drop_last() =~= out.take(out.len() - (n + 1)));
        assert(a.last() == limbs[n as int]);
    }
    assert(out.take(out.len() as int) =~= out);
}

/// What the limbs from position `n` up stand for, scaled down to start at
/// one.
spec fn high(s: Seq<u32>, n: nat) -> nat
    decreases s.len() - n,
{
    if n >= s.len() {
        0
    } else {
        high(s, n + 1) * 0x1_0000_0000 + s[n as int] as nat
    }
}

proof fn lemma_high_step(s: Seq<u32>, n: nat)
    requires
        n < s.len(),
    ensures
        high(s, n) == high(s, n + 1) * 0x1_0000_0000 + s[n as int],
{
}

proof fn lemma_high_all(s: Seq<u32>, n: nat)
    requires
        n <= s.len(),
    ensures
        partial(s, n) + high(s, n) * weight(n) == partial(s, s.len()),
        high(s, 0) == partial(s, s.len()),
    decreases s.len() - n,
{
    lemma_high_down(s, n);
    lemma_high_down(s, 0);
    lemma_weight(0);
    assert(high(s, 0) * 1 == high(s, 0));
}

proof fn lemma_high_down(s: Seq<u32>, n: nat)
    requires
        n <= s.len(),
    ensures
        partial(s, n) + high(s, n) * weight(n) == partial(s, s.len()),
    decreases s.len() - n,
{
    if n == s.len() {
        assert(0 * weight(n) == 0);
    } else {
        lemma_high_down(s, n + 1);
        lemma_weight(n);
        let h = high(s, n + 1);
        let w = weight(n);
        let d = s[n as int];
        assert((h * 0x1_0000_0000 + d) * w == d * w + h * (0x1_0000_0000 * w)) by (nonlinear_arith);
    }
}

/// The top `b` bits of a limb.
spec fn taken(d: u32, b: nat) -> nat
    recommends
        b <= 32,
{
    d as nat / pow2((32 - b) as nat)
}

proof fn lemma_taken_step(d: u32, b: u32, bit: u32)
    requires
        b < 32,
        bit == (d >> ((31 - b) as u32)) & 1,
    ensures
        taken(d, (b + 1) as nat) == 2 * taken(d, b as nat) + bit,
        bit <= 1,
{
    let k = (31 - b) as u32;
    assert(bit <= 1 && bit == (d >> k) % 2) by (bit_vector)
        requires
            bit == (d >> k) & 1,
    ;
    vstd::bits::lemma_u32_shr_is_div(d, k);
    let p = pow2(k as nat);
    lemma_pow2_pos(k as nat);
    vstd::arithmetic::power2::lemma_pow2_unfold((k + 1) as nat);
    assert((32 - b) as nat == (k + 1) as nat);
    assert((32 - (b + 1)) as nat == k as nat);
    vstd::arithmetic::div_mod::lemma_div_denominator(d as int, p as int, 2);
    assert(d as int / (p as int * 2) == (d as int / p as int) / 2);
}

proof fn lemma_taken_all(d: u32)
    ensures
        taken(d, 32) == d,
        taken(d, 0) == 0,
{
    vstd::arithmetic::power2::lemma2_to64();
    assert((32 - 32) as nat == 0);
    assert(d as nat / 1 == d);
    assert((32 - 0) as nat == 32);
    assert(d as nat / 0x1_0000_0000 == 0);
}

proof fn lemma_partial_grows(s: Seq<u32>, n: nat, m: nat)
    requires
        n <= m,
    ensures
        partial(s, n) <= partial(s, m),
    decreases m - n,
{
    if n < m {
        lemma_partial_grows(s, n, (m - 1) as nat);
    }
}

} // verus!
