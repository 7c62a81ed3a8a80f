//! Modular arithmetic on `u64` residues: an explicit modulus configuration
//! threaded through every operation, and residue values bundled with their
//! configuration.

use vstd::prelude::*;
use vstd::arithmetic::div_mod::{
    lemma_fundamental_div_mod, lemma_mod_bound, lemma_mod_self_0,
    lemma_mod_sub_multiples_vanish, lemma_mul_mod_noop_left, lemma_mul_mod_noop_right,
    lemma_small_mod, lemma_sub_mod_noop, lemma_sub_mod_noop_right,
};

verus! {

/// Greatest common divisor, by the Euclidean recursion.
pub open spec fn gcd(a: nat, b: nat) -> nat
    decreases b,
{
    if b == 0 {
        a
    } else {
        gcd(b, a % b)
    }
}

/// Every entry of the sequence is a reduced residue below `m`.
pub open spec fn reduced(s: Seq<u64>, m: u64) -> bool {
    forall|i: int| 0 <= i < s.len() ==> s[i] < m
}

/// Explicit modular-arithmetic configuration. Every ring operation reads the
/// modulus from one of these values, passed to it by the caller; there is no
/// ambient process-wide state.
#[derive(Clone, Copy, PartialEq, Eq, Structural)]
pub struct Modulus {
    pub modulus: u64,
    pub zero: u64,
    pub one: u64,
    pub primitive_root: u64,
}

impl Modulus {
    /// The additive identity is 0 and the multiplicative identity is the
    /// residue of 1; the modulus is positive.
    pub open spec fn wf(self) -> bool {
        &&& 1 <= self.modulus
        &&& self.zero == 0
        &&& self.one == 1int % (self.modulus as int)
    }

    pub fn new(modulus: u64, primitive_root: u64) -> (r: Self)
        requires
            1 <= modulus,
        ensures
            r.wf(),
            r.modulus == modulus,
            r.primitive_root == primitive_root,
    {
        Modulus { modulus, zero: 0, one: 1 % modulus, primitive_root }
    }

    /// Re-points the configuration at a new modulus and primitive root.
    pub fn set(&mut self, modulus: u64, primitive_root: u64)
        requires
            1 <= modulus,
        ensures
            final(self).wf(),
            final(self).modulus == modulus,
            final(self).primitive_root == primitive_root,
    {
        self.modulus = modulus;
        self.primitive_root = primitive_root;
        self.zero = 0;
        self.one = 1 % modulus;
    }

    /// Modular addition of two reduced residues.
    pub fn add(&self, a: u64, b: u64) -> (r: u64)
        requires
            self.wf(),
            a < self.modulus,
            b < self.modulus,
        ensures
            r == (a + b) % (self.modulus as int),
            r < self.modulus,
    {
        let m = self.modulus;
        let rest = m - b;
        if a >= rest {
            proof {
                lemma_mod_sub_multiples_vanish((a + b) as int, m as int);
                lemma_small_mod((a + b - m) as nat, m as nat);
            }
            a - rest
        } else {
            proof {
                lemma_small_mod((a + b) as nat, m as nat);
            }
            a + b
        }
    }

    /// Modular subtraction of two reduced residues.
    pub fn sub(&self, a: u64, b: u64) -> (r: u64)
        requires
            self.wf(),
            a < self.modulus,
            b < self.modulus,
        ensures
            r == (a - b) % (self.modulus as int),
            r < self.modulus,
    {
        let m = self.modulus;
        if a >= b {
            proof {
                lemma_small_mod((a - b) as nat, m as nat);
            }
            a - b
        } else {
            proof {
                lemma_mod_sub_multiples_vanish(a - b + m, m as int);
                lemma_small_mod((a - b + m) as nat, m as nat);
            }
            a + (m - b)
        }
    }

    /// Modular multiplication of two reduced residues, through a 128-bit
    /// intermediate product.
    pub fn mul(&self, a: u64, b: u64) -> (r: u64)
        requires
            self.wf(),
            a < self.modulus,
            b < self.modulus,
        ensures
            r == (a * b) % (self.modulus as int),
            r < self.modulus,
    {
        proof {
            assert((a as int) * (b as int) < 0x10000000000000000 * 0x10000000000000000)
                by (nonlinear_arith)
                requires a < 0x10000000000000000 && b < 0x10000000000000000;
        }
        let prod: u128 = (a as u128) * (b as u128);
        let m: u128 = self.modulus as u128;
        proof {
            lemma_mod_bound((a * b) as int, self.modulus as int);
        }
        (prod % m) as u64
    }

    /// Modular division: multiplication by the inverse of `b`, which the
    /// caller must know to exist.
    pub fn div(&self, a: u64, b: u64) -> (r: u64)
        requires
            self.wf(),
            a < self.modulus,
            b < self.modulus,
            gcd(b as nat, self.modulus as nat) == 1,
        ensures
            r < self.modulus,
            (r * b) % (self.modulus as int) == (a as int) % (self.modulus as int),
    {
        let x = self.inv(b).unwrap();
        let r = self.mul(a, x);
        proof {
            lemma_cancel_inverse(a as int, b as int, x as int, self.modulus as int);
        }
        r
    }

    /// The modular inverse of `a`, when `a` and the modulus are coprime;
    /// `None` otherwise. Computed by the extended Euclidean algorithm.
    pub fn inv(&self, a: u64) -> (r: Option<u64>)
        requires
            self.wf(),
            a < self.modulus,
        ensures
            r is Some <==> gcd(a as nat, self.modulus as nat) == 1,
            r matches Some(x) ==> x < self.modulus && (a * x) % (self.modulus as int) == 1int % (
            self.modulus as int),
    {
        let m = self.modulus;
        let mut r0: u64 = a;
        let mut r1: u64 = m;
        let mut x0: u64 = 1 % m;
        let mut x1: u64 = 0;
        proof {
            lemma_mul_mod_noop_right(a as int, 1int, m as int);
            lemma_small_mod(a as nat, m as nat);
            lemma_mod_self_0(m as int);
            assert(a * (1int % (m as int)) == a * x0);
            assert((a * x1) % (m as int) == (r1 as int) % (m as int)) by {
                assert(a * 0 == 0) by (nonlinear_arith);
            }
        }
        while r1 != 0
            invariant
                self.wf(),
                m == self.modulus,
                r0 <= m,
                r1 <= m,
                x0 < m,
                x1 < m,
                gcd(r0 as nat, r1 as nat) == gcd(a as nat, m as nat),
                (a * x0) % (m as int) == (r0 as int) % (m as int),
                (a * x1) % (m as int) == (r1 as int) % (m as int),
            decreases r1,
        {
            let q = r0 / r1;
            let r2 = r0 % r1;
            let t = self.mul(q % m, x1);
            let x2 = self.sub(x0, t);
            proof {
                lemma_mul_mod_noop_left(q as int, x1 as int, m as int);
                lemma_sub_mod_noop_right(x0 as int, (q * x1) as int, m as int);
                assert(x2 == (x0 - q * x1) % (m as int));
                lemma_step_congruence(a as int, x0 as int, x1 as int, r0 as int, r1 as int,
                    q as int, m as int);
                lemma_fundamental_div_mod(r0 as int, r1 as int);
                assert(r0 - q * r1 == r2);
                lemma_mod_bound(r2 as int, m as int);
                lemma_small_mod(r2 as nat, m as nat);
            }
            r0 = r1;
            r1 = r2;
            x0 = x1;
            x1 = x2;
        }
        if r0 == 1 {
            Some(x0)
        } else {
            proof {
                if gcd(a as nat, m as nat) == 1 {
                    assert(gcd(r0 as nat, 0) == r0 as nat);
                }
            }
            None
        }
    }
}

/// From `a*x ≡ r` and `a*y ≡ s` (mod `m`), the next Euclidean combination
/// `(x - q*y) mod m` pairs with the remainder `r - q*s`.
proof fn lemma_step_congruence(a: int, x: int, y: int, r: int, s: int, q: int, m: int)
    requires
        1 <= m,
        (a * x) % m == r % m,
        (a * y) % m == s % m,
    ensures
        (a * ((x - q * y) % m)) % m == (r - q * s) % m,
{
    lemma_mul_mod_noop_right(a, x - q * y, m);
    assert(a * (x - q * y) == a * x - q * (a * y)) by (nonlinear_arith);
    lemma_sub_mod_noop(a * x, q * (a * y), m);
    lemma_mul_mod_noop_right(q, a * y, m);
    lemma_mul_mod_noop_right(q, s, m);
    lemma_sub_mod_noop(a * x, q * s, m);
    assert((a * x - q * (a * y)) % m == ((a * x) % m - (q * (a * y)) % m) % m);
    assert((q * (a * y)) % m == (q * s) % m);
    assert(((a * x) % m - (q * s) % m) % m == (a * x - q * s) % m);
    assert((a * x - q * s) % m == ((a * x) % m - (q * s) % m) % m);
    assert((r % m - (q * s) % m) % m == (r - q * s) % m) by {
        lemma_sub_mod_noop(r, q * s, m);
    }
}

/// Multiplying by `x` and then by `b` cancels when `b*x ≡ 1` (mod `m`).
pub proof fn lemma_cancel_inverse(a: int, b: int, x: int, m: int)
    requires
        1 <= m,
        (b * x) % m == 1int % m,
    ensures
        (((a * x) % m) * b) % m == a % m,
{
    lemma_mul_mod_noop_left(a * x, b, m);
    assert((a * x) * b == a * (b * x)) by (nonlinear_arith);
    lemma_mul_mod_noop_right(a, b * x, m);
    lemma_mul_mod_noop_right(a, 1int, m);
    assert((a * (b * x)) % m == (a * ((b * x) % m)) % m);
    assert((a * ((b * x) % m)) % m == (a * (1int % m)) % m);
    assert((a * (1int % m)) % m == (a * 1) % m);
    assert(a * 1 == a);
}

proof fn lemma_bezout_steps(a: int, m: int, r0: int, r1: int, x0: int, x1: int)
    requires
        1 <= m,
        0 <= r0,
        0 <= r1,
        0 <= x0 < m,
        0 <= x1 < m,
        gcd(r0 as nat, r1 as nat) == 1,
        (a * x0) % m == r0 % m,
        (a * x1) % m == r1 % m,
    ensures
        exists|x: int| 0 <= x < m && #[trigger] ((a * x) % m) == 1int % m,
    decreases r1,
{
    if r1 == 0 {
        assert(gcd(r0 as nat, 0) == r0 as nat);
        assert(r0 == 1);
        assert((a * x0) % m == 1int % m);
    } else {
        let q = r0 / r1;
        let r2 = r0 % r1;
        let x2 = (x0 - q * x1) % m;
        lemma_step_congruence(a, x0, x1, r0, r1, q, m);
        lemma_fundamental_div_mod(r0, r1);
        assert(r0 - q * r1 == r2);
        lemma_mod_bound(x0 - q * x1, m);
        lemma_bezout_steps(a, m, r1, r2, x1, x2);
    }
}

/// A residue coprime to the modulus has a multiplicative inverse.
pub proof fn lemma_inverse_exists(a: int, m: int)
    requires
        1 <= m,
        0 <= a < m,
        gcd(a as nat, m as nat) == 1,
    ensures
        exists|x: int| 0 <= x < m && #[trigger] ((a * x) % m) == 1int % m,
{
    let x0 = 1int % m;
    lemma_mul_mod_noop_right(a, 1int, m);
    lemma_small_mod(a as nat, m as nat);
    lemma_mod_self_0(m);
    assert(a * x0 == a * (1int % m));
    assert((a * (1int % m)) % m == (a * 1) % m);
    assert(a * 1 == a);
    assert((a * 0) % m == m % m) by {
        assert(a * 0 == 0) by (nonlinear_arith);
    }
    lemma_mod_bound(1int, m);
    lemma_bezout_steps(a, m, a, m, x0, 0);
}

/// Multiplication by a residue coprime to the modulus is cancellable.
pub proof fn lemma_mod_cancel(c: int, u: int, m: int)
    requires
        1 <= m,
        0 <= c < m,
        gcd(c as nat, m as nat) == 1,
        (c * u) % m == 0,
    ensures
        u % m == 0,
{
    lemma_inverse_exists(c, m);
    let x = choose|x: int| 0 <= x < m && #[trigger] ((c * x) % m) == 1int % m;
    lemma_mul_mod_noop_right(u, c * x, m);
    assert((u * (c * x)) % m == (u * ((c * x) % m)) % m);
    lemma_mul_mod_noop_right(u, 1int, m);
    assert((u * (1int % m)) % m == (u * 1) % m);
    assert(u * 1 == u);
    assert(u * (c * x) == x * (c * u)) by (nonlinear_arith);
    lemma_mul_mod_noop_right(x, c * u, m);
    assert((x * (c * u)) % m == (x * ((c * u) % m)) % m);
    assert(x * 0 == 0) by (nonlinear_arith);
    lemma_small_mod(0, m as nat);
}

/// A residue value carrying its modulus configuration, so that arithmetic on
/// it needs no ambient state.
#[derive(Clone, Copy, PartialEq, Eq, Structural)]
pub struct DynamicModInt {
    v: u64,
    md: Modulus,
}

impl DynamicModInt {
    /// The reduced value this element stands for.
    pub closed spec fn spec_value(self) -> u64 {
        self.v
    }

    /// The configuration this element carries.
    pub closed spec fn spec_modulus(self) -> Modulus {
        self.md
    }

    pub open spec fn wf(self) -> bool {
        self.spec_modulus().wf() && self.spec_value() < self.spec_modulus().modulus
    }

    pub fn new(v: u64, md: Modulus) -> (r: Self)
        requires
            md.wf(),
            v < md.modulus,
        ensures
            r.wf(),
            r.spec_value() == v,
            r.spec_modulus() == md,
    {
        DynamicModInt { v, md }
    }

    /// Builds an element under the configuration a factory supplies.
    pub fn from_factory<F: DynamicModulusFactory>(v: u64) -> (r: Self)
        requires
            v < F::spec_modulus().modulus,
        ensures
            r.wf(),
            r.spec_value() == v,
            r.spec_modulus() == F::spec_modulus(),
    {
        let md = F::modulus();
        DynamicModInt { v, md }
    }

    pub fn value(&self) -> (r: u64)
        ensures
            r == self.spec_value(),
    {
        self.v
    }

    /// The inverse element, when one exists under the carried modulus.
    pub fn possible_inv(&self) -> (r: Option<DynamicModInt>)
        requires
            self.wf(),
        ensures
            r is Some <==> gcd(self.spec_value() as nat, self.spec_modulus().modulus as nat) == 1,
            r matches Some(x) ==> x.wf() && x.spec_modulus() == self.spec_modulus() && (
            self.spec_value() * x.spec_value()) % (self.spec_modulus().modulus as int) == 1int % (
            self.spec_modulus().modulus as int),
    {
        match self.md.inv(self.v) {
            Some(x) => Some(DynamicModInt { v: x, md: self.md }),
            None => None,
        }
    }

    /// The sum of two elements under one configuration.
    pub fn add(&self, rhs: &Self) -> (r: Self)
        requires
            self.wf(),
            rhs.wf(),
            self.spec_modulus() == rhs.spec_modulus(),
        ensures
            r.wf(),
            r.spec_modulus() == self.spec_modulus(),
            r.spec_value() == (self.spec_value() + rhs.spec_value()) % (
            self.spec_modulus().modulus as int),
    {
        DynamicModInt { v: self.md.add(self.v, rhs.v), md: self.md }
    }

    /// The difference of two elements under one configuration.
    pub fn sub(&self, rhs: &Self) -> (r: Self)
        requires
            self.wf(),
            rhs.wf(),
            self.spec_modulus() == rhs.spec_modulus(),
        ensures
            r.wf(),
            r.spec_modulus() == self.spec_modulus(),
            r.spec_value() == (self.spec_value() - rhs.spec_value()) % (
            self.spec_modulus().modulus as int),
    {
        DynamicModInt { v: self.md.sub(self.v, rhs.v), md: self.md }
    }

    /// The product of two elements under one configuration.
    pub fn mul(&self, rhs: &Self) -> (r: Self)
        requires
            self.wf(),
            rhs.wf(),
            self.spec_modulus() == rhs.spec_modulus(),
        ensures
            r.wf(),
            r.spec_modulus() == self.spec_modulus(),
            r.spec_value() == (self.spec_value() * rhs.spec_value()) % (
            self.spec_modulus().modulus as int),
    {
        DynamicModInt { v: self.md.mul(self.v, rhs.v), md: self.md }
    }

    /// The quotient of two elements; the divisor must be invertible.
    pub fn div(&self, rhs: &Self) -> (r: Self)
        requires
            self.wf(),
            rhs.wf(),
            self.spec_modulus() == rhs.spec_modulus(),
            gcd(rhs.spec_value() as nat, self.spec_modulus().modulus as nat) == 1,
        ensures
            r.wf(),
            r.spec_modulus() == self.spec_modulus(),
            (r.spec_value() * rhs.spec_value()) % (self.spec_modulus().modulus as int)
                == (self.spec_value() as int) % (self.spec_modulus().modulus as int),
    {
        DynamicModInt { v: self.md.div(self.v, rhs.v), md: self.md }
    }
}


/// The residue of 1 is always coprime to the modulus.
pub proof fn lemma_gcd_one_mod(m: nat)
    requires
        1 <= m,
    ensures
        gcd((1nat % m), m) == 1,
{
    if m == 1 {
        assert(1nat % m == 0);
        assert(gcd(0, 1) == gcd(1, 0));
        assert(gcd(1, 0) == 1);
    } else {
        lemma_small_mod(1, m);
        assert(1nat % m == 1);
        assert(gcd(1, m) == gcd(m, 1nat % m)) by {
            assert(m != 0);
        }
        assert(m % 1 == 0) by {
            assert(m == (m as int) / 1 * 1 + 0) by (nonlinear_arith);
        }
        assert(gcd(m, 1) == gcd(1, m % 1));
        assert(gcd(1, 0) == 1);
    }
}


/// A source of a fixed modulus configuration, chosen by a type. Verified
/// code cannot re-point a process-wide mutable table, so a factory stands
/// for one immutable configuration; every call returns that same value.
pub trait DynamicModulusFactory {
    spec fn spec_modulus() -> Modulus;

    fn modulus() -> (m: Modulus)
        ensures
            m == Self::spec_modulus(),
            m.wf(),
    ;
}

/// The standard NTT-friendly prime configuration for 64-bit residues.
pub struct MF64;

impl DynamicModulusFactory for MF64 {
    open spec fn spec_modulus() -> Modulus {
        Modulus { modulus: 998244353, zero: 0, one: 1, primitive_root: 3 }
    }

    fn modulus() -> (m: Modulus) {
        Modulus { modulus: 998244353, zero: 0, one: 1, primitive_root: 3 }
    }
}

} // verus!
