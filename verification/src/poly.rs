//! The dense-polynomial container `Poly`: a trimmed coefficient vector over
//! the residue ring of an explicit `Modulus`, parameterized by a pluggable
//! convolution strategy.

use core::marker::PhantomData;
use vstd::prelude::*;
use vstd::arithmetic::div_mod::{
    lemma_add_mod_noop, lemma_add_mod_noop_right, lemma_mod_bound, lemma_mod_twice, lemma_mul_mod_noop,
    lemma_mul_mod_noop_left, lemma_mul_mod_noop_right, lemma_small_mod, lemma_sub_mod_noop,
    lemma_sub_mod_noop_right,
};
use crate::convolve::{
    coef, conv_at, conv_seq, delta, iv, rev_seq, lemma_conv_rev, prod_fold, sum_lens,
    lemma_conv_lin_left, lemma_conv_lin_right, deriv_int, lemma_deriv_int_coef, lemma_conv_deriv,
    lemma_conv_peel_left,
    lemma_prod_fold_concat, lemma_sum_lens_concat, lemma_sum_lens_nonneg, lemma_conv_at_vanish, lemma_conv_at_zero,
    lemma_conv_congruent, lemma_conv_comm, lemma_conv_assoc, lemma_conv_seq_coef,
    lemma_conv_unit_right, lemma_conv_unit_left, lemma_conv_zero_left, lemma_conv_zero_right,
    unit_seq, Convolution, PolyInverse,
};
use crate::modnum::{gcd, reduced, Modulus};

verus! {

/// A coefficient sequence with no trailing zero coefficients, except that the
/// zero polynomial keeps exactly its one constant coefficient.
pub open spec fn trimmed(s: Seq<u64>) -> bool {
    s.len() >= 1 && (s.len() > 1 ==> s[s.len() - 1] != 0)
}

/// The trimmed form of a coefficient sequence.
pub open spec fn trim_spec(s: Seq<u64>) -> Seq<u64>
    decreases s.len(),
{
    if s.len() == 0 {
        seq![0u64]
    } else if s.len() == 1 {
        s
    } else if s[s.len() - 1] == 0 {
        trim_spec(s.drop_last())
    } else {
        s
    }
}

pub proof fn lemma_trim_spec_trimmed(s: Seq<u64>)
    ensures
        trimmed(trim_spec(s)),
        trim_spec(s).len() <= s.len() || trim_spec(s) == seq![0u64],
    decreases s.len(),
{
    if s.len() > 1 && s[s.len() - 1] == 0 {
        lemma_trim_spec_trimmed(s.drop_last());
    }
}

/// Trimming does not change any padded coefficient.
pub proof fn lemma_trim_spec_coef(s: Seq<u64>, i: int)
    ensures
        coef(iv(trim_spec(s)), i) == coef(iv(s), i),
    decreases s.len(),
{
    if s.len() == 0 {
    } else if s.len() == 1 {
    } else if s[s.len() - 1] == 0 {
        lemma_trim_spec_coef(s.drop_last(), i);
        assert(coef(iv(s.drop_last()), i) == coef(iv(s), i));
    }
}

/// Two trimmed sequences with the same padded coefficients are equal.
pub proof fn lemma_trimmed_unique(s: Seq<u64>, t: Seq<u64>)
    requires
        trimmed(s),
        trimmed(t),
        forall|i: int| #[trigger] coef(iv(s), i) == coef(iv(t), i),
    ensures
        s == t,
{
    if s.len() < t.len() {
        if t.len() > 1 {
            assert(coef(iv(t), t.len() - 1) == t[t.len() - 1] as int);
            assert(coef(iv(s), t.len() - 1) == 0);
            assert(false);
        }
    } else if t.len() < s.len() {
        if s.len() > 1 {
            assert(coef(iv(s), s.len() - 1) == s[s.len() - 1] as int);
            assert(coef(iv(t), s.len() - 1) == 0);
            assert(false);
        }
    }
    assert(s.len() == t.len());
    assert forall|i: int| 0 <= i < s.len() implies s[i] == t[i] by {
        assert(coef(iv(s), i) == s[i] as int);
        assert(coef(iv(t), i) == t[i] as int);
    }
    assert(s =~= t);
}

/// The derivative of a coefficient sequence over the residue ring:
/// coefficient `j` is `(j+1) * s[j+1]`, reduced.
pub open spec fn deriv_seq(s: Seq<int>, m: int) -> Seq<int> {
    Seq::new(if s.len() == 0 {
        0
    } else {
        (s.len() - 1) as nat
    }, |j: int| (coef(s, j + 1) * ((j + 1) % m)) % m)
}

/// Horner evaluation of a coefficient sequence at `x`, over the residue ring.
pub open spec fn eval_spec(s: Seq<u64>, x: int, m: int) -> int
    decreases s.len(),
{
    if s.len() == 0 {
        0
    } else {
        ((s[0] as int) + x * eval_spec(s.subrange(1, s.len() as int), x, m)) % m
    }
}

/// A dense polynomial: a trimmed vector of reduced coefficients, coefficient
/// `i` holding the coefficient of `x^i`. The strategy type `C` supplies the
/// convolution used by every product.
pub struct Poly<C: Convolution> {
    c: Vec<u64>,
    strategy: PhantomData<C>,
}

impl<C: Convolution> View for Poly<C> {
    type V = Seq<u64>;

    closed spec fn view(&self) -> Seq<u64> {
        self.c@
    }
}

impl<C: Convolution> Poly<C> {
    /// Trimmed, reduced, and consistent with the configuration `md`.
    pub open spec fn wf(self, md: Modulus) -> bool {
        &&& md.wf()
        &&& trimmed(self@)
        &&& reduced(self@, md.modulus)
    }

    /// Builds a polynomial from a coefficient vector, trimming trailing
    /// zero coefficients (the zero polynomial stays as a single zero).
    pub fn new(p: Vec<u64>, md: &Modulus) -> (r: Self)
        requires
            md.wf(),
            reduced(p@, md.modulus),
        ensures
            r.wf(*md),
            r@ == trim_spec(p@),
            forall|i: int| #[trigger] coef(iv(r@), i) == coef(iv(p@), i),
    {
        let ghost orig = p@;
        let mut v = p;
        while v.len() > 1 && v[v.len() - 1] == 0
            invariant
                reduced(v@, md.modulus),
                trim_spec(v@) == trim_spec(orig),
            decreases v.len(),
        {
            let ghost before = v@;
            v.pop();
            proof {
                assert(v@ =~= before.drop_last());
            }
        }
        if v.len() == 0 {
            v.push(0);
        }
        proof {
            assert(trim_spec(v@) == v@);
            assert forall|i: int| #[trigger] coef(iv(trim_spec(orig)), i) == coef(iv(orig), i) by {
                lemma_trim_spec_coef(orig, i);
            }
            lemma_trim_spec_trimmed(orig);
        }
        Poly { c: v, strategy: PhantomData }
    }

    /// The zero polynomial.
    pub fn zero(md: &Modulus) -> (r: Self)
        requires
            md.wf(),
        ensures
            r.wf(*md),
            r@ == seq![0u64],
    {
        let mut v: Vec<u64> = Vec::new();
        v.push(0);
        proof {
            assert(v@ =~= seq![0u64]);
        }
        Poly { c: v, strategy: PhantomData }
    }

    /// The multiplicative-identity polynomial (the constant 1, reduced).
    pub fn one(md: &Modulus) -> (r: Self)
        requires
            md.wf(),
        ensures
            r.wf(*md),
            r@.len() == 1,
            coef(iv(r@), 0) == 1int % (md.modulus as int),
    {
        let mut v: Vec<u64> = Vec::new();
        v.push(1 % md.modulus);
        Poly { c: v, strategy: PhantomData }
    }

    /// The constant polynomial with value `v`.
    pub fn with_constant(v: u64, md: &Modulus) -> (r: Self)
        requires
            md.wf(),
            v < md.modulus,
        ensures
            r.wf(*md),
            r@.len() == 1,
            coef(iv(r@), 0) == v as int,
    {
        let mut w: Vec<u64> = Vec::new();
        w.push(v);
        Poly { c: w, strategy: PhantomData }
    }

    /// Whether this is the zero polynomial.
    pub fn is_zero(&self) -> (r: bool)
        requires
            trimmed(self@),
        ensures
            r <==> (self@.len() == 1 && self@[0] == 0),
    {
        self.c.len() == 1 && self.c[0] == 0
    }

    /// The coefficient-array length minus one: an upper bound on the degree.
    pub fn rank(&self) -> (r: usize)
        requires
            self@.len() >= 1,
        ensures
            r == self@.len() - 1,
    {
        self.c.len() - 1
    }

    /// The coefficient vector, in increasing-degree order.
    pub fn to_vec(self) -> (r: Vec<u64>)
        ensures
            r@ == self@,
    {
        self.c
    }

    /// A borrow of the coefficients, in increasing-degree order.
    pub fn iter(&self) -> (r: &Vec<u64>)
        ensures
            r@ == self@,
    {
        &self.c
    }

    /// `self mod x^n`: the first `n` coefficients.
    pub fn modular(&self, n: usize, md: &Modulus) -> (r: Self)
        requires
            self.wf(*md),
        ensures
            r.wf(*md),
            r@.len() <= (if n == 0 {
                1int
            } else {
                n as int
            }),
            forall|i: int| #[trigger] coef(iv(r@), i) == (if i < n {
                coef(iv(self@), i)
            } else {
                0
            }),
    {
        let mut v: Vec<u64> = Vec::new();
        let mut i: usize = 0;
        let end = if n < self.c.len() {
            n
        } else {
            self.c.len()
        };
        while i < end
            invariant
                i <= end,
                end <= self@.len(),
                end <= n,
                v@.len() == i,
                reduced(self@, md.modulus),
                forall|j: int| 0 <= j < i ==> v@[j] == self@[j],
            decreases end - i,
        {
            v.push(self.c[i]);
            i += 1;
        }
        let r = Self::new(v, md);
        proof {
            lemma_trim_spec_trimmed(v@);
            assert forall|j: int| #[trigger] coef(iv(r@), j) == (if j < n {
                coef(iv(self@), j)
            } else {
                0
            }) by {}
        }
        r
    }

    /// Division by `x^n`, discarding the remainder: drops the lowest `n`
    /// coefficients.
    pub fn left_shift(&self, n: usize, md: &Modulus) -> (r: Self)
        requires
            self.wf(*md),
            n <= self@.len(),
        ensures
            r.wf(*md),
            forall|i: int|
                0 <= i ==> #[trigger] coef(iv(r@), i) == coef(iv(self@), i + n),
    {
        let mut v: Vec<u64> = Vec::new();
        let mut i: usize = n;
        while i < self.c.len()
            invariant
                n <= i <= self@.len(),
                v@.len() == i - n,
                reduced(self@, md.modulus),
                forall|j: int| 0 <= j < i - n ==> v@[j] == self@[j + n],
            decreases self@.len() - i,
        {
            v.push(self.c[i]);
            i += 1;
        }
        Self::new(v, md)
    }

    /// Multiplication by `x^n`: prepends `n` zero coefficients; the zero
    /// polynomial is returned unchanged.
    pub fn right_shift(&self, n: usize, md: &Modulus) -> (r: Self)
        requires
            self.wf(*md),
            self@.len() + n <= usize::MAX,
        ensures
            r.wf(*md),
            r@.len() <= self@.len() + n,
            (self@.len() == 1 && self@[0] == 0) ==> r@ == seq![0u64],
            !(self@.len() == 1 && self@[0] == 0) ==> forall|i: int|
                #[trigger] coef(iv(r@), i) == (if i >= n {
                    coef(iv(self@), i - n)
                } else {
                    0
                }),
    {
        if self.is_zero() {
            return Self::zero(md);
        }
        let mut v: Vec<u64> = Vec::new();
        let mut i: usize = 0;
        while i < n
            invariant
                i <= n,
                v@.len() == i,
                md.wf(),
                reduced(v@, md.modulus),
                forall|j: int| 0 <= j < i ==> v@[j] == 0,
            decreases n - i,
        {
            v.push(0);
            i += 1;
        }
        let mut t: usize = 0;
        while t < self.c.len()
            invariant
                t <= self@.len(),
                v@.len() == n + t,
                md.wf(),
                reduced(self@, md.modulus),
                reduced(v@, md.modulus),
                forall|j: int| 0 <= j < n ==> v@[j] == 0,
                forall|j: int| 0 <= j < t ==> v@[j + n] == self@[j],
            decreases self@.len() - t,
        {
            v.push(self.c[t]);
            t += 1;
        }
        let r = Self::new(v, md);
        proof {
            lemma_trim_spec_trimmed(v@);
            assert forall|i: int| #[trigger] coef(iv(r@), i) == (if i >= n {
                coef(iv(self@), i - n)
            } else {
                0
            }) by {
                if 0 <= i < v@.len() {
                    if i >= n {
                        assert(v@[i] == self@[i - n]);
                    } else {
                        assert(v@[i] == 0);
                    }
                }
            }
        }
        r
    }

    /// Coefficient-wise (Hadamard) product, truncated to the shorter length;
    /// not polynomial multiplication.
    pub fn dot(&self, rhs: &Self, md: &Modulus) -> (r: Self)
        requires
            self.wf(*md),
            rhs.wf(*md),
        ensures
            r.wf(*md),
            forall|i: int| #[trigger] coef(iv(r@), i) == (if 0 <= i < self@.len() && i
                < rhs@.len() {
                (coef(iv(self@), i) * coef(iv(rhs@), i)) % (md.modulus as int)
            } else {
                0
            }),
    {
        let len = if self.c.len() < rhs.c.len() {
            self.c.len()
        } else {
            rhs.c.len()
        };
        let mut v: Vec<u64> = Vec::new();
        let mut i: usize = 0;
        while i < len
            invariant
                i <= len,
                len <= self@.len(),
                len <= rhs@.len(),
                v@.len() == i,
                md.wf(),
                reduced(self@, md.modulus),
                reduced(rhs@, md.modulus),
                reduced(v@, md.modulus),
                forall|j: int|
                    0 <= j < i ==> v@[j] as int == (self@[j] as int * rhs@[j] as int) % (
                    md.modulus as int),
            decreases len - i,
        {
            v.push(md.mul(self.c[i], rhs.c[i]));
            i += 1;
        }
        let r = Self::new(v, md);
        proof {
            assert forall|i: int| #[trigger] coef(iv(r@), i) == (if 0 <= i < self@.len() && i
                < rhs@.len() {
                (coef(iv(self@), i) * coef(iv(rhs@), i)) % (md.modulus as int)
            } else {
                0
            }) by {
                if 0 <= i < len {
                    assert(coef(iv(v@), i) == v@[i] as int);
                }
            }
        }
        r
    }

    /// Coefficient-wise sum, on sequences padded to the longer length.
    pub fn add(&self, rhs: &Self, md: &Modulus) -> (r: Self)
        requires
            self.wf(*md),
            rhs.wf(*md),
        ensures
            r.wf(*md),
            r@.len() <= (if self@.len() < rhs@.len() {
                rhs@.len()
            } else {
                self@.len()
            }),
            forall|i: int|
                #[trigger] coef(iv(r@), i) == (coef(iv(self@), i) + coef(iv(rhs@), i)) % (
                md.modulus as int),
    {
        let len = if self.c.len() < rhs.c.len() {
            rhs.c.len()
        } else {
            self.c.len()
        };
        let mut v: Vec<u64> = Vec::new();
        let mut i: usize = 0;
        while i < len
            invariant
                i <= len,
                self@.len() <= len,
                rhs@.len() <= len,
                len == self@.len() || len == rhs@.len(),
                v@.len() == i,
                md.wf(),
                reduced(self@, md.modulus),
                reduced(rhs@, md.modulus),
                reduced(v@, md.modulus),
                forall|j: int|
                    0 <= j < i ==> v@[j] as int == (coef(iv(self@), j) + coef(iv(rhs@), j)) % (
                    md.modulus as int),
            decreases len - i,
        {
            let x = if i < self.c.len() {
                self.c[i]
            } else {
                0
            };
            let y = if i < rhs.c.len() {
                rhs.c[i]
            } else {
                0
            };
            v.push(md.add(x, y));
            i += 1;
        }
        let r = Self::new(v, md);
        proof {
            lemma_small_mod(0, md.modulus as nat);
            lemma_trim_spec_trimmed(v@);
            assert forall|i: int|
                #[trigger] coef(iv(r@), i) == (coef(iv(self@), i) + coef(iv(rhs@), i)) % (
                md.modulus as int) by {
                if 0 <= i < len {
                    assert(coef(iv(v@), i) == v@[i] as int);
                }
            }
        }
        r
    }

    /// Coefficient-wise difference, on sequences padded to the longer length.
    pub fn sub(&self, rhs: &Self, md: &Modulus) -> (r: Self)
        requires
            self.wf(*md),
            rhs.wf(*md),
        ensures
            r.wf(*md),
            r@.len() <= (if self@.len() < rhs@.len() {
                rhs@.len()
            } else {
                self@.len()
            }),
            forall|i: int|
                #[trigger] coef(iv(r@), i) == (coef(iv(self@), i) - coef(iv(rhs@), i)) % (
                md.modulus as int),
    {
        let len = if self.c.len() < rhs.c.len() {
            rhs.c.len()
        } else {
            self.c.len()
        };
        let mut v: Vec<u64> = Vec::new();
        let mut i: usize = 0;
        while i < len
            invariant
                i <= len,
                self@.len() <= len,
                rhs@.len() <= len,
                len == self@.len() || len == rhs@.len(),
                v@.len() == i,
                md.wf(),
                reduced(self@, md.modulus),
                reduced(rhs@, md.modulus),
                reduced(v@, md.modulus),
                forall|j: int|
                    0 <= j < i ==> v@[j] as int == (coef(iv(self@), j) - coef(iv(rhs@), j)) % (
                    md.modulus as int),
            decreases len - i,
        {
            let x = if i < self.c.len() {
                self.c[i]
            } else {
                0
            };
            let y = if i < rhs.c.len() {
                rhs.c[i]
            } else {
                0
            };
            v.push(md.sub(x, y));
            i += 1;
        }
        let r = Self::new(v, md);
        proof {
            lemma_small_mod(0, md.modulus as nat);
            lemma_trim_spec_trimmed(v@);
            assert forall|i: int|
                #[trigger] coef(iv(r@), i) == (coef(iv(self@), i) - coef(iv(rhs@), i)) % (
                md.modulus as int) by {
                if 0 <= i < len {
                    assert(coef(iv(v@), i) == v@[i] as int);
                }
            }
        }
        r
    }

    /// Exact polynomial multiplication, delegated to the convolution
    /// strategy on the full coefficient sequences.
    pub fn mul(&self, rhs: &Self, md: &Modulus) -> (r: Self)
        requires
            self.wf(*md),
            rhs.wf(*md),
            self@.len() + rhs@.len() <= usize::MAX,
        ensures
            r.wf(*md),
            r@.len() <= self@.len() + rhs@.len(),
            forall|k: int|
                #[trigger] coef(iv(r@), k) == conv_at(iv(self@), iv(rhs@), k) % (
                md.modulus as int),
    {
        let prod = C::convolution(&self.c, &rhs.c, md);
        let r = Self::new(prod, md);
        proof {
            lemma_trim_spec_trimmed(prod@);
        }
        r
    }

    /// Squares the series through the strategy's self-convolution path;
    /// semantically identical to `self * self`.
    pub fn pow2(&self, md: &Modulus) -> (r: Self)
        requires
            self.wf(*md),
            self@.len() + self@.len() <= usize::MAX,
        ensures
            r.wf(*md),
            r@.len() <= self@.len() + self@.len(),
            forall|k: int|
                #[trigger] coef(iv(r@), k) == conv_at(iv(self@), iv(self@), k) % (
                md.modulus as int),
    {
        let prod = C::pow2(&self.c, md);
        let r = Self::new(prod, md);
        proof {
            lemma_trim_spec_trimmed(prod@);
        }
        r
    }
}


/// `r` is congruent to `a` modulo the polynomial `b` (over the residue ring
/// of `m`): some multiple of `b` added to `r` gives `a`, coefficient-wise.
pub open spec fn witnesses_mod_poly(q: Seq<int>, r: Seq<int>, a: Seq<int>, b: Seq<int>, m: int) -> bool {
    forall|k: int| #[trigger] ((conv_at(q, b, k) + coef(r, k)) % m) == coef(a, k) % m
}

pub open spec fn congruent_mod_poly(r: Seq<int>, a: Seq<int>, b: Seq<int>, m: int) -> bool {
    exists|q: Seq<int>| witnesses_mod_poly(q, r, a, b, m)
}

/// Reverses a coefficient vector.
fn reverse_vec(a: &Vec<u64>) -> (r: Vec<u64>)
    ensures
        r@.len() == a@.len(),
        forall|i: int| 0 <= i < a@.len() ==> r@[i] == a@[a@.len() - 1 - i],
{
    let mut r: Vec<u64> = Vec::new();
    let mut i: usize = a.len();
    while i > 0
        invariant
            i <= a@.len(),
            r@.len() == a@.len() - i,
            forall|j: int| 0 <= j < a@.len() - i ==> r@[j] == a@[a@.len() - 1 - j],
        decreases i,
    {
        i -= 1;
        r.push(a[i]);
    }
    r
}

/// The modular inverse of each element of a sequence of invertible residues.
fn inverse_batch(a: &Vec<u64>, md: &Modulus) -> (r: Vec<u64>)
    requires
        md.wf(),
        reduced(a@, md.modulus),
        forall|i: int| 0 <= i < a@.len() ==> gcd(#[trigger] a@[i] as nat, md.modulus as nat) == 1,
    ensures
        r@.len() == a@.len(),
        reduced(r@, md.modulus),
        forall|i: int|
            0 <= i < a@.len() ==> (a@[i] as int * #[trigger] r@[i] as int) % (md.modulus as int)
                == 1int % (md.modulus as int),
{
    let mut r: Vec<u64> = Vec::new();
    let mut i: usize = 0;
    while i < a.len()
        invariant
            md.wf(),
            reduced(a@, md.modulus),
            forall|j: int|
                0 <= j < a@.len() ==> gcd(#[trigger] a@[j] as nat, md.modulus as nat) == 1,
            i <= a@.len(),
            r@.len() == i,
            reduced(r@, md.modulus),
            forall|j: int|
                0 <= j < i ==> (a@[j] as int * #[trigger] r@[j] as int) % (md.modulus as int)
                    == 1int % (md.modulus as int),
        decreases a@.len() - i,
    {
        let x = md.inv(a[i]).unwrap();
        r.push(x);
        i += 1;
    }
    r
}

impl<C: Convolution> Poly<C> {
    /// Horner-style evaluation at a ring element.
    pub fn apply(&self, x: u64, md: &Modulus) -> (r: u64)
        requires
            self.wf(*md),
            x < md.modulus,
        ensures
            r as int == eval_spec(self@, x as int, md.modulus as int),
            r < md.modulus,
    {
        let m = md.modulus;
        let mut acc: u64 = 0;
        let mut i: usize = self.c.len();
        proof {
            assert(self@.subrange(i as int, self@.len() as int) =~= Seq::<u64>::empty());
        }
        while i > 0
            invariant
                md.wf(),
                m == md.modulus,
                x < m,
                i <= self@.len(),
                reduced(self@, m),
                acc < m,
                acc as int == eval_spec(
                    self@.subrange(i as int, self@.len() as int),
                    x as int,
                    m as int,
                ),
            decreases i,
        {
            i -= 1;
            let ghost tail = self@.subrange(i + 1, self@.len() as int);
            let t = md.mul(x, acc);
            let r2 = md.add(self.c[i], t);
            proof {
                let s2 = self@.subrange(i as int, self@.len() as int);
                assert(s2.subrange(1, s2.len() as int) =~= tail);
                assert(s2[0] == self@[i as int]);
                lemma_add_mod_noop_right(self@[i as int] as int, x * acc, m as int);
            }
            acc = r2;
        }
        proof {
            assert(self@.subrange(0, self@.len() as int) =~= self@);
        }
        acc
    }

    /// The formal derivative: coefficient `i` of the result is
    /// `(i+1) * coeff[i+1]`; one coefficient shorter than the input.
    pub fn differential(&self, md: &Modulus) -> (r: Self)
        requires
            self.wf(*md),
        ensures
            r.wf(*md),
            forall|j: int|
                #[trigger] coef(iv(r@), j) == coef(deriv_seq(iv(self@), md.modulus as int), j),
    {
        let m = md.modulus;
        let mut v: Vec<u64> = Vec::new();
        let mut i: usize = 1;
        while i < self.c.len()
            invariant
                md.wf(),
                m == md.modulus,
                1 <= i,
                i <= self@.len() || i == 1,
                v@.len() == i - 1,
                reduced(self@, m),
                reduced(v@, m),
                forall|j: int|
                    0 <= j < i - 1 ==> v@[j] as int == (self@[j + 1] as int * ((j + 1) % (
                    m as int))) % (m as int),
            decreases self@.len() - i,
        {
            let f = (i as u64) % m;
            proof {
                assert(f as int == (i as int) % (m as int));
            }
            v.push(md.mul(self.c[i], f));
            i += 1;
        }
        let r = Self::new(v, md);
        proof {
            lemma_small_mod(0, m as nat);
            assert forall|j: int|
                #[trigger] coef(iv(r@), j) == coef(deriv_seq(iv(self@), m as int), j) by {
                let d = deriv_seq(iv(self@), m as int);
                if 0 <= j < self@.len() - 1 {
                    assert(coef(iv(v@), j) == v@[j] as int);
                    assert(coef(iv(self@), j + 1) == self@[j + 1] as int);
                    assert(d[j] == (self@[j + 1] as int * ((j + 1) % (m as int))) % (m as int));
                } else {
                    assert(coef(iv(v@), j) == 0);
                    assert(coef(d, j) == 0);
                }
            }
        }
        r
    }

    /// The formal integral: coefficient `i+1` of the result times `i+1` gives
    /// back coefficient `i` of the input; the constant term is zero. The
    /// needed divisions go through one batched-inverse pass.
    pub fn integral(&self, md: &Modulus) -> (r: Self)
        requires
            self.wf(*md),
            self@.len() + 1 <= usize::MAX,
            forall|i: int|
                1 <= i <= self@.len() ==> gcd(
                    (#[trigger] (i % (md.modulus as int))) as nat,
                    md.modulus as nat,
                ) == 1,
        ensures
            r.wf(*md),
            coef(iv(r@), 0) == 0,
            forall|i: int|
                0 <= i ==> #[trigger] ((coef(iv(r@), i + 1) * ((i + 1) % (md.modulus as int))) % (
                md.modulus as int)) == coef(iv(self@), i) % (md.modulus as int),
    {
        let m = md.modulus;
        let len = self.c.len();
        let mut rng: Vec<u64> = Vec::new();
        let mut i: usize = 0;
        while i < len
            invariant
                md.wf(),
                m == md.modulus,
                i <= len,
                rng@.len() == i,
                forall|j: int| 0 <= j < i ==> #[trigger] rng@[j] as int == (j + 1) % (m as int),
            decreases len - i,
        {
            let f = ((i as u64) + 1) % m;
            rng.push(f);
            i += 1;
        }
        proof {
            assert forall|j: int|
                0 <= j < len implies gcd(#[trigger] rng@[j] as nat, m as nat) == 1 by {
                assert(rng@[j] as int == (j + 1) % (m as int));
            }
            assert forall|j: int| 0 <= j < len implies rng@[j] < m by {
                lemma_mod_bound(j + 1, m as int);
            }
        }
        let inv = inverse_batch(&rng, md);
        let mut v: Vec<u64> = Vec::new();
        v.push(0);
        let mut t: usize = 0;
        while t < len
            invariant
                md.wf(),
                m == md.modulus,
                t <= len,
                len == self@.len(),
                v@.len() == t + 1,
                v@[0] == 0,
                inv@.len() == len,
                reduced(self@, m),
                reduced(inv@, m),
                reduced(v@, m),
                forall|j: int|
                    0 <= j < len ==> (#[trigger] rng@[j] as int * inv@[j] as int) % (m as int)
                        == 1int % (m as int),
                forall|j: int| 0 <= j < len ==> #[trigger] rng@[j] as int == (j + 1) % (m as int),
                forall|j: int|
                    0 <= j < t ==> #[trigger] v@[j + 1] as int == (inv@[j] as int * self@[j] as int)
                        % (m as int),
            decreases len - t,
        {
            v.push(md.mul(inv[t], self.c[t]));
            t += 1;
        }
        let r = Self::new(v, md);
        proof {
            lemma_small_mod(0, m as nat);
            assert forall|i2: int|
                0 <= i2 implies #[trigger] ((coef(iv(r@), i2 + 1) * ((i2 + 1) % (m as int))) % (
            m as int)) == coef(iv(self@), i2) % (m as int) by {
                if i2 < len {
                    assert(coef(iv(v@), i2 + 1) == v@[i2 + 1] as int);
                    let p = self@[i2] as int;
                    let x = inv@[i2] as int;
                    let b = (i2 + 1) % (m as int);
                    assert((rng@[i2] as int * x) % (m as int) == 1int % (m as int));
                    assert(rng@[i2] as int == b);
                    crate::modnum::lemma_cancel_inverse(p, b, x, m as int);
                    assert(x * p == p * x) by (nonlinear_arith);
                    assert(v@[i2 + 1] as int == (p * x) % (m as int));
                    lemma_small_mod(self@[i2] as nat, m as nat);
                } else {
                    assert(coef(iv(r@), i2 + 1) == 0);
                    assert(coef(iv(self@), i2) == 0);
                    assert(0 * ((i2 + 1) % (m as int)) == 0) by (nonlinear_arith);
                }
            }
            assert(coef(iv(v@), 0) == 0);
        }
        r
    }
}


impl<C: PolyInverse> Poly<C> {
    /// The truncated multiplicative inverse `r` with
    /// `self * r = 1 (mod x^n)`; precision `0` yields the zero polynomial by
    /// convention. The constant term must be invertible.
    pub fn inverse(&self, n: usize, md: &Modulus) -> (r: Self)
        requires
            self.wf(*md),
            gcd(self@[0] as nat, md.modulus as nat) == 1,
            n <= usize::MAX / 2,
        ensures
            r.wf(*md),
            n == 0 ==> r@ == seq![0u64],
            r@.len() <= (if n == 0 {
                1int
            } else {
                n as int
            }),
            forall|k: int|
                0 <= k < n ==> #[trigger] (conv_at(iv(self@), iv(r@), k) % (md.modulus as int))
                    == delta(k) % (md.modulus as int),
    {
        if n == 0 {
            Self::zero(md)
        } else {
            let q = C::inverse(&self.c, n, md);
            let r = Self::new(q, md);
            proof {
                let m = md.modulus as int;
                assert forall|k: int|
                    0 <= k < n implies #[trigger] (conv_at(iv(self@), iv(r@), k) % m) == delta(k)
                    % m by {
                    assert forall|i: int| 0 <= i <= k implies coef(iv(r@), i) % m == coef(
                        iv(q@),
                        i,
                    ) % m by {}
                    lemma_conv_congruent(iv(self@), iv(self@), iv(r@), iv(q@), m, k);
                }
                lemma_trim_spec_trimmed(q@);
            }
            r
        }
    }

    /// Fast division by `rhs`, given a precomputed truncated inverse of the
    /// coefficient-reversed divisor (valid to at least the quotient length).
    /// A numerator of lower degree yields the zero polynomial.
    pub fn fast_div(&self, rhs: &Self, rhs_inv: &Self, md: &Modulus) -> (r: Self)
        requires
            self.wf(*md),
            rhs.wf(*md),
            rhs_inv.wf(*md),
            self@.len() + rhs_inv@.len() <= usize::MAX,
            forall|k: int|
                0 <= k < self@.len() - rhs@.len() + 1 ==> #[trigger] (conv_at(
                    rev_seq(iv(rhs@)),
                    iv(rhs_inv@),
                    k,
                ) % (md.modulus as int)) == delta(k) % (md.modulus as int),
        ensures
            r.wf(*md),
            self@.len() < rhs@.len() ==> r@ == seq![0u64],
            r@.len() <= (if self@.len() >= rhs@.len() {
                self@.len() - rhs@.len() + 1
            } else {
                1int
            }),
            forall|k: int|
                rhs@.len() - 1 <= k ==> #[trigger] (conv_at(iv(r@), iv(rhs@), k) % (
                md.modulus as int)) == coef(iv(self@), k) % (md.modulus as int),
    {
        let ghost m = md.modulus as int;
        if self.c.len() < rhs.c.len() {
            let r = Self::zero(md);
            proof {
                lemma_small_mod(0, md.modulus as nat);
                assert forall|k: int|
                    rhs@.len() - 1 <= k implies #[trigger] (conv_at(iv(r@), iv(rhs@), k) % m)
                    == coef(iv(self@), k) % m by {
                    assert forall|i: int| 0 <= i <= k implies coef(iv(r@), i) == 0 by {}
                    lemma_conv_zero_left(iv(r@), iv(rhs@), k);
                    assert(coef(iv(self@), k) == 0);
                }
            }
            return r;
        }
        let la = self.c.len();
        let lb = rhs.c.len();
        let c_rank = la - lb;
        let ra = reverse_vec(&self.c);
        proof {
            assert forall|j: int| 0 <= j < la implies ra@[j] < md.modulus by {
                assert(ra@[j] == self@[la - 1 - j]);
            }
        }
        proof {
            assert(rhs_inv@.len() >= 1);
        }
        let prod = C::convolution(&ra, &rhs_inv.c, md);
        let mut qr: Vec<u64> = Vec::new();
        let mut j: usize = 0;
        while j < c_rank + 1
            invariant
                c_rank < usize::MAX,
                j <= c_rank + 1,
                c_rank + 1 <= prod@.len(),
                qr@.len() == j,
                reduced(prod@, md.modulus),
                forall|i: int| 0 <= i < j ==> qr@[i] == prod@[i],
            decreases c_rank + 1 - j,
        {
            qr.push(prod[j]);
            j += 1;
        }
        let qv = reverse_vec(&qr);
        proof {
            assert forall|i: int| 0 <= i < qv@.len() implies qv@[i] < md.modulus by {
                assert(qv@[i] == qr@[c_rank - i]);
            }
        }
        let r = Self::new(qv, md);
        proof {
            let av = iv(self@);
            let bv = iv(rhs@);
            let rav = iv(ra@);
            let invv = iv(rhs_inv@);
            let qrv = iv(qr@);
            assert(rav =~= rev_seq(av));
            assert(iv(qv@) =~= rev_seq(qrv));
            lemma_trim_spec_trimmed(qv@);
            assert(r@.len() <= c_rank + 1);
            assert forall|k: int|
                rhs@.len() - 1 <= k implies #[trigger] (conv_at(iv(r@), bv, k) % m) == coef(av, k)
                % m by {
                if k > la - 1 {
                    // Beyond the numerator's degree both sides vanish.
                    lemma_conv_at_vanish(iv(r@), bv, k);
                    lemma_small_mod(0, md.modulus as nat);
                    assert(coef(av, k) == 0);
                } else {
                    let t = la - 1 - k;
                    // The trimmed quotient and the reversed window agree.
                    assert forall|i: int| 0 <= i <= k implies coef(iv(r@), i) % m == coef(
                        rev_seq(qrv),
                        i,
                    ) % m by {}
                    lemma_conv_congruent(iv(r@), rev_seq(qrv), bv, bv, m, k);
                    // Reverse both factors: the window becomes a low coefficient.
                    lemma_conv_rev(rev_seq(qrv), bv, t);
                    assert(rev_seq(rev_seq(qrv)) =~= qrv);
                    assert((rev_seq(qrv).len() - 1) + (bv.len() - 1) - t == k);
                    // The window coefficients are those of rev(a) * inv.
                    let ri = conv_seq(rav, invv);
                    assert forall|i: int| 0 <= i <= t implies coef(qrv, i) % m == coef(ri, i)
                        % m by {
                        assert(coef(iv(qr@), i) == qr@[i] as int);
                        assert(qr@[i] == prod@[i]);
                        assert(coef(iv(prod@), i) == prod@[i] as int);
                        assert(coef(iv(prod@), i) == conv_at(rav, invv, i) % m);
                        lemma_mod_twice(conv_at(rav, invv, i), m);
                        lemma_conv_seq_coef(rav, invv, i);
                    }
                    lemma_conv_congruent(qrv, ri, rev_seq(bv), rev_seq(bv), m, t);
                    // Associate: (rev(a) * inv) * rev(b) = rev(a) * (inv * rev(b)).
                    lemma_conv_assoc(rav, invv, rev_seq(bv), t);
                    // inv * rev(b) is 1 modulo x^(quotient length).
                    let ib = conv_seq(invv, rev_seq(bv));
                    assert forall|i: int| 0 <= i <= t implies coef(ib, i) % m == coef(
                        unit_seq(),
                        i,
                    ) % m by {
                        lemma_conv_seq_coef(invv, rev_seq(bv), i);
                        lemma_conv_comm(invv, rev_seq(bv), i);
                        assert(conv_at(rev_seq(bv), invv, i) % m == delta(i) % m);
                        assert(coef(unit_seq(), i) == delta(i));
                    }
                    lemma_conv_congruent(rav, rav, ib, unit_seq(), m, t);
                    lemma_conv_unit_right(rav, t);
                    assert(coef(rav, t) == self@[k] as int);
                    lemma_small_mod(self@[k] as nat, md.modulus as nat);
                    assert(coef(av, k) == self@[k] as int);
                }
            }
        }
        r
    }

    /// Division of polynomials over the residue ring, by the
    /// reversed-polynomial inverse-truncation method. The quotient matches
    /// every coefficient of the dividend from degree `deg(rhs)` upward.
    pub fn div(&self, rhs: &Self, md: &Modulus) -> (r: Self)
        requires
            self.wf(*md),
            rhs.wf(*md),
            gcd(rhs@[rhs@.len() - 1] as nat, md.modulus as nat) == 1,
            self@.len() < usize::MAX / 2,
        ensures
            r.wf(*md),
            self@.len() < rhs@.len() ==> r@ == seq![0u64],
            r@.len() <= (if self@.len() >= rhs@.len() {
                self@.len() - rhs@.len() + 1
            } else {
                1int
            }),
            forall|k: int|
                rhs@.len() - 1 <= k ==> #[trigger] (conv_at(iv(r@), iv(rhs@), k) % (
                md.modulus as int)) == coef(iv(self@), k) % (md.modulus as int),
    {
        if self.c.len() < rhs.c.len() {
            let r = Self::zero(md);
            proof {
                let m = md.modulus as int;
                lemma_small_mod(0, md.modulus as nat);
                assert forall|k: int|
                    rhs@.len() - 1 <= k implies #[trigger] (conv_at(iv(r@), iv(rhs@), k) % m)
                    == coef(iv(self@), k) % m by {
                    assert forall|i: int| 0 <= i <= k implies coef(iv(r@), i) == 0 by {}
                    lemma_conv_zero_left(iv(r@), iv(rhs@), k);
                    assert(coef(iv(self@), k) == 0);
                }
            }
            return r;
        }
        let c_rank = self.c.len() - rhs.c.len();
        let rb = reverse_vec(&rhs.c);
        proof {
            assert forall|j: int| 0 <= j < rb@.len() implies rb@[j] < md.modulus by {
                assert(rb@[j] == rhs@[rhs@.len() - 1 - j]);
            }
            assert(rb@[0] == rhs@[rhs@.len() - 1]);
        }
        let inv = C::inverse(&rb, c_rank + 1, md);
        let invp = Self::new(inv, md);
        proof {
            let m = md.modulus as int;
            lemma_trim_spec_trimmed(inv@);
            assert(invp@.len() <= c_rank + 1);
            assert(iv(rb@) =~= rev_seq(iv(rhs@)));
            assert forall|k: int|
                0 <= k < self@.len() - rhs@.len() + 1 implies #[trigger] (conv_at(
                rev_seq(iv(rhs@)),
                iv(invp@),
                k,
            ) % m) == delta(k) % m by {
                assert forall|i: int| 0 <= i <= k implies coef(iv(invp@), i) % m == coef(
                    iv(inv@),
                    i,
                ) % m by {}
                lemma_conv_congruent(iv(rb@), iv(rb@), iv(invp@), iv(inv@), m, k);
            }
        }
        self.fast_div(rhs, &invp, md)
    }
}


impl<C: PolyInverse> Poly<C> {
    /// The remainder `self - q*rhs` for a quotient `q` that already matches
    /// every coefficient of `self` from degree `deg(rhs)` upward; its rank is
    /// strictly below the divisor's.
    fn remainder_given(&self, rhs: &Self, q: &Self, md: &Modulus) -> (r: Self)
        requires
            self.wf(*md),
            rhs.wf(*md),
            q.wf(*md),
            q@.len() + rhs@.len() <= usize::MAX,
            forall|k: int|
                rhs@.len() - 1 <= k ==> #[trigger] (conv_at(iv(q@), iv(rhs@), k) % (
                md.modulus as int)) == coef(iv(self@), k) % (md.modulus as int),
        ensures
            r.wf(*md),
            witnesses_mod_poly(iv(q@), iv(r@), iv(self@), iv(rhs@), md.modulus as int),
            congruent_mod_poly(iv(r@), iv(self@), iv(rhs@), md.modulus as int),
            r@.len() <= (if rhs@.len() > 1 {
                rhs@.len() - 1
            } else {
                1int
            }),
            rhs@.len() == 1 ==> r@ == seq![0u64],
            forall|k: int| rhs@.len() - 1 <= k ==> #[trigger] coef(iv(r@), k) == 0,
    {
        let ghost m = md.modulus as int;
        let prod = q.mul(rhs, md);
        let r = self.sub(&prod, md);
        proof {
            lemma_small_mod(0, md.modulus as nat);
            // Each remainder coefficient is self minus the product, mod m.
            assert forall|k: int| #[trigger] coef(iv(r@), k) == (coef(iv(self@), k) - conv_at(
                iv(q@),
                iv(rhs@),
                k,
            )) % m by {
                assert(coef(iv(r@), k) == (coef(iv(self@), k) - coef(iv(prod@), k)) % m);
                assert(coef(iv(prod@), k) == conv_at(iv(q@), iv(rhs@), k) % m);
                lemma_sub_mod_noop_right(coef(iv(self@), k), conv_at(iv(q@), iv(rhs@), k), m);
            }
            // High coefficients vanish outright.
            assert forall|k: int| rhs@.len() - 1 <= k implies #[trigger] coef(iv(r@), k) == 0 by {
                let x = coef(iv(self@), k);
                let y = conv_at(iv(q@), iv(rhs@), k);
                assert(x % m == coef(iv(self@), k) % m);
                lemma_sub_mod_noop(x, y, m);
                assert((x - y) % m == (x % m - y % m) % m);
                assert((x % m - y % m) == 0) by {
                    if 0 <= k < self@.len() {
                        lemma_small_mod(self@[k] as nat, md.modulus as nat);
                    }
                }
                if 0 <= k < r@.len() {
                    assert(coef(iv(r@), k) == r@[k] as int);
                }
            }
            // Hence the trimmed remainder is shorter than the divisor.
            if rhs@.len() > 1 {
                if r@.len() > rhs@.len() - 1 {
                    assert(coef(iv(r@), r@.len() - 1) == r@[r@.len() - 1] as int);
                    assert(r@[r@.len() - 1] != 0);
                    assert(false);
                }
            } else {
                if r@.len() > 1 {
                    assert(coef(iv(r@), r@.len() - 1) == r@[r@.len() - 1] as int);
                    assert(false);
                }
                assert(coef(iv(r@), 0) == 0);
                assert(r@[0] == 0);
                assert(r@ =~= seq![0u64]);
            }
            // The quotient witnesses the congruence r = self (mod rhs).
            assert forall|k: int| #[trigger] ((conv_at(iv(q@), iv(rhs@), k) + coef(iv(r@), k)) % m)
                == coef(iv(self@), k) % m by {
                let cv = conv_at(iv(q@), iv(rhs@), k);
                let x = coef(iv(self@), k);
                lemma_add_mod_noop_right(cv, x - cv, m);
                assert((cv + (x - cv) % m) % m == (cv + (x - cv)) % m);
                assert(cv + (x - cv) == x);
            }
            assert(congruent_mod_poly(iv(r@), iv(self@), iv(rhs@), m)) by {
                assert(witnesses_mod_poly(iv(q@), iv(r@), iv(self@), iv(rhs@), m));
            }
        }
        r
    }

    /// Fast remainder against a fixed divisor with a precomputed inverse of
    /// its reversed form: `self - rhs * (self / rhs)`, of rank strictly below
    /// the divisor's.
    pub fn fast_rem(&self, rhs: &Self, rhs_inv: &Self, md: &Modulus) -> (r: Self)
        requires
            self.wf(*md),
            rhs.wf(*md),
            rhs_inv.wf(*md),
            self@.len() + rhs_inv@.len() <= usize::MAX,
            self@.len() + rhs@.len() <= usize::MAX,
            forall|k: int|
                0 <= k < self@.len() - rhs@.len() + 1 ==> #[trigger] (conv_at(
                    rev_seq(iv(rhs@)),
                    iv(rhs_inv@),
                    k,
                ) % (md.modulus as int)) == delta(k) % (md.modulus as int),
        ensures
            r.wf(*md),
            congruent_mod_poly(iv(r@), iv(self@), iv(rhs@), md.modulus as int),
            r@.len() <= (if rhs@.len() > 1 {
                rhs@.len() - 1
            } else {
                1int
            }),
            rhs@.len() == 1 ==> r@ == seq![0u64],
    {
        let q = self.fast_div(rhs, rhs_inv, md);
        self.remainder_given(rhs, &q, md)
    }

    /// Schoolbook definition with a fast quotient: the quotient and the
    /// remainder, with `q*rhs + r == self` coefficient-wise and
    /// `rank(r) < rank(rhs)`.
    pub fn divider_and_remainder(&self, rhs: &Self, md: &Modulus) -> (qr: (Self, Self))
        requires
            self.wf(*md),
            rhs.wf(*md),
            gcd(rhs@[rhs@.len() - 1] as nat, md.modulus as nat) == 1,
            self@.len() < usize::MAX / 2,
            rhs@.len() < usize::MAX / 2,
        ensures
            qr.0.wf(*md),
            qr.1.wf(*md),
            self@.len() < rhs@.len() ==> qr.0@ == seq![0u64],
            qr.0@.len() <= (if self@.len() >= rhs@.len() {
                self@.len() - rhs@.len() + 1
            } else {
                1int
            }),
            forall|k: int|
                #[trigger] ((conv_at(iv(qr.0@), iv(rhs@), k) + coef(iv(qr.1@), k)) % (
                md.modulus as int)) == coef(iv(self@), k) % (md.modulus as int),
            qr.1@.len() <= (if rhs@.len() > 1 {
                rhs@.len() - 1
            } else {
                1int
            }),
            rhs@.len() == 1 ==> qr.1@ == seq![0u64],
    {
        let q = self.div(rhs, md);
        let r = self.remainder_given(rhs, &q, md);
        (q, r)
    }

    /// The remainder of division by `rhs`.
    pub fn rem(&self, rhs: &Self, md: &Modulus) -> (r: Self)
        requires
            self.wf(*md),
            rhs.wf(*md),
            gcd(rhs@[rhs@.len() - 1] as nat, md.modulus as nat) == 1,
            self@.len() < usize::MAX / 2,
            rhs@.len() < usize::MAX / 2,
        ensures
            r.wf(*md),
            congruent_mod_poly(iv(r@), iv(self@), iv(rhs@), md.modulus as int),
            r@.len() <= (if rhs@.len() > 1 {
                rhs@.len() - 1
            } else {
                1int
            }),
            rhs@.len() == 1 ==> r@ == seq![0u64],
    {
        let q = self.div(rhs, md);
        self.remainder_given(rhs, &q, md)
    }
}


impl<C: PolyInverse> Poly<C> {
    /// The formal logarithm to precision `n`:
    /// `integral(differential(self) * inverse(self, n))`, truncated mod
    /// `x^n`. The constant term must be the multiplicative identity. The
    /// result satisfies the defining identity of the logarithm:
    /// `self * r' = self'` mod `x^(n-1)`, with `r` having zero constant term.
    pub fn ln(&self, n: usize, md: &Modulus) -> (r: Self)
        requires
            self.wf(*md),
            self@[0] == md.one,
            n <= usize::MAX / 4,
            forall|i: int|
                1 <= i <= n ==> gcd(
                    (#[trigger] (i % (md.modulus as int))) as nat,
                    md.modulus as nat,
                ) == 1,
        ensures
            r.wf(*md),
            coef(iv(r@), 0) == 0,
            r@.len() <= (if n == 0 {
                1int
            } else {
                n as int
            }),
            forall|k: int|
                0 <= k < n - 1 ==> #[trigger] (conv_at(
                    iv(self@),
                    deriv_seq(iv(r@), md.modulus as int),
                    k,
                ) % (md.modulus as int)) == coef(deriv_seq(iv(self@), md.modulus as int), k) % (
                md.modulus as int),
    {
        let ghost m = md.modulus as int;
        proof {
            crate::modnum::lemma_gcd_one_mod(md.modulus as nat);
            assert(self@[0] as nat == 1nat % (md.modulus as nat));
        }
        let diff = self.differential(md);
        let diffm = diff.modular(n, md);
        let invq = self.inverse(n, md);
        let prod = diffm.mul(&invq, md).modular(n, md);
        proof {
            assert forall|i: int|
                1 <= i <= prod@.len() implies gcd(
                (#[trigger] (i % m)) as nat,
                md.modulus as nat,
            ) == 1 by {
                if i > n {
                    assert(prod@.len() <= 1);
                    assert(i == 1);
                    crate::modnum::lemma_gcd_one_mod(md.modulus as nat);
                    if md.modulus == 1 {
                        assert((1int % m) as nat == 1nat % (md.modulus as nat));
                    } else {
                        lemma_small_mod(1, md.modulus as nat);
                        assert((1int % m) as nat == 1nat % (md.modulus as nat));
                    }
                }
            }
        }
        let ans = prod.integral(md);
        let r = ans.modular(n, md);
        proof {
            lemma_small_mod(0, md.modulus as nat);
            if n > 0 {
                assert(coef(iv(r@), 0) == coef(iv(ans@), 0));
            }
            let fv = iv(self@);
            let dr = deriv_seq(iv(r@), m);
            let dmv = iv(diffm@);
            let qv = iv(invq@);
            let pv = iv(prod@);
            assert forall|k: int|
                0 <= k < n - 1 implies #[trigger] (conv_at(fv, dr, k) % m) == coef(
                deriv_seq(fv, m),
                k,
            ) % m by {
                // The derivative of the truncated integral recovers prod.
                assert forall|j: int| 0 <= j <= k implies coef(dr, j) % m == coef(pv, j) % m by {
                    let w = (j + 1) % m;
                    assert(coef(dr, j) == (coef(iv(r@), j + 1) * w) % m) by {
                        if 0 <= j < dr.len() {
                        } else {
                            assert(coef(iv(r@), j + 1) == 0) by {
                                if 0 <= j + 1 < r@.len() {
                                    assert(r@.len() <= n);
                                    assert(dr.len() == r@.len() - 1);
                                    assert(false);
                                }
                            }
                            assert(0 * w == 0) by (nonlinear_arith);
                            assert(coef(dr, j) == 0);
                        }
                    }
                    assert(coef(iv(r@), j + 1) == coef(iv(ans@), j + 1));
                    assert((coef(iv(ans@), j + 1) * ((j + 1) % m)) % m == coef(iv(prod@), j) % m);
                    lemma_mod_twice(coef(pv, j), m);
                }
                lemma_conv_congruent(fv, fv, dr, pv, m, k);
                // prod holds the coefficients of diffm * invq below n.
                let dq = conv_seq(dmv, qv);
                assert forall|j: int| 0 <= j <= k implies coef(pv, j) % m == coef(dq, j) % m by {
                    assert(coef(pv, j) == conv_at(dmv, qv, j) % m);
                    lemma_mod_twice(conv_at(dmv, qv, j), m);
                    lemma_conv_seq_coef(dmv, qv, j);
                }
                lemma_conv_congruent(fv, fv, pv, dq, m, k);
                // f * (diffm * q) = diffm * (f * q).
                lemma_conv_assoc(fv, dmv, qv, k);
                assert(conv_seq(fv, dmv) =~= conv_seq(dmv, fv)) by {
                    assert forall|i: int|
                        0 <= i < fv.len() + dmv.len() implies conv_seq(fv, dmv)[i] == conv_seq(
                        dmv,
                        fv,
                    )[i] by {
                        lemma_conv_comm(fv, dmv, i);
                    }
                }
                lemma_conv_assoc(dmv, fv, qv, k);
                // f * q is 1 mod x^n, so the product collapses to diffm.
                let fq = conv_seq(fv, qv);
                assert forall|i: int| 0 <= i <= k implies coef(fq, i) % m == coef(unit_seq(), i)
                    % m by {
                    lemma_conv_seq_coef(fv, qv, i);
                    assert(conv_at(fv, qv, i) % m == delta(i) % m);
                    assert(coef(unit_seq(), i) == delta(i));
                }
                lemma_conv_congruent(dmv, dmv, fq, unit_seq(), m, k);
                lemma_conv_unit_right(dmv, k);
                // And diffm agrees with the derivative of f below n.
                assert(coef(dmv, k) == coef(iv(diff@), k));
                assert(coef(iv(diff@), k) == coef(deriv_seq(fv, m), k));
                lemma_mod_twice(coef(deriv_seq(fv, m), k), m);
                assert(coef(dmv, k) % m == coef(deriv_seq(fv, m), k) % m);
            }
        }
        r
    }

    /// The formal exponential to precision `n`, by composed Newton iteration
    /// doubling the precision; `n = 0` yields the zero polynomial by
    /// convention, and the result has constant term 1.
    pub fn exp(&self, n: usize, md: &Modulus) -> (r: Self)
        requires
            self.wf(*md),
            coef(iv(self@), 0) == 0,
            n <= usize::MAX / 4,
            forall|i: int|
                1 <= i <= n ==> gcd(
                    (#[trigger] (i % (md.modulus as int))) as nat,
                    md.modulus as nat,
                ) == 1,
        ensures
            r.wf(*md),
            n == 0 ==> r@ == seq![0u64],
            r@.len() <= (if n == 0 {
                1int
            } else {
                n as int
            }),
            n >= 1 ==> coef(iv(r@), 0) == 1int % (md.modulus as int),
            forall|k: int|
                0 <= k < n - 1 ==> #[trigger] (((k + 1) * coef(iv(r@), k + 1)) % (
                md.modulus as int)) == conv_at(deriv_int(iv(self@)), iv(r@), k) % (
                md.modulus as int),
    {
        if n == 0 {
            Self::zero(md)
        } else {
            let f = self.modular(n, md);
            let r = f.exp0(n, md);
            proof {
                let m = md.modulus as int;
                assert forall|k: int|
                    0 <= k < n - 1 implies #[trigger] (((k + 1) * coef(iv(r@), k + 1)) % m)
                    == conv_at(deriv_int(iv(self@)), iv(r@), k) % m by {
                    assert forall|j: int| 0 <= j <= k implies coef(deriv_int(iv(f@)), j) == coef(
                        deriv_int(iv(self@)),
                        j,
                    ) by {
                        lemma_deriv_int_coef(iv(f@), j);
                        lemma_deriv_int_coef(iv(self@), j);
                        assert(coef(iv(f@), j + 1) == coef(iv(self@), j + 1));
                    }
                    crate::convolve::lemma_conv_eq(
                        deriv_int(iv(f@)),
                        deriv_int(iv(self@)),
                        iv(r@),
                        iv(r@),
                        k,
                    );
                }
            }
            r
        }
    }

    /// The recursive core of `exp`: doubles the precision at each level.
    fn exp0(&self, n: usize, md: &Modulus) -> (r: Self)
        requires
            self.wf(*md),
            coef(iv(self@), 0) == 0,
            1 <= n,
            n <= usize::MAX / 4,
            forall|i: int|
                1 <= i <= n ==> gcd(
                    (#[trigger] (i % (md.modulus as int))) as nat,
                    md.modulus as nat,
                ) == 1,
        ensures
            r.wf(*md),
            r@.len() <= n,
            coef(iv(r@), 0) == 1int % (md.modulus as int),
            forall|k: int|
                0 <= k < n - 1 ==> #[trigger] (((k + 1) * coef(iv(r@), k + 1)) % (
                md.modulus as int)) == conv_at(deriv_int(iv(self@)), iv(r@), k) % (
                md.modulus as int),
        decreases n,
    {
        let ghost m = md.modulus as int;
        if n == 1 {
            Self::one(md)
        } else {
            let half = (n + 1) / 2;
            proof {
                assert forall|i: int|
                    1 <= i <= half implies gcd(
                    (#[trigger] (i % m)) as nat,
                    md.modulus as nat,
                ) == 1 by {}
            }
            let ans = self.exp0(half, md);
            proof {
                assert(ans@[0] as int == coef(iv(ans@), 0));
                assert(ans@[0] == md.one);
            }
            let lnv = ans.ln(n, md);
            let fm = self.modular(n, md);
            let t = fm.sub(&lnv, md);
            let onep = Self::one(md);
            let corr = t.add(&onep, md);
            let res = ans.mul(&corr, md);
            let r = res.modular(n, md);
            proof {
                lemma_small_mod(0, md.modulus as nat);
                // The correction has constant term 1.
                assert(coef(iv(fm@), 0) == 0);
                assert(coef(iv(t@), 0) == (0 - 0) % m);
                assert(coef(iv(corr@), 0) == (0int + (1int % m)) % m);
                lemma_mod_twice(1int, m);
                assert(coef(iv(corr@), 0) == 1int % m);
                // So the product keeps constant term 1.
                lemma_conv_at_zero(iv(ans@), iv(corr@));
                assert(conv_at(iv(ans@), iv(corr@), 0) == (1int % m) * (1int % m));
                lemma_mul_mod_noop(1int, 1int, m);
                assert(coef(iv(res@), 0) == ((1int % m) * (1int % m)) % m);
                assert(coef(iv(r@), 0) == coef(iv(res@), 0));
                // The corrected product solves the exponential equation.
                let fv = iv(self@);
                let gv = iv(ans@);
                let lv = iv(lnv@);
                let cv = iv(corr@);
                let resv = iv(res@);
                lemma_mod_twice(1int, m);
                assert(coef(gv, 0) % m == 1int % m) by {
                    assert(coef(gv, 0) == 1int % m);
                }
                assert forall|j: int|
                    0 <= j < n implies #[trigger] (coef(cv, j) % m) == (delta(j) + coef(fv, j)
                    - coef(lv, j)) % m by {
                    assert(coef(iv(t@), j) == (coef(iv(fm@), j) - coef(lv, j)) % m);
                    assert(coef(iv(fm@), j) == coef(fv, j));
                    assert(coef(cv, j) == (coef(iv(t@), j) + coef(iv(onep@), j)) % m);
                    if j == 0 {
                        assert(coef(iv(onep@), 0) == 1int % m);
                        lemma_add_mod_noop(coef(fv, 0) - coef(lv, 0), 1int, m);
                        lemma_mod_twice((coef(fv, 0) - coef(lv, 0) + 1) % m, m);
                        lemma_mod_twice(coef(fv, 0) - coef(lv, 0) + 1, m);
                        assert(delta(0) + coef(fv, 0) - coef(lv, 0) == coef(fv, 0) - coef(lv, 0)
                            + 1);
                    } else {
                        assert(coef(iv(onep@), j) == 0);
                        lemma_mod_twice(coef(fv, j) - coef(lv, j), m);
                        lemma_mod_twice((coef(fv, j) - coef(lv, j)) % m, m);
                        assert(delta(j) == 0);
                    }
                }
                assert forall|j: int| #[trigger] (coef(resv, j) % m) == conv_at(gv, cv, j)
                    % m by {
                    lemma_mod_twice(conv_at(gv, cv, j), m);
                }
                lemma_exp_step(fv, gv, lv, cv, resv, m, half as int, n as int);
                assert forall|k: int|
                    0 <= k < n - 1 implies #[trigger] (((k + 1) * coef(iv(r@), k + 1)) % m)
                    == conv_at(deriv_int(fv), iv(r@), k) % m by {
                    assert(coef(iv(r@), k + 1) == coef(resv, k + 1));
                    assert forall|j: int| 0 <= j <= k implies coef(iv(r@), j) == coef(
                        resv,
                        j,
                    ) by {}
                    crate::convolve::lemma_conv_eq(deriv_int(fv), deriv_int(fv), iv(r@), resv, k);
                }
            }
            r
        }
    }
}


/// The exponent that a bit sequence prefix stands for, most-significant bit
/// first: each later bit doubles the value and adds itself.
pub open spec fn bits_exp(bits: Seq<u64>, k: int) -> nat
    decreases k,
{
    if k <= 0 {
        0
    } else {
        2 * bits_exp(bits, k - 1) + (if bits[k - 1] == 1 {
            1nat
        } else {
            0nat
        })
    }
}

impl<C: PolyInverse> Poly<C> {
    /// Bit-driven modular exponentiation: `x^e mod self`, where `e` is the
    /// exponent the bit sequence spells most-significant bit first. A
    /// constant (rank 0) modulus yields the zero polynomial by convention.
    /// The result's rank stays strictly below the modulus's rank.
    pub fn downgrade_mod(&self, bits: &Vec<u64>, md: &Modulus) -> (r: Self)
        requires
            self.wf(*md),
            self@.len() < usize::MAX / 8,
            self@.len() > 1 ==> gcd(self@[self@.len() - 1] as nat, md.modulus as nat) == 1,
        ensures
            r.wf(*md),
            self@.len() == 1 ==> r@ == seq![0u64],
            r@.len() <= (if self@.len() > 1 {
                self@.len() - 1
            } else {
                1int
            }),
            self@.len() > 1 ==> congruent_mod_poly(
                iv(r@),
                x_pow(bits_exp(bits@, bits@.len() as int)),
                iv(self@),
                md.modulus as int,
            ),
    {
        if self.c.len() == 1 {
            return Self::zero(md);
        }
        let rank = self.c.len() - 1;
        let rb = reverse_vec(&self.c);
        proof {
            assert forall|j: int| 0 <= j < rb@.len() implies rb@[j] < md.modulus by {
                assert(rb@[j] == self@[self@.len() - 1 - j]);
            }
            assert(rb@[0] == self@[self@.len() - 1]);
        }
        let inv = C::inverse(&rb, (rank - 1) * 2 + 2, md);
        let invp = Self::new(inv, md);
        proof {
            let m = md.modulus as int;
            lemma_trim_spec_trimmed(inv@);
            assert(iv(rb@) =~= rev_seq(iv(self@)));
            assert forall|t: int|
                0 <= t < 2 * (self@.len() - 2) + 2 implies #[trigger] (conv_at(
                rev_seq(iv(self@)),
                iv(invp@),
                t,
            ) % m) == delta(t) % m by {
                assert forall|i: int| 0 <= i <= t implies coef(iv(invp@), i) % m == coef(
                    iv(inv@),
                    i,
                ) % m by {}
                lemma_conv_congruent(iv(rb@), iv(rb@), iv(invp@), iv(inv@), m, t);
            }
        }
        self.downgrade_mod_internal(bits, bits.len(), &invp, md)
    }

    /// Processes the first `k` bits: squares the result for the earlier
    /// bits, multiplies by `x` when the current bit is set, and reduces
    /// modulo `self` with the precomputed inverse whenever the rank grows to
    /// the modulus's rank.
    fn downgrade_mod_internal(&self, bits: &Vec<u64>, k: usize, inv: &Self, md: &Modulus) -> (r:
        Self)
        requires
            self.wf(*md),
            inv.wf(*md),
            2 <= self@.len(),
            self@.len() < usize::MAX / 8,
            inv@.len() <= 2 * (self@.len() - 2) + 2,
            k <= bits@.len(),
            forall|t: int|
                0 <= t < 2 * (self@.len() - 2) + 2 ==> #[trigger] (conv_at(
                    rev_seq(iv(self@)),
                    iv(inv@),
                    t,
                ) % (md.modulus as int)) == delta(t) % (md.modulus as int),
        ensures
            r.wf(*md),
            r@.len() <= self@.len() - 1,
            congruent_mod_poly(
                iv(r@),
                x_pow(bits_exp(bits@, k as int)),
                iv(self@),
                md.modulus as int,
            ),
        decreases k,
    {
        let ghost m = md.modulus as int;
        let ghost mv = iv(self@);
        if k == 0 {
            let r = Self::one(md);
            proof {
                let w0 = Seq::<int>::empty();
                lemma_small_mod(0, md.modulus as nat);
                assert forall|kk: int| #[trigger] ((conv_at(w0, mv, kk) + coef(iv(r@), kk)) % m)
                    == coef(x_pow(0), kk) % m by {
                    if kk >= 0 {
                        lemma_conv_zero_left(w0, mv, kk);
                    }
                    if kk == 0 {
                        assert(coef(iv(r@), 0) == 1int % m);
                        lemma_mod_twice(1int, m);
                        assert(coef(x_pow(0), 0) == 1);
                    } else {
                        assert(coef(iv(r@), kk) == 0);
                        assert(coef(x_pow(0), kk) == 0);
                    }
                }
                assert(witnesses_mod_poly(w0, iv(r@), x_pow(0), mv, m));
            }
            r
        } else {
            let ans = self.downgrade_mod_internal(bits, k - 1, inv, md);
            let ghost e_prev = bits_exp(bits@, k as int - 1);
            let sq0 = ans.pow2(md);
            proof {
                let ansv = iv(ans@);
                let xe = x_pow(e_prev);
                let w1 = choose|w: Seq<int>| witnesses_mod_poly(w, ansv, xe, mv, m);
                lemma_witness_mul(w1, w1, ansv, ansv, xe, xe, mv, m);
                let w2 = choose|w: Seq<int>|
                    witnesses_mod_poly(w, conv_seq(ansv, ansv), conv_seq(xe, xe), mv, m);
                assert forall|kk: int| #[trigger] (coef(iv(sq0@), kk) % m) == coef(
                    conv_seq(ansv, ansv),
                    kk,
                ) % m by {
                    lemma_conv_seq_coef(ansv, ansv, kk);
                    lemma_mod_twice(conv_at(ansv, ansv, kk), m);
                }
                assert forall|kk: int| #[trigger] (coef(x_pow((2 * e_prev) as nat), kk) % m)
                    == coef(conv_seq(xe, xe), kk) % m by {
                    lemma_conv_seq_coef(xe, xe, kk);
                    lemma_conv_x_pow(e_prev, e_prev, kk);
                }
                lemma_witness_congruent(
                    w2,
                    conv_seq(ansv, ansv),
                    iv(sq0@),
                    conv_seq(xe, xe),
                    x_pow((2 * e_prev) as nat),
                    mv,
                    m,
                );
                assert(witnesses_mod_poly(w2, iv(sq0@), x_pow((2 * e_prev) as nat), mv, m));
            }
            let sq = if bits[k - 1] == 1 {
                let shifted = sq0.right_shift(1, md);
                proof {
                    assert forall|i: int| #[trigger] coef(iv(shifted@), i) == (if i >= 1 {
                        coef(iv(sq0@), i - 1)
                    } else {
                        0
                    }) by {
                        if sq0@.len() == 1 && sq0@[0] == 0 {
                            assert(shifted@ == seq![0u64]);
                            assert(coef(iv(shifted@), i) == 0);
                            if i >= 1 {
                                assert(coef(iv(sq0@), i - 1) == 0);
                            }
                        }
                    }
                    let ghost x2e = x_pow((2 * e_prev) as nat);
                    let w3 = choose|w: Seq<int>| witnesses_mod_poly(w, iv(sq0@), x2e, mv, m);
                    lemma_witness_shift(w3, iv(sq0@), iv(shifted@), (2 * e_prev) as nat, mv, m);
                    assert((2 * e_prev + 1) as nat == bits_exp(bits@, k as int));
                }
                shifted
            } else {
                proof {
                    assert((2 * e_prev) as nat == bits_exp(bits@, k as int));
                }
                sq0
            };
            let ghost ee = bits_exp(bits@, k as int);
            proof {
                assert(congruent_mod_poly(iv(sq@), x_pow(ee), mv, m));
            }
            if sq.rank() < self.rank() {
                sq
            } else {
                proof {
                    assert(sq@.len() <= 2 * (self@.len() - 1) + 1);
                }
                let r = sq.fast_rem(self, inv, md);
                proof {
                    let q3 = choose|w: Seq<int>| witnesses_mod_poly(w, iv(r@), iv(sq@), mv, m);
                    let w4 = choose|w: Seq<int>| witnesses_mod_poly(w, iv(sq@), x_pow(ee), mv, m);
                    lemma_witness_trans(q3, w4, iv(r@), iv(sq@), x_pow(ee), mv, m);
                }
                r
            }
        }
    }
}

impl<C: Convolution> Poly<C> {
    /// The upper window of the product of `a` and `b`: coefficient `j` of
    /// the result (for `j` up to `a`'s rank) is the coefficient that `x^j`
    /// of `a` contributes to when `a` is degree-reversed before convolving —
    /// the classic trick for reading only the top window of a large product.
    pub fn convolution_delta(a: &Self, b: &Self, md: &Modulus) -> (r: Self)
        requires
            a.wf(*md),
            b.wf(*md),
            a@.len() + b@.len() <= usize::MAX,
        ensures
            r.wf(*md),
            r@.len() <= a@.len(),
            forall|j: int|
                #[trigger] coef(iv(r@), j) == (if 0 <= j < a@.len() {
                    conv_at(rev_seq(iv(a@)), iv(b@), a@.len() - 1 - j) % (md.modulus as int)
                } else {
                    0
                }),
    {
        let ghost m = md.modulus as int;
        let ra = reverse_vec(&a.c);
        proof {
            assert forall|j: int| 0 <= j < ra@.len() implies ra@[j] < md.modulus by {
                assert(ra@[j] == a@[a@.len() - 1 - j]);
            }
            assert(iv(ra@) =~= rev_seq(iv(a@)));
        }
        let prod = C::convolution(&ra, &b.c, md);
        let a_rank = a.c.len() - 1;
        let mut w: Vec<u64> = Vec::new();
        let mut j: usize = 0;
        while j < a_rank + 1
            invariant
                a_rank < usize::MAX,
                j <= a_rank + 1,
                a_rank + 1 <= prod@.len(),
                w@.len() == j,
                reduced(prod@, md.modulus),
                forall|i: int| 0 <= i < j ==> w@[i] == prod@[i],
            decreases a_rank + 1 - j,
        {
            w.push(prod[j]);
            j += 1;
        }
        let out = reverse_vec(&w);
        proof {
            assert forall|i: int| 0 <= i < out@.len() implies out@[i] < md.modulus by {
                assert(out@[i] == w@[a_rank - i]);
            }
        }
        let r = Self::new(out, md);
        proof {
            lemma_trim_spec_trimmed(out@);
            assert forall|j2: int|
                #[trigger] coef(iv(r@), j2) == (if 0 <= j2 < a@.len() {
                    conv_at(rev_seq(iv(a@)), iv(b@), a@.len() - 1 - j2) % m
                } else {
                    0
                }) by {
                if 0 <= j2 < a@.len() {
                    assert(coef(iv(out@), j2) == out@[j2] as int);
                    assert(out@[j2] == w@[a_rank - j2]);
                    assert(w@[a_rank - j2] == prod@[a_rank - j2]);
                    assert(coef(iv(prod@), a_rank - j2) == prod@[a_rank - j2] as int);
                    assert(coef(iv(prod@), a_rank - j2) == conv_at(iv(ra@), iv(b@), a_rank - j2)
                        % m);
                } else {
                    assert(coef(iv(out@), j2) == 0);
                }
            }
        }
        r
    }
}


/// The coefficient views of a list of polynomials.
pub open spec fn views_of<C: Convolution>(ps: Seq<Poly<C>>) -> Seq<Seq<u64>> {
    Seq::new(ps.len(), |i: int| ps[i]@)
}

impl<C: Convolution> Poly<C> {
    /// Multiplies a list of polynomials by balanced divide-and-conquer,
    /// splitting at the midpoint to keep the convolution work low when the
    /// factors are of comparable size. The result is the product of the
    /// whole list.
    pub fn batch_mul(polys: &Vec<Self>, md: &Modulus) -> (r: Self)
        requires
            md.wf(),
            1 <= polys@.len(),
            forall|i: int| 0 <= i < polys@.len() ==> (#[trigger] polys@[i]).wf(*md),
            sum_lens(views_of(polys@)) <= usize::MAX / 2,
        ensures
            r.wf(*md),
            forall|k: int|
                #[trigger] coef(iv(r@), k) == coef(prod_fold(views_of(polys@)), k) % (
                md.modulus as int),
    {
        proof {
            assert(views_of(polys@.subrange(0, polys@.len() as int)) =~= views_of(polys@));
        }
        let r = Self::batch_mul_range(polys, 0, polys.len(), md);
        r
    }

    /// The product of `polys[lo..hi]`, by midpoint splitting.
    fn batch_mul_range(polys: &Vec<Self>, lo: usize, hi: usize, md: &Modulus) -> (r: Self)
        requires
            md.wf(),
            lo < hi,
            hi <= polys@.len(),
            forall|i: int| 0 <= i < polys@.len() ==> (#[trigger] polys@[i]).wf(*md),
            sum_lens(views_of(polys@.subrange(lo as int, hi as int))) <= usize::MAX / 2,
        ensures
            r.wf(*md),
            r@.len() <= sum_lens(views_of(polys@.subrange(lo as int, hi as int))),
            forall|k: int|
                #[trigger] coef(iv(r@), k) == coef(
                    prod_fold(views_of(polys@.subrange(lo as int, hi as int))),
                    k,
                ) % (md.modulus as int),
        decreases hi - lo,
    {
        let ghost m = md.modulus as int;
        let ghost vs = views_of(polys@.subrange(lo as int, hi as int));
        proof {
            lemma_sum_lens_nonneg(vs);
        }
        if hi - lo == 1 {
            let src = &polys[lo];
            let mut v: Vec<u64> = Vec::new();
            let mut i: usize = 0;
            while i < src.c.len()
                invariant
                    i <= src@.len(),
                    v@.len() == i,
                    forall|j: int| 0 <= j < i ==> v@[j] == src@[j],
                decreases src@.len() - i,
            {
                v.push(src.c[i]);
                i += 1;
            }
            proof {
                assert(v@ =~= src@);
            }
            let r = Self::new(v, md);
            proof {
                lemma_trim_spec_trimmed(v@);
                assert(vs.len() == 1);
                assert(vs[0] == src@);
                assert(vs.drop_first() =~= Seq::<Seq<u64>>::empty());
                assert(prod_fold(Seq::<Seq<u64>>::empty()) == unit_seq());
                assert(sum_lens(Seq::<Seq<u64>>::empty()) == 0);
                assert(sum_lens(vs) == vs[0].len() + sum_lens(vs.drop_first()));
                assert(src@.len() >= 1);
                assert(prod_fold(vs) == conv_seq(iv(vs[0]), unit_seq()));
                lemma_small_mod(0, md.modulus as nat);
                assert forall|k: int|
                    #[trigger] coef(iv(r@), k) == coef(prod_fold(vs), k) % m by {
                    lemma_conv_seq_coef(iv(src@), unit_seq(), k);
                    lemma_conv_unit_right(iv(src@), k);
                    assert(coef(prod_fold(vs), k) == coef(iv(src@), k));
                    if 0 <= k < src@.len() {
                        lemma_small_mod(src@[k] as nat, md.modulus as nat);
                    }
                }
            }
            r
        } else {
            let mid = lo + (hi - lo) / 2;
            let ghost va = views_of(polys@.subrange(lo as int, mid as int));
            let ghost vb = views_of(polys@.subrange(mid as int, hi as int));
            proof {
                assert(vs =~= va.add(vb));
                lemma_sum_lens_concat(va, vb);
                lemma_sum_lens_nonneg(va);
                lemma_sum_lens_nonneg(vb);
            }
            let a = Self::batch_mul_range(polys, lo, mid, md);
            let b = Self::batch_mul_range(polys, mid, hi, md);
            let r = a.mul(&b, md);
            proof {
                assert forall|k: int|
                    #[trigger] coef(iv(r@), k) == coef(prod_fold(vs), k) % m by {
                    lemma_prod_fold_concat(va, vb, k);
                    assert forall|i: int| 0 <= i <= k implies coef(iv(a@), i) % m == coef(
                        prod_fold(va),
                        i,
                    ) % m by {
                        lemma_mod_twice(coef(prod_fold(va), i), m);
                    }
                    assert forall|i: int| 0 <= i <= k implies coef(iv(b@), i) % m == coef(
                        prod_fold(vb),
                        i,
                    ) % m by {
                        lemma_mod_twice(coef(prod_fold(vb), i), m);
                    }
                    lemma_conv_congruent(iv(a@), prod_fold(va), iv(b@), prod_fold(vb), m, k);
                }
            }
            r
        }
    }
}


/// The monomial `x^e` as a coefficient sequence.
pub open spec fn x_pow(e: nat) -> Seq<int> {
    Seq::new(e + 1, |i: int| if i == e {
        1int
    } else {
        0int
    })
}

/// Monomials multiply by adding exponents.
proof fn lemma_conv_x_pow(a: nat, b: nat, k: int)
    ensures
        conv_at(x_pow(a), x_pow(b), k) == coef(x_pow((a + b) as nat), k),
    decreases a,
{
    if a == 0 {
        assert(x_pow(0) =~= unit_seq());
        lemma_conv_unit_left(x_pow(b), k);
    } else {
        assert(x_pow(a) =~= crate::convolve::shift1(x_pow((a - 1) as nat)));
        crate::convolve::lemma_conv_shift_left(x_pow((a - 1) as nat), x_pow(b), k);
        lemma_conv_x_pow((a - 1) as nat, b, k - 1);
    }
}

/// Congruence modulo a polynomial is transitive: witnesses add.
proof fn lemma_witness_trans(
    q1: Seq<int>,
    q2: Seq<int>,
    r: Seq<int>,
    a: Seq<int>,
    c: Seq<int>,
    b: Seq<int>,
    m: int,
)
    requires
        1 <= m,
        witnesses_mod_poly(q1, r, a, b, m),
        witnesses_mod_poly(q2, a, c, b, m),
    ensures
        congruent_mod_poly(r, c, b, m),
{
    let lw = q1.len() + q2.len();
    let w = Seq::new(lw, |i: int| coef(q1, i) + coef(q2, i));
    assert forall|k: int| #[trigger] ((conv_at(w, b, k) + coef(r, k)) % m) == coef(c, k) % m by {
        assert forall|j: int|
            0 <= j <= k implies coef(w, j) == 1 * coef(q1, j) + 1 * coef(q2, j) by {}
        lemma_conv_lin_left(q1, q2, w, b, 1, 1, k);
        let c1 = conv_at(q1, b, k);
        let c2 = conv_at(q2, b, k);
        assert(conv_at(w, b, k) == c1 + c2);
        lemma_add_mod_noop(c1 + coef(r, k), c2, m);
        assert((c1 + coef(r, k) + c2) % m == ((c1 + coef(r, k)) % m + c2 % m) % m);
        lemma_add_mod_noop(coef(a, k), c2, m);
        assert((coef(a, k) % m + c2 % m) % m == (coef(a, k) + c2) % m);
        assert((c2 + coef(a, k)) % m == coef(c, k) % m);
        assert(coef(a, k) + c2 == c2 + coef(a, k));
    }
    assert(witnesses_mod_poly(w, r, c, b, m));
}

/// Congruence modulo a polynomial is compatible with products: congruent
/// residues have congruent products.
proof fn lemma_witness_mul(
    q1: Seq<int>,
    q2: Seq<int>,
    r1: Seq<int>,
    r2: Seq<int>,
    a1: Seq<int>,
    a2: Seq<int>,
    b: Seq<int>,
    m: int,
)
    requires
        1 <= m,
        witnesses_mod_poly(q1, r1, a1, b, m),
        witnesses_mod_poly(q2, r2, a2, b, m),
    ensures
        congruent_mod_poly(conv_seq(r1, r2), conv_seq(a1, a2), b, m),
{
    let cb1 = conv_seq(q1, b);
    let cb2 = conv_seq(q2, b);
    let l1 = r1.len() + cb1.len();
    let l2 = r2.len() + cb2.len();
    let s1 = Seq::new(l1, |i: int| coef(r1, i) + coef(cb1, i));
    let s2 = Seq::new(l2, |i: int| coef(r2, i) + coef(cb2, i));
    lemma_small_mod(0, m as nat);
    assert forall|i: int| #[trigger] (coef(s1, i) % m) == coef(a1, i) % m by {
        lemma_conv_seq_coef(q1, b, i);
        if 0 <= i < l1 {
            assert(coef(s1, i) == coef(r1, i) + conv_at(q1, b, i));
        } else {
            assert(coef(s1, i) == 0);
            if i >= l1 {
                lemma_conv_at_vanish(q1, b, i);
                assert(coef(r1, i) == 0);
            }
            assert(conv_at(q1, b, i) + coef(r1, i) == 0);
        }
        assert((conv_at(q1, b, i) + coef(r1, i)) % m == coef(a1, i) % m);
    }
    assert forall|i: int| #[trigger] (coef(s2, i) % m) == coef(a2, i) % m by {
        lemma_conv_seq_coef(q2, b, i);
        if 0 <= i < l2 {
            assert(coef(s2, i) == coef(r2, i) + conv_at(q2, b, i));
        } else {
            assert(coef(s2, i) == 0);
            if i >= l2 {
                lemma_conv_at_vanish(q2, b, i);
                assert(coef(r2, i) == 0);
            }
            assert(conv_at(q2, b, i) + coef(r2, i) == 0);
        }
        assert((conv_at(q2, b, i) + coef(r2, i)) % m == coef(a2, i) % m);
    }
    let z1 = conv_seq(r2, q1);
    let z2 = conv_seq(r1, q2);
    let z3 = conv_seq(q1, cb2);
    let lu = z1.len() + z2.len();
    let u = Seq::new(lu, |i: int| coef(z1, i) + coef(z2, i));
    let lw = lu + z3.len();
    let w = Seq::new(lw, |i: int| coef(u, i) + coef(z3, i));
    assert forall|k: int| #[trigger] ((conv_at(w, b, k) + coef(conv_seq(r1, r2), k)) % m) == coef(
        conv_seq(a1, a2),
        k,
    ) % m by {
        lemma_conv_seq_coef(r1, r2, k);
        lemma_conv_seq_coef(a1, a2, k);
        assert forall|i: int| 0 <= i <= k implies coef(s1, i) % m == coef(a1, i) % m by {}
        assert forall|i: int| 0 <= i <= k implies coef(s2, i) % m == coef(a2, i) % m by {}
        lemma_conv_congruent(s1, a1, s2, a2, m, k);
        // Expand (r1 + q1 b) * (r2 + q2 b) bilinearly.
        assert forall|j: int|
            0 <= j <= k implies coef(s2, j) == 1 * coef(r2, j) + 1 * coef(cb2, j) by {
            if 0 <= j < l2 {
            } else {
                lemma_conv_seq_coef(q2, b, j);
                if j >= l2 {
                    lemma_conv_at_vanish(q2, b, j);
                }
            }
        }
        lemma_conv_lin_right(s1, r2, cb2, s2, 1, 1, k);
        assert forall|j: int|
            0 <= j <= k implies coef(s1, j) == 1 * coef(r1, j) + 1 * coef(cb1, j) by {
            if 0 <= j < l1 {
            } else {
                lemma_conv_seq_coef(q1, b, j);
                if j >= l1 {
                    lemma_conv_at_vanish(q1, b, j);
                }
            }
        }
        lemma_conv_lin_left(r1, cb1, s1, r2, 1, 1, k);
        lemma_conv_lin_left(r1, cb1, s1, cb2, 1, 1, k);
        assert(conv_at(s1, s2, k) == conv_at(r1, r2, k) + conv_at(cb1, r2, k) + conv_at(
            r1,
            cb2,
            k,
        ) + conv_at(cb1, cb2, k));
        // Each cross term is a multiple of b.
        lemma_conv_comm(cb1, r2, k);
        lemma_conv_assoc(r2, q1, b, k);
        assert(conv_at(cb1, r2, k) == conv_at(z1, b, k));
        lemma_conv_assoc(r1, q2, b, k);
        assert(conv_at(r1, cb2, k) == conv_at(z2, b, k));
        lemma_conv_assoc(q1, b, cb2, k);
        assert(conv_seq(b, cb2) =~= conv_seq(cb2, b)) by {
            assert forall|i: int|
                0 <= i < b.len() + cb2.len() implies conv_seq(b, cb2)[i] == conv_seq(
                cb2,
                b,
            )[i] by {
                lemma_conv_comm(b, cb2, i);
            }
        }
        lemma_conv_assoc(q1, cb2, b, k);
        assert(conv_at(cb1, cb2, k) == conv_at(z3, b, k));
        // The witness collects the three cross terms.
        assert forall|j: int|
            0 <= j <= k implies coef(u, j) == 1 * coef(z1, j) + 1 * coef(z2, j) by {}
        lemma_conv_lin_left(z1, z2, u, b, 1, 1, k);
        assert forall|j: int|
            0 <= j <= k implies coef(w, j) == 1 * coef(u, j) + 1 * coef(z3, j) by {}
        lemma_conv_lin_left(u, z3, w, b, 1, 1, k);
        assert(conv_at(w, b, k) + conv_at(r1, r2, k) == conv_at(s1, s2, k));
    }
    assert(witnesses_mod_poly(w, conv_seq(r1, r2), conv_seq(a1, a2), b, m));
}

/// Replacing residue and right-hand side by coefficient-wise congruent
/// sequences keeps the witness.
proof fn lemma_witness_congruent(
    w: Seq<int>,
    r: Seq<int>,
    r2: Seq<int>,
    a: Seq<int>,
    a2: Seq<int>,
    b: Seq<int>,
    m: int,
)
    requires
        1 <= m,
        witnesses_mod_poly(w, r, a, b, m),
        forall|k: int| #[trigger] (coef(r2, k) % m) == coef(r, k) % m,
        forall|k: int| #[trigger] (coef(a2, k) % m) == coef(a, k) % m,
    ensures
        witnesses_mod_poly(w, r2, a2, b, m),
{
    assert forall|k: int| #[trigger] ((conv_at(w, b, k) + coef(r2, k)) % m) == coef(a2, k)
        % m by {
        let cv = conv_at(w, b, k);
        lemma_add_mod_noop(cv, coef(r2, k), m);
        lemma_add_mod_noop(cv, coef(r, k), m);
        assert((cv + coef(r2, k)) % m == (cv % m + coef(r2, k) % m) % m);
        assert((cv % m + coef(r, k) % m) % m == (cv + coef(r, k)) % m);
    }
}

/// Multiplying by `x` on both sides of a congruence against a monomial.
proof fn lemma_witness_shift(w: Seq<int>, r: Seq<int>, r2: Seq<int>, e: nat, b: Seq<int>, m: int)
    requires
        1 <= m,
        witnesses_mod_poly(w, r, x_pow(e), b, m),
        forall|i: int| #[trigger] coef(r2, i) == (if i >= 1 {
            coef(r, i - 1)
        } else {
            0
        }),
    ensures
        witnesses_mod_poly(crate::convolve::shift1(w), r2, x_pow((e + 1) as nat), b, m),
{
    let sw = crate::convolve::shift1(w);
    lemma_small_mod(0, m as nat);
    assert forall|k: int| #[trigger] ((conv_at(sw, b, k) + coef(r2, k)) % m) == coef(
        x_pow((e + 1) as nat),
        k,
    ) % m by {
        crate::convolve::lemma_conv_shift_left(w, b, k);
        if k >= 1 {
            assert(coef(r2, k) == coef(r, k - 1));
            assert(coef(x_pow((e + 1) as nat), k) == coef(x_pow(e), k - 1));
        } else {
            assert(conv_at(w, b, k - 1) == 0);
            assert(coef(r2, k) == 0);
            assert(coef(x_pow((e + 1) as nat), k) == 0);
        }
    }
}


/// The residue-ring derivative and the integer derivative agree mod `m`.
pub proof fn lemma_deriv_seq_int(s: Seq<int>, m: int, j: int)
    requires
        1 <= m,
    ensures
        coef(deriv_seq(s, m), j) % m == coef(deriv_int(s), j) % m,
{
    lemma_small_mod(0, m as nat);
    lemma_deriv_int_coef(s, j);
    if j < 0 {
    } else {
        let ds = deriv_seq(s, m);
        if 0 <= j < ds.len() {
            assert(coef(ds, j) == (coef(s, j + 1) * ((j + 1) % m)) % m);
            lemma_mul_mod_noop_right(coef(s, j + 1), j + 1, m);
            assert(coef(s, j + 1) * (j + 1) == (j + 1) * coef(s, j + 1)) by (nonlinear_arith);
            lemma_mod_twice(coef(s, j + 1) * (j + 1), m);
        } else {
            assert(coef(ds, j) == 0);
            assert(coef(s, j + 1) == 0);
            assert((j + 1) * 0 == 0) by (nonlinear_arith);
        }
    }
}

/// A power series with invertible-by-construction constant term (the residue
/// of 1) divides only zero: if `g * v` vanishes mod `m` below `bound`, so
/// does `v`.
pub proof fn lemma_series_cancel(g: Seq<int>, v: Seq<int>, m: int, bound: int)
    requires
        1 <= m,
        1 <= g.len(),
        coef(g, 0) % m == 1int % m,
        forall|j: int| 0 <= j < bound ==> #[trigger] (conv_at(g, v, j) % m) == 0,
    ensures
        forall|j: int| 0 <= j < bound ==> #[trigger] (coef(v, j) % m) == 0,
    decreases (if bound > 0 {
        bound
    } else {
        0int
    }),
{
    if bound > 0 {
        lemma_series_cancel(g, v, m, bound - 1);
        let j = bound - 1;
        lemma_conv_peel_left(g, v, j);
        let t = g.subrange(1, g.len() as int);
        crate::convolve::lemma_conv_vanish_right(t, v, m, j - 1);
        lemma_sub_mod_noop(conv_at(g, v, j), conv_at(t, v, j - 1), m);
        lemma_small_mod(0, m as nat);
        assert(conv_at(g, v, j) % m == 0);
        assert(coef(g, 0) * coef(v, j) == conv_at(g, v, j) - conv_at(t, v, j - 1));
        assert((conv_at(g, v, j) - conv_at(t, v, j - 1)) % m == (conv_at(g, v, j) % m - conv_at(
            t,
            v,
            j - 1,
        ) % m) % m);
        assert((coef(g, 0) * coef(v, j)) % m == 0);
        lemma_mul_mod_noop_left(coef(g, 0), coef(v, j), m);
        lemma_mul_mod_noop_left(1int, coef(v, j), m);
        assert((1int % m) * coef(v, j) == (coef(g, 0) % m) * coef(v, j)) by (nonlinear_arith)
            requires
                coef(g, 0) % m == 1int % m,
        ;
        assert(1 * coef(v, j) == coef(v, j)) by (nonlinear_arith);
        assert(forall|jj: int| 0 <= jj < bound ==> #[trigger] (coef(v, jj) % m) == 0);
    }
}

/// One level of the composed-Newton exponential: if `gv` solves the
/// exponential equation to half precision, `lv` is its logarithm, `cv` the
/// first-order correction `1 + f - lv`, and `resv` the corrected product,
/// then `resv` solves the exponential equation `res' = f' * res` to full
/// precision.
proof fn lemma_exp_step(
    fv: Seq<int>,
    gv: Seq<int>,
    lv: Seq<int>,
    cv: Seq<int>,
    resv: Seq<int>,
    m: int,
    h: int,
    n: int,
)
    requires
        1 <= m,
        1 <= h,
        2 <= n,
        n <= 2 * h,
        h <= n,
        1 <= gv.len(),
        coef(gv, 0) % m == 1int % m,
        coef(fv, 0) == 0,
        coef(lv, 0) == 0,
        forall|i: int|
            1 <= i <= n ==> gcd((#[trigger] (i % m)) as nat, m as nat) == 1,
        forall|j: int|
            0 <= j < h - 1 ==> #[trigger] (((j + 1) * coef(gv, j + 1)) % m) == conv_at(
                deriv_int(fv),
                gv,
                j,
            ) % m,
        forall|k2: int|
            0 <= k2 < n - 1 ==> #[trigger] (conv_at(gv, deriv_seq(lv, m), k2) % m) == coef(
                deriv_seq(gv, m),
                k2,
            ) % m,
        forall|j: int|
            0 <= j < n ==> #[trigger] (coef(cv, j) % m) == (delta(j) + coef(fv, j) - coef(
                lv,
                j,
            )) % m,
        forall|j: int| #[trigger] (coef(resv, j) % m) == conv_at(gv, cv, j) % m,
    ensures
        forall|k: int|
            0 <= k < n - 1 ==> #[trigger] (((k + 1) * coef(resv, k + 1)) % m) == conv_at(
                deriv_int(fv),
                resv,
                k,
            ) % m,
{
    let df = deriv_int(fv);
    let dg = deriv_int(gv);
    let dl = deriv_int(lv);
    let dc = deriv_int(cv);
    let dfg = conv_seq(df, gv);
    lemma_small_mod(0, m as nat);
    // The logarithm identity, in integer-derivative form:
    // g * l' = g' mod x^(n-1).
    assert forall|k2: int|
        0 <= k2 < n - 1 implies #[trigger] (conv_at(gv, dl, k2) % m) == coef(dg, k2) % m by {
        assert forall|i: int|
            0 <= i <= k2 implies coef(deriv_seq(lv, m), i) % m == coef(dl, i) % m by {
            lemma_deriv_seq_int(lv, m, i);
        }
        lemma_conv_congruent(gv, gv, deriv_seq(lv, m), dl, m, k2);
        lemma_deriv_seq_int(gv, m, k2);
    }
    // u = g' - f'*g vanishes below h-1.
    let u = Seq::new((n - 1) as nat, |j: int| coef(dg, j) - coef(dfg, j));
    assert forall|t: int| 0 <= t < h - 1 implies #[trigger] (coef(u, t) % m) == 0 by {
        assert(coef(u, t) == coef(dg, t) - coef(dfg, t));
        lemma_deriv_int_coef(gv, t);
        lemma_conv_seq_coef(df, gv, t);
        lemma_sub_mod_noop(coef(dg, t), coef(dfg, t), m);
    }
    // v = l' - f' vanishes below h-1, by cancelling g.
    let vv = Seq::new((n - 1) as nat, |j: int| coef(dl, j) - coef(df, j));
    assert forall|j: int| 0 <= j < h - 1 implies #[trigger] (conv_at(gv, vv, j) % m) == 0 by {
        assert forall|i: int|
            0 <= i <= j implies coef(vv, i) == 1 * coef(dl, i) + (-1) * coef(df, i) by {
            assert(1 * coef(dl, i) + (-1) * coef(df, i) == coef(dl, i) - coef(df, i))
                by (nonlinear_arith);
        }
        lemma_conv_lin_right(gv, dl, df, vv, 1, -1, j);
        lemma_conv_comm(gv, df, j);
        lemma_conv_seq_coef(df, gv, j);
        lemma_deriv_int_coef(gv, j);
        lemma_sub_mod_noop(conv_at(gv, dl, j), conv_at(gv, df, j), m);
        assert(conv_at(gv, vv, j) == 1 * conv_at(gv, dl, j) + (-1) * conv_at(gv, df, j));
        assert(1 * conv_at(gv, dl, j) + (-1) * conv_at(gv, df, j) == conv_at(gv, dl, j) - conv_at(
            gv,
            df,
            j,
        )) by (nonlinear_arith);
    }
    lemma_series_cancel(gv, vv, m, h - 1);
    // Hence f and l agree below h, so the correction is 1 below h.
    assert forall|t: int| 1 <= t < h implies #[trigger] ((coef(fv, t) - coef(lv, t)) % m)
        == 0 by {
        assert(coef(vv, t - 1) % m == 0);
        assert(coef(vv, t - 1) == coef(dl, t - 1) - coef(df, t - 1));
        lemma_deriv_int_coef(lv, t - 1);
        lemma_deriv_int_coef(fv, t - 1);
        assert(t * coef(lv, t) - t * coef(fv, t) == t * (coef(lv, t) - coef(fv, t)))
            by (nonlinear_arith);
        lemma_mod_bound(t, m);
        lemma_mul_mod_noop_left(t, coef(lv, t) - coef(fv, t), m);
        assert(((t % m) * (coef(lv, t) - coef(fv, t))) % m == 0);
        crate::modnum::lemma_mod_cancel(t % m, coef(lv, t) - coef(fv, t), m);
        lemma_sub_mod_noop(0, coef(lv, t) - coef(fv, t), m);
        assert((0 - (coef(lv, t) - coef(fv, t))) % m == 0);
        assert(0 - (coef(lv, t) - coef(fv, t)) == coef(fv, t) - coef(lv, t));
    }
    // The main chain, coefficient by coefficient.
    assert forall|k: int|
        0 <= k < n - 1 implies #[trigger] (((k + 1) * coef(resv, k + 1)) % m) == conv_at(
        df,
        resv,
        k,
    ) % m by {
        lemma_mul_mod_noop_right(k + 1, coef(resv, k + 1), m);
        lemma_mul_mod_noop_right(k + 1, conv_at(gv, cv, k + 1), m);
        assert(((k + 1) * coef(resv, k + 1)) % m == ((k + 1) * conv_at(gv, cv, k + 1)) % m);
        lemma_conv_deriv(gv, cv, k);
        let aa = conv_at(dg, cv, k);
        let bb = conv_at(gv, dc, k);
        let cc = conv_at(dfg, cv, k);
        // bb is congruent to (f'g)_k - g'_k.
        let ee = Seq::new((n - 1) as nat, |j: int| coef(df, j) - coef(dl, j));
        assert forall|j: int| 0 <= j <= k implies coef(dc, j) % m == coef(ee, j) % m by {
            lemma_deriv_int_coef(cv, j);
            lemma_mul_mod_noop_right(j + 1, coef(cv, j + 1), m);
            lemma_mul_mod_noop_right(j + 1, coef(fv, j + 1) - coef(lv, j + 1), m);
            assert(coef(cv, j + 1) % m == (delta(j + 1) + coef(fv, j + 1) - coef(lv, j + 1)) % m);
            assert(delta(j + 1) == 0);
            assert((j + 1) * (coef(fv, j + 1) - coef(lv, j + 1)) == (j + 1) * coef(fv, j + 1) - (j
                + 1) * coef(lv, j + 1)) by (nonlinear_arith);
            lemma_deriv_int_coef(fv, j);
            lemma_deriv_int_coef(lv, j);
            assert(coef(ee, j) == coef(df, j) - coef(dl, j));
        }
        lemma_conv_congruent(gv, gv, dc, ee, m, k);
        assert forall|j: int|
            0 <= j <= k implies coef(ee, j) == 1 * coef(df, j) + (-1) * coef(dl, j) by {
            assert(1 * coef(df, j) + (-1) * coef(dl, j) == coef(df, j) - coef(dl, j))
                by (nonlinear_arith);
        }
        lemma_conv_lin_right(gv, df, dl, ee, 1, -1, k);
        lemma_conv_comm(gv, df, k);
        lemma_conv_seq_coef(df, gv, k);
        assert(conv_at(gv, ee, k) == 1 * conv_at(gv, df, k) + (-1) * conv_at(gv, dl, k));
        assert(conv_at(gv, ee, k) == coef(dfg, k) - conv_at(gv, dl, k)) by (nonlinear_arith)
            requires
                conv_at(gv, ee, k) == 1 * conv_at(gv, df, k) + (-1) * conv_at(gv, dl, k),
                conv_at(gv, df, k) == coef(dfg, k),
        ;
        lemma_sub_mod_noop(coef(dfg, k), conv_at(gv, dl, k), m);
        lemma_sub_mod_noop(coef(dfg, k), coef(dg, k), m);
        assert(bb % m == (coef(dfg, k) - coef(dg, k)) % m);
        // aa - cc collects into u * c, which is u_k plus a vanishing window.
        assert forall|j: int|
            0 <= j <= k implies coef(dg, j) == 1 * coef(dfg, j) + 1 * coef(u, j) by {
            assert(coef(u, j) == coef(dg, j) - coef(dfg, j));
            assert(1 * coef(dfg, j) + 1 * (coef(dg, j) - coef(dfg, j)) == coef(dg, j))
                by (nonlinear_arith);
        }
        lemma_conv_lin_left(dfg, u, dg, cv, 1, 1, k);
        assert(aa == 1 * cc + 1 * conv_at(u, cv, k));
        let w = Seq::new((k + 1) as nat, |j: int| coef(cv, j) - delta(j));
        assert forall|j: int|
            0 <= j <= k implies coef(cv, j) == 1 * coef(unit_seq(), j) + 1 * coef(w, j) by {
            assert(coef(w, j) == coef(cv, j) - delta(j));
            assert(coef(unit_seq(), j) == delta(j));
            assert(1 * delta(j) + 1 * (coef(cv, j) - delta(j)) == coef(cv, j))
                by (nonlinear_arith);
        }
        lemma_conv_lin_right(u, unit_seq(), w, cv, 1, 1, k);
        lemma_conv_unit_right(u, k);
        assert(conv_at(u, cv, k) == 1 * coef(u, k) + 1 * conv_at(u, w, k));
        // The window u * w vanishes below (h-1) + h.
        assert forall|t: int| 0 <= t < h implies #[trigger] (coef(w, t) % m) == 0 by {
            if t > k {
                assert(coef(w, t) == 0);
            } else if t == 0 {
                assert(coef(w, 0) == coef(cv, 0) - 1);
                assert(coef(cv, 0) % m == (delta(0) + coef(fv, 0) - coef(lv, 0)) % m);
                assert(delta(0) + coef(fv, 0) - coef(lv, 0) == 1);
                lemma_sub_mod_noop(coef(cv, 0), 1, m);
            } else {
                assert(coef(w, t) == coef(cv, t) - delta(t));
                assert(delta(t) == 0);
                assert(coef(cv, t) % m == (delta(t) + coef(fv, t) - coef(lv, t)) % m);
                assert(delta(t) + coef(fv, t) - coef(lv, t) == coef(fv, t) - coef(lv, t));
                assert((coef(fv, t) - coef(lv, t)) % m == 0);
            }
        }
        crate::convolve::lemma_conv_vanish_two(u, w, m, h - 1, h, k);
        let ww = conv_at(u, w, k);
        // Put it together: aa + bb is congruent to cc.
        assert(aa == cc + coef(u, k) + ww) by (nonlinear_arith)
            requires
                aa == 1 * cc + 1 * conv_at(u, cv, k),
                conv_at(u, cv, k) == 1 * coef(u, k) + 1 * ww,
        ;
        assert(coef(u, k) == coef(dg, k) - coef(dfg, k));
        lemma_add_mod_noop(cc + coef(u, k) + bb, ww, m);
        lemma_mod_twice(cc + coef(u, k) + bb, m);
        assert((aa + bb) % m == (cc + coef(u, k) + bb) % m);
        lemma_add_mod_noop(cc + coef(u, k), bb, m);
        lemma_add_mod_noop(cc + coef(u, k), coef(dfg, k) - coef(dg, k), m);
        assert((cc + coef(u, k) + (coef(dfg, k) - coef(dg, k))) == cc);
        lemma_mod_twice(cc, m);
        assert((aa + bb) % m == cc % m);
        // And cc is the right-hand side.
        assert forall|j: int| 0 <= j <= k implies coef(resv, j) % m == coef(
            conv_seq(gv, cv),
            j,
        ) % m by {
            lemma_conv_seq_coef(gv, cv, j);
            lemma_mod_twice(conv_at(gv, cv, j), m);
        }
        lemma_conv_congruent(df, df, resv, conv_seq(gv, cv), m, k);
        lemma_conv_assoc(df, gv, cv, k);
        assert(((k + 1) * conv_at(gv, cv, k + 1)) % m == (aa + bb) % m);
    }
}

} // verus!
