//! The convolution capability: the mathematical model of polynomial
//! multiplication over the integers, a lemma library about it, and the
//! `Convolution` / `PolyInverse` strategy traits with a naive strategy
//! implementing them (schoolbook products, Newton-iteration inverse).

use vstd::prelude::*;
use vstd::arithmetic::div_mod::{
    lemma_add_mod_noop, lemma_mod_twice, lemma_mul_mod_noop, lemma_mul_mod_noop_left,
    lemma_small_mod, lemma_sub_mod_noop, lemma_sub_mod_noop_right,
};
use crate::modnum::{gcd, reduced, Modulus};

verus! {

/// Coefficient `i` of a coefficient sequence, zero outside the sequence.
pub open spec fn coef(s: Seq<int>, i: int) -> int {
    if 0 <= i < s.len() {
        s[i]
    } else {
        0
    }
}

/// The integer view of a residue sequence.
pub open spec fn iv(s: Seq<u64>) -> Seq<int> {
    Seq::new(s.len(), |i: int| s[i] as int)
}

/// Sum of the first `n` terms of the convolution sum for coefficient `k`:
/// the terms `coef(a, i) * coef(b, k - i)` for `i` in `[0, n)`.
pub open spec fn conv_partial(a: Seq<int>, b: Seq<int>, k: int, n: nat) -> int
    decreases n,
{
    if n == 0 {
        0
    } else {
        conv_partial(a, b, k, (n - 1) as nat) + coef(a, n - 1) * coef(b, k - (n - 1))
    }
}

/// Coefficient `k` of the exact (integer, non-modular) product `a * b`.
pub open spec fn conv_at(a: Seq<int>, b: Seq<int>, k: int) -> int {
    if k < 0 {
        0
    } else {
        conv_partial(a, b, k, (k + 1) as nat)
    }
}

/// The exact product `a * b` as a sequence (one spare trailing entry, so that
/// `coef` of it agrees with `conv_at` at every index).
pub open spec fn conv_seq(a: Seq<int>, b: Seq<int>) -> Seq<int> {
    Seq::new(a.len() + b.len(), |k: int| conv_at(a, b, k))
}

/// The coefficient sequence of the constant 1 polynomial, coefficient-wise.
pub open spec fn delta(k: int) -> int {
    if k == 0 {
        1
    } else {
        0
    }
}

/// The constant 1 polynomial.
pub open spec fn unit_seq() -> Seq<int> {
    seq![1]
}

/// The sequence shifted up one degree (multiplied by x).
pub open spec fn shift1(s: Seq<int>) -> Seq<int> {
    seq![0].add(s)
}

proof fn lemma_conv_partial_zero_left(a: Seq<int>, b: Seq<int>, k: int, n: nat)
    requires
        forall|i: int| 0 <= i < n ==> coef(a, i) == 0,
    ensures
        conv_partial(a, b, k, n) == 0,
    decreases n,
{
    if n > 0 {
        lemma_conv_partial_zero_left(a, b, k, (n - 1) as nat);
    }
}

/// A factor whose coefficients vanish up to `k` kills coefficient `k`.
pub proof fn lemma_conv_zero_left(a: Seq<int>, b: Seq<int>, k: int)
    requires
        forall|i: int| 0 <= i <= k ==> coef(a, i) == 0,
    ensures
        conv_at(a, b, k) == 0,
{
    if k >= 0 {
        lemma_conv_partial_zero_left(a, b, k, (k + 1) as nat);
    }
}

proof fn lemma_conv_partial_zero_right(a: Seq<int>, b: Seq<int>, k: int, n: nat)
    requires
        n <= k + 1,
        forall|j: int| 0 <= j <= k ==> coef(b, j) == 0,
    ensures
        conv_partial(a, b, k, n) == 0,
    decreases n,
{
    if n > 0 {
        lemma_conv_partial_zero_right(a, b, k, (n - 1) as nat);
    }
}

/// Symmetrically for the right factor.
pub proof fn lemma_conv_zero_right(a: Seq<int>, b: Seq<int>, k: int)
    requires
        forall|j: int| 0 <= j <= k ==> coef(b, j) == 0,
    ensures
        conv_at(a, b, k) == 0,
{
    if k >= 0 {
        lemma_conv_partial_zero_right(a, b, k, (k + 1) as nat);
    }
}

proof fn lemma_conv_partial_vanish(a: Seq<int>, b: Seq<int>, k: int, n: nat)
    requires
        k > a.len() + b.len() - 2,
    ensures
        conv_partial(a, b, k, n) == 0,
    decreases n,
{
    if n > 0 {
        lemma_conv_partial_vanish(a, b, k, (n - 1) as nat);
    }
}

/// Product coefficients above the degree bound vanish.
pub proof fn lemma_conv_at_vanish(a: Seq<int>, b: Seq<int>, k: int)
    requires
        k > a.len() + b.len() - 2,
    ensures
        conv_at(a, b, k) == 0,
{
    if k >= 0 {
        lemma_conv_partial_vanish(a, b, k, (k + 1) as nat);
    }
}

/// `conv_seq` has `conv_at` as its padded coefficient function, everywhere.
pub proof fn lemma_conv_seq_coef(a: Seq<int>, b: Seq<int>, k: int)
    ensures
        coef(conv_seq(a, b), k) == conv_at(a, b, k),
{
    if k >= a.len() + b.len() {
        lemma_conv_at_vanish(a, b, k);
    }
}

proof fn lemma_conv_partial_cong(
    a: Seq<int>,
    a2: Seq<int>,
    b: Seq<int>,
    b2: Seq<int>,
    m: int,
    k: int,
    n: nat,
)
    requires
        1 <= m,
        n <= k + 1,
        forall|i: int| 0 <= i <= k ==> coef(a, i) % m == coef(a2, i) % m,
        forall|i: int| 0 <= i <= k ==> coef(b, i) % m == coef(b2, i) % m,
    ensures
        conv_partial(a, b, k, n) % m == conv_partial(a2, b2, k, n) % m,
    decreases n,
{
    if n > 0 {
        lemma_conv_partial_cong(a, a2, b, b2, m, k, (n - 1) as nat);
        let i = n - 1;
        let j = k - i;
        lemma_mul_mod_noop(coef(a, i), coef(b, j), m);
        lemma_mul_mod_noop(coef(a2, i), coef(b2, j), m);
        lemma_add_mod_noop(conv_partial(a, b, k, (n - 1) as nat), coef(a, i) * coef(b, j), m);
        lemma_add_mod_noop(conv_partial(a2, b2, k, (n - 1) as nat), coef(a2, i) * coef(b2, j), m);
    }
}

/// Replacing both factors by factors congruent coefficient-wise (mod `m`, up
/// to index `k`) leaves coefficient `k` of the product congruent.
pub proof fn lemma_conv_congruent(
    a: Seq<int>,
    a2: Seq<int>,
    b: Seq<int>,
    b2: Seq<int>,
    m: int,
    k: int,
)
    requires
        1 <= m,
        forall|i: int| 0 <= i <= k ==> coef(a, i) % m == coef(a2, i) % m,
        forall|i: int| 0 <= i <= k ==> coef(b, i) % m == coef(b2, i) % m,
    ensures
        conv_at(a, b, k) % m == conv_at(a2, b2, k) % m,
{
    if k >= 0 {
        lemma_conv_partial_cong(a, a2, b, b2, m, k, (k + 1) as nat);
    }
}

proof fn lemma_conv_partial_lin_right(
    a: Seq<int>,
    x: Seq<int>,
    y: Seq<int>,
    z: Seq<int>,
    al: int,
    be: int,
    k: int,
    n: nat,
)
    requires
        n <= k + 1,
        forall|j: int| 0 <= j <= k ==> coef(z, j) == al * coef(x, j) + be * coef(y, j),
    ensures
        conv_partial(a, z, k, n) == al * conv_partial(a, x, k, n) + be * conv_partial(a, y, k, n),
    decreases n,
{
    if n == 0 {
        assert(al * 0 + be * 0 == 0) by (nonlinear_arith);
    } else {
        lemma_conv_partial_lin_right(a, x, y, z, al, be, k, (n - 1) as nat);
        let i = n - 1;
        let j = k - i;
        assert(coef(a, i) * (al * coef(x, j) + be * coef(y, j)) == al * (coef(a, i) * coef(x, j))
            + be * (coef(a, i) * coef(y, j))) by (nonlinear_arith);
        assert(al * (conv_partial(a, x, k, (n - 1) as nat) + coef(a, i) * coef(x, j)) == al
            * conv_partial(a, x, k, (n - 1) as nat) + al * (coef(a, i) * coef(x, j)))
            by (nonlinear_arith);
        assert(be * (conv_partial(a, y, k, (n - 1) as nat) + coef(a, i) * coef(y, j)) == be
            * conv_partial(a, y, k, (n - 1) as nat) + be * (coef(a, i) * coef(y, j)))
            by (nonlinear_arith);
    }
}

/// Convolution is linear in its right factor: if `z = al*x + be*y`
/// coefficient-wise up to `k`, the products combine the same way at `k`.
pub proof fn lemma_conv_lin_right(
    a: Seq<int>,
    x: Seq<int>,
    y: Seq<int>,
    z: Seq<int>,
    al: int,
    be: int,
    k: int,
)
    requires
        forall|j: int| 0 <= j <= k ==> coef(z, j) == al * coef(x, j) + be * coef(y, j),
    ensures
        conv_at(a, z, k) == al * conv_at(a, x, k) + be * conv_at(a, y, k),
{
    if k < 0 {
        assert(al * 0 + be * 0 == 0) by (nonlinear_arith);
    } else {
        lemma_conv_partial_lin_right(a, x, y, z, al, be, k, (k + 1) as nat);
    }
}

proof fn lemma_conv_partial_unit_right(a: Seq<int>, k: int, n: nat)
    requires
        n <= k + 1,
    ensures
        conv_partial(a, unit_seq(), k, n) == if n == k + 1 && k >= 0 {
            coef(a, k)
        } else {
            0
        },
    decreases n,
{
    if n > 0 {
        lemma_conv_partial_unit_right(a, k, (n - 1) as nat);
    }
}

/// The constant 1 polynomial is a right identity, coefficient-wise.
pub proof fn lemma_conv_unit_right(a: Seq<int>, k: int)
    ensures
        conv_at(a, unit_seq(), k) == coef(a, k),
{
    if k >= 0 {
        lemma_conv_partial_unit_right(a, k, (k + 1) as nat);
    }
}

proof fn lemma_conv_partial_unit_left(a: Seq<int>, k: int, n: nat)
    requires
        n <= k + 1,
    ensures
        conv_partial(unit_seq(), a, k, n) == if n >= 1 {
            coef(a, k)
        } else {
            0
        },
    decreases n,
{
    if n > 0 {
        lemma_conv_partial_unit_left(a, k, (n - 1) as nat);
        assert(coef(unit_seq(), 0) == 1);
        if n == 1 {
            assert(conv_partial(unit_seq(), a, k, 0) == 0);
        } else {
            assert(coef(unit_seq(), n - 1) == 0);
        }
    }
}

/// The constant 1 polynomial is a left identity, coefficient-wise.
pub proof fn lemma_conv_unit_left(a: Seq<int>, k: int)
    ensures
        conv_at(unit_seq(), a, k) == coef(a, k),
{
    if k >= 0 {
        lemma_conv_partial_unit_left(a, k, (k + 1) as nat);
    }
}

proof fn lemma_conv_partial_peel_left(a: Seq<int>, b: Seq<int>, k: int, n: nat)
    requires
        1 <= n,
        n <= k + 1,
        1 <= a.len(),
    ensures
        conv_partial(a, b, k, n) == coef(a, 0) * coef(b, k) + conv_partial(
            a.subrange(1, a.len() as int),
            b,
            k - 1,
            (n - 1) as nat,
        ),
    decreases n,
{
    let t = a.subrange(1, a.len() as int);
    if n == 1 {
        assert(conv_partial(a, b, k, 0) == 0);
        assert(conv_partial(t, b, k - 1, 0) == 0);
        assert(conv_partial(a, b, k, 1) == coef(a, 0) * coef(b, k));
    } else {
        lemma_conv_partial_peel_left(a, b, k, (n - 1) as nat);
        assert(coef(t, n - 2) == coef(a, n - 1));
    }
}

/// Peeling the constant coefficient off the left factor.
pub proof fn lemma_conv_peel_left(a: Seq<int>, b: Seq<int>, k: int)
    requires
        1 <= a.len(),
        0 <= k,
    ensures
        conv_at(a, b, k) == coef(a, 0) * coef(b, k) + conv_at(
            a.subrange(1, a.len() as int),
            b,
            k - 1,
        ),
{
    lemma_conv_partial_peel_left(a, b, k, (k + 1) as nat);
}

proof fn lemma_conv_partial_peel_right(a: Seq<int>, b: Seq<int>, k: int, n: nat)
    requires
        n <= k,
        1 <= b.len(),
    ensures
        conv_partial(a, b, k, n) == conv_partial(a, b.subrange(1, b.len() as int), k - 1, n),
    decreases n,
{
    let t = b.subrange(1, b.len() as int);
    if n == 0 {
        assert(conv_partial(a, b, k, 0) == 0);
        assert(conv_partial(a, t, k - 1, 0) == 0);
    }
    if n > 0 {
        lemma_conv_partial_peel_right(a, b, k, (n - 1) as nat);
        let i = n - 1;
        assert(coef(b, k - i) == coef(t, k - 1 - i));
    }
}

/// Peeling the constant coefficient off the right factor.
#[verifier::spinoff_prover]
pub proof fn lemma_conv_peel_right(a: Seq<int>, b: Seq<int>, k: int)
    requires
        1 <= b.len(),
        0 <= k,
    ensures
        conv_at(a, b, k) == coef(b, 0) * coef(a, k) + conv_at(
            a,
            b.subrange(1, b.len() as int),
            k - 1,
        ),
{
    lemma_conv_partial_peel_right(a, b, k, k as nat);
    assert(((k + 1) as nat - 1) as nat == k as nat);
    assert(conv_partial(a, b, k, (k + 1) as nat) == conv_partial(a, b, k, k as nat) + coef(a, k)
        * coef(b, k - k));
    assert(coef(a, k) * coef(b, 0) == coef(b, 0) * coef(a, k)) by (nonlinear_arith);
    assert(conv_at(a, b.subrange(1, b.len() as int), k - 1) == conv_partial(
        a,
        b.subrange(1, b.len() as int),
        k - 1,
        k as nat,
    ));
}

/// Convolution is commutative, coefficient by coefficient.
pub proof fn lemma_conv_comm(a: Seq<int>, b: Seq<int>, k: int)
    ensures
        conv_at(a, b, k) == conv_at(b, a, k),
    decreases (if k < 0 {
        0int
    } else {
        k + 1
    }),
{
    if k < 0 {
    } else if a.len() == 0 {
        lemma_conv_zero_left(a, b, k);
        lemma_conv_zero_right(b, a, k);
    } else {
        let t = a.subrange(1, a.len() as int);
        lemma_conv_peel_left(a, b, k);
        lemma_conv_peel_right(b, a, k);
        lemma_conv_comm(t, b, k - 1);
    }
}

/// Convolution is linear in its left factor as well.
pub proof fn lemma_conv_lin_left(
    x: Seq<int>,
    y: Seq<int>,
    z: Seq<int>,
    b: Seq<int>,
    al: int,
    be: int,
    k: int,
)
    requires
        forall|j: int| 0 <= j <= k ==> coef(z, j) == al * coef(x, j) + be * coef(y, j),
    ensures
        conv_at(z, b, k) == al * conv_at(x, b, k) + be * conv_at(y, b, k),
{
    lemma_conv_comm(z, b, k);
    lemma_conv_comm(x, b, k);
    lemma_conv_comm(y, b, k);
    lemma_conv_lin_right(b, x, y, z, al, be, k);
}

/// Shifting the left factor up one degree shifts the product.
pub proof fn lemma_conv_shift_left(s: Seq<int>, b: Seq<int>, k: int)
    ensures
        conv_at(shift1(s), b, k) == conv_at(s, b, k - 1),
{
    if k < 0 {
    } else {
        lemma_conv_peel_left(shift1(s), b, k);
        assert(shift1(s)[0] == 0);
        assert(coef(shift1(s), 0) == 0);
        let t2 = shift1(s).subrange(1, shift1(s).len() as int);
        assert(t2 =~= s);
        assert(conv_at(t2, b, k - 1) == conv_at(s, b, k - 1));
        assert(conv_at(shift1(s), b, k) == coef(shift1(s), 0) * coef(b, k) + conv_at(t2, b, k - 1));
        assert(coef(shift1(s), 0) * coef(b, k) == 0) by (nonlinear_arith)
            requires
                coef(shift1(s), 0) == 0,
        ;
    }
}

/// Convolution is associative, coefficient by coefficient.
pub proof fn lemma_conv_assoc(a: Seq<int>, b: Seq<int>, c: Seq<int>, k: int)
    ensures
        conv_at(conv_seq(a, b), c, k) == conv_at(a, conv_seq(b, c), k),
    decreases a.len(),
{
    let ab = conv_seq(a, b);
    let bc = conv_seq(b, c);
    if k < 0 {
    } else if a.len() == 0 {
        lemma_conv_zero_left(a, bc, k);
        assert forall|i: int| 0 <= i <= k implies coef(ab, i) == 0 by {
            lemma_conv_seq_coef(a, b, i);
            lemma_conv_zero_left(a, b, i);
        }
        lemma_conv_zero_left(ab, c, k);
    } else {
        let t = a.subrange(1, a.len() as int);
        let tb = conv_seq(t, b);
        let stb = shift1(tb);
        // The product a*b decomposes as a0*b + x*(tail(a)*b), coefficient-wise.
        assert forall|i: int| 0 <= i <= k implies coef(ab, i) == coef(a, 0) * coef(b, i) + 1 * coef(
            stb,
            i,
        ) by {
            lemma_conv_seq_coef(a, b, i);
            lemma_conv_peel_left(a, b, i);
            if i == 0 {
                assert(coef(stb, 0) == 0);
                assert(conv_at(t, b, -1) == 0);
            } else {
                assert(coef(stb, i) == coef(tb, i - 1));
                lemma_conv_seq_coef(t, b, i - 1);
            }
            assert(1 * coef(stb, i) == coef(stb, i)) by (nonlinear_arith);
        }
        lemma_conv_lin_left(b, stb, ab, c, coef(a, 0), 1, k);
        lemma_conv_shift_left(tb, c, k);
        // Inductive hypothesis on the tail.
        lemma_conv_assoc(t, b, c, k - 1);
        // And the right-hand side peels the same way.
        lemma_conv_peel_left(a, bc, k);
        lemma_conv_seq_coef(b, c, k);
        assert(conv_at(ab, c, k) == coef(a, 0) * conv_at(b, c, k) + 1 * conv_at(stb, c, k));
        assert(1 * conv_at(stb, c, k) == conv_at(stb, c, k)) by (nonlinear_arith);
    }
}

/// If the coefficients of `w` vanish mod `m` below `h`, the coefficients of
/// `w*w` vanish mod `m` below `2h`.
proof fn lemma_conv_partial_sq_vanish(w: Seq<int>, m: int, h: int, k: int, n: nat)
    requires
        1 <= m,
        0 <= k < 2 * h,
        n <= k + 1,
        forall|t: int| 0 <= t < h ==> #[trigger] (coef(w, t) % m) == 0,
    ensures
        conv_partial(w, w, k, n) % m == 0,
    decreases n,
{
    lemma_small_mod(0, m as nat);
    if n > 0 {
        lemma_conv_partial_sq_vanish(w, m, h, k, (n - 1) as nat);
        let i = n - 1;
        let j = k - i;
        if i < h {
            lemma_mul_mod_noop_left(coef(w, i), coef(w, j), m);
            assert((coef(w, i) % m) * coef(w, j) == 0) by (nonlinear_arith)
                requires
                    coef(w, i) % m == 0,
            ;
        } else {
            assert(j < h);
            lemma_mul_mod_noop(coef(w, i), coef(w, j), m);
            assert((coef(w, i) % m) * (coef(w, j) % m) == 0) by (nonlinear_arith)
                requires
                    coef(w, j) % m == 0,
            ;
        }
        lemma_add_mod_noop(conv_partial(w, w, k, (n - 1) as nat), coef(w, i) * coef(w, j), m);
    }
}

pub proof fn lemma_conv_sq_vanish(w: Seq<int>, m: int, h: int, k: int)
    requires
        1 <= m,
        0 <= k < 2 * h,
        forall|t: int| 0 <= t < h ==> #[trigger] (coef(w, t) % m) == 0,
    ensures
        conv_at(w, w, k) % m == 0,
{
    lemma_conv_partial_sq_vanish(w, m, h, k, (k + 1) as nat);
}

/// The single coefficient of a product of constants.
pub proof fn lemma_conv_at_zero(a: Seq<int>, b: Seq<int>)
    ensures
        conv_at(a, b, 0) == coef(a, 0) * coef(b, 0),
{
    assert(conv_partial(a, b, 0, 0) == 0);
    assert(conv_partial(a, b, 0, 1) == coef(a, 0) * coef(b, 0));
}

/// The Newton correction step: if `c` inverts `p` mod `x^h` and, mod `m`,
/// `d` is `2 - p*c` truncated and `q` is `c*d` truncated, then `q` inverts
/// `p` mod `x^len` for any `len <= 2h`.
pub proof fn lemma_newton_step(
    p: Seq<int>,
    c: Seq<int>,
    d: Seq<int>,
    q: Seq<int>,
    m: int,
    h: int,
    len: int,
)
    requires
        1 <= m,
        1 <= h,
        h <= len,
        len <= 2 * h,
        forall|k: int| 0 <= k < h ==> #[trigger] (conv_at(p, c, k) % m) == delta(k) % m,
        forall|j: int| 0 <= j < len ==> #[trigger] (coef(d, j) % m) == (2 * delta(j) - conv_at(
            p,
            c,
            j,
        )) % m,
        forall|j: int| 0 <= j < len ==> #[trigger] (coef(q, j) % m) == conv_at(c, d, j) % m,
    ensures
        forall|k: int| 0 <= k < len ==> #[trigger] (conv_at(p, q, k) % m) == delta(k) % m,
{
    let u = conv_seq(p, c);
    let w = Seq::new(len as nat, |t: int| delta(t) - coef(u, t));
    assert forall|k: int| 0 <= k < len implies #[trigger] (conv_at(p, q, k) % m) == delta(k)
        % m by {
        let cd = conv_seq(c, d);
        // q is congruent to the full product c*d below len.
        assert forall|j: int| 0 <= j <= k implies coef(q, j) % m == coef(cd, j) % m by {
            lemma_conv_seq_coef(c, d, j);
        }
        lemma_conv_congruent(p, p, q, cd, m, k);
        // d is congruent to 2 - u below len, so c*d is congruent to 2c - c*u.
        let dd = Seq::new(len as nat, |j: int| 2 * delta(j) - coef(u, j));
        let cu = conv_seq(c, u);
        let zz = Seq::new(len as nat, |j: int| 2 * coef(c, j) - coef(cu, j));
        assert forall|j: int| 0 <= j <= k implies coef(cd, j) % m == coef(zz, j) % m by {
            lemma_conv_seq_coef(c, d, j);
            // conv_at(c, d, j) ≡ conv_at(c, dd, j)
            assert forall|i: int| 0 <= i <= j implies coef(d, i) % m == coef(dd, i) % m by {
                lemma_conv_seq_coef(p, c, i);
            }
            lemma_conv_congruent(c, c, d, dd, m, j);
            // conv_at(c, dd, j) == 2*coef(c, j) - conv_at(c, u, j)
            assert forall|t: int| 0 <= t <= j implies coef(dd, t) == 2 * coef(unit_seq(), t) + (-1)
                * coef(u, t) by {
                assert(coef(dd, t) == 2 * delta(t) - coef(u, t));
                assert(coef(unit_seq(), t) == delta(t));
                assert(2 * delta(t) - coef(u, t) == 2 * delta(t) + (-1) * coef(u, t))
                    by (nonlinear_arith);
            }
            lemma_conv_lin_right(c, unit_seq(), u, dd, 2, -1, j);
            lemma_conv_unit_right(c, j);
            lemma_conv_seq_coef(c, u, j);
            assert(conv_at(c, dd, j) == 2 * coef(c, j) + (-1) * conv_at(c, u, j));
            assert(2 * coef(c, j) + (-1) * conv_at(c, u, j) == 2 * coef(c, j) - conv_at(c, u, j))
                by (nonlinear_arith);
            assert(coef(zz, j) == 2 * coef(c, j) - coef(cu, j));
        }
        lemma_conv_congruent(p, p, cd, zz, m, k);
        // p * zz == 2*(p*c) - p*(c*u) at k.
        assert forall|j: int| 0 <= j <= k implies coef(zz, j) == 2 * coef(c, j) + (-1) * coef(
            cu,
            j,
        ) by {
            assert(2 * coef(c, j) - coef(cu, j) == 2 * coef(c, j) + (-1) * coef(cu, j))
                by (nonlinear_arith);
        }
        lemma_conv_lin_right(p, c, cu, zz, 2, -1, k);
        // p*(c*u) == (p*c)*u == u*u at k.
        lemma_conv_assoc(p, c, u, k);
        lemma_conv_comm(conv_seq(p, c), u, k);
        lemma_conv_comm(u, u, k);
        // so conv_at(p, zz, k) == 2*coef(u, k) - conv_at(u, u, k).
        lemma_conv_seq_coef(p, c, k);
        assert(conv_at(p, zz, k) == 2 * coef(u, k) + (-1) * conv_at(u, u, k));
        // The square of w = 1 - u expands to delta - 2u + u*u.
        assert forall|t: int| 0 <= t <= k implies coef(w, t) == 1 * coef(unit_seq(), t) + (-1)
            * coef(u, t) by {
            assert(coef(w, t) == delta(t) - coef(u, t));
            assert(coef(unit_seq(), t) == delta(t));
            assert(delta(t) - coef(u, t) == 1 * delta(t) + (-1) * coef(u, t)) by (nonlinear_arith);
        }
        lemma_conv_lin_right(w, unit_seq(), u, w, 1, -1, k);
        lemma_conv_unit_right(w, k);
        lemma_conv_lin_left(unit_seq(), u, w, u, 1, -1, k);
        lemma_conv_unit_left(u, k);
        assert(conv_at(w, w, k) == 1 * coef(w, k) + (-1) * conv_at(w, u, k));
        assert(conv_at(w, u, k) == 1 * coef(u, k) + (-1) * conv_at(u, u, k));
        assert(coef(w, k) == delta(k) - coef(u, k));
        assert(conv_at(w, w, k) == delta(k) - 2 * coef(u, k) + conv_at(u, u, k)) by (nonlinear_arith)
            requires
                conv_at(w, w, k) == 1 * (delta(k) - coef(u, k)) + (-1) * (1 * coef(u, k) + (-1)
                    * conv_at(u, u, k)),
        ;
        // w's low coefficients vanish mod m, hence so does its square at k.
        assert forall|t: int| 0 <= t < h implies #[trigger] (coef(w, t) % m) == 0 by {
            assert(coef(w, t) == delta(t) - conv_at(p, c, t)) by {
                lemma_conv_seq_coef(p, c, t);
            }
            lemma_sub_mod_noop(delta(t), conv_at(p, c, t), m);
            lemma_small_mod(0, m as nat);
            assert((delta(t) % m - conv_at(p, c, t) % m) % m == (delta(t) - conv_at(p, c, t)) % m);
        }
        lemma_conv_sq_vanish(w, m, h, k);
        // Put the pieces together.
        assert(conv_at(p, q, k) % m == (2 * coef(u, k) + (-1) * conv_at(u, u, k)) % m);
        assert(2 * coef(u, k) + (-1) * conv_at(u, u, k) == delta(k) - conv_at(w, w, k))
            by (nonlinear_arith)
            requires
                conv_at(w, w, k) == delta(k) - 2 * coef(u, k) + conv_at(u, u, k),
        ;
        lemma_sub_mod_noop(delta(k), conv_at(w, w, k), m);
        lemma_mod_twice(delta(k), m);
        assert((delta(k) - conv_at(w, w, k)) % m == (delta(k) % m - conv_at(w, w, k) % m) % m);
        assert((delta(k) % m - 0) % m == delta(k) % m);
    }
}


/// The coefficient sequence reversed (degree reversal).
pub open spec fn rev_seq(s: Seq<int>) -> Seq<int> {
    Seq::new(s.len(), |i: int| s[s.len() - 1 - i])
}

proof fn lemma_conv_partial_append_left(x: Seq<int>, e: int, b: Seq<int>, k: int, n: nat)
    requires
        n <= k + 1,
    ensures
        conv_partial(x.push(e), b, k, n) == conv_partial(x, b, k, n) + (if n > x.len() {
            e * coef(b, k - x.len())
        } else {
            0
        }),
    decreases n,
{
    if n > 0 {
        lemma_conv_partial_append_left(x, e, b, k, (n - 1) as nat);
        let i = n - 1;
        if i < x.len() {
            assert(coef(x.push(e), i) == coef(x, i));
        } else if i == x.len() {
            assert(x.push(e)[i] == e);
            assert(coef(x.push(e), i) == e);
            assert(coef(x, i) == 0);
        } else {
            assert(coef(x.push(e), i) == 0);
            assert(coef(x, i) == 0);
        }
    }
}

/// Appending a coefficient of degree `x.len()` adds one term to every
/// product coefficient.
pub proof fn lemma_conv_append_left(x: Seq<int>, e: int, b: Seq<int>, k: int)
    ensures
        conv_at(x.push(e), b, k) == conv_at(x, b, k) + e * coef(b, k - x.len()),
    decreases x.len(),
{
    if k < 0 {
        assert(coef(b, k - x.len()) == 0);
        assert(e * 0 == 0) by (nonlinear_arith);
    } else {
        lemma_conv_partial_append_left(x, e, b, k, (k + 1) as nat);
        if k < x.len() {
            assert(coef(b, k - x.len()) == 0);
            assert(e * 0 == 0) by (nonlinear_arith);
        }
    }
}

/// Degree reversal of both factors reverses the product: coefficient `k` of
/// `rev(a) * rev(b)` is coefficient `deg(a) + deg(b) - k` of `a * b`.
pub proof fn lemma_conv_rev(a: Seq<int>, b: Seq<int>, k: int)
    requires
        1 <= a.len(),
        1 <= b.len(),
    ensures
        conv_at(rev_seq(a), rev_seq(b), k) == conv_at(a, b, (a.len() - 1) + (b.len() - 1) - k),
    decreases a.len(),
{
    let la = a.len() as int;
    let lb = b.len() as int;
    let s_deg = la - 1 + lb - 1;
    if k < 0 {
        lemma_conv_at_vanish(a, b, s_deg - k);
    } else if k > s_deg {
        lemma_conv_at_vanish(rev_seq(a), rev_seq(b), k);
    } else if a.len() == 1 {
        assert(rev_seq(a) =~= a);
        lemma_conv_peel_left(a, rev_seq(b), k);
        let t = a.subrange(1, 1);
        assert(t.len() == 0);
        lemma_conv_zero_left(t, rev_seq(b), k - 1);
        let k2 = s_deg - k;
        lemma_conv_peel_left(a, b, k2);
        lemma_conv_zero_left(t, b, k2 - 1);
        assert(coef(rev_seq(b), k) == coef(b, lb - 1 - k));
    } else {
        let t = a.subrange(1, la);
        assert(rev_seq(a) =~= rev_seq(t).push(a[0]));
        lemma_conv_append_left(rev_seq(t), a[0], rev_seq(b), k);
        lemma_conv_rev(t, b, k);
        lemma_conv_peel_left(a, b, s_deg - k);
        assert(coef(rev_seq(b), k - (la - 1)) == coef(b, s_deg - k)) by {
            if 0 <= k - (la - 1) < lb {
                assert(rev_seq(b)[k - (la - 1)] == b[lb - 1 - (k - (la - 1))]);
            }
        }
        assert(conv_at(rev_seq(t), rev_seq(b), k) == conv_at(t, b, s_deg - 1 - k));
        assert(conv_at(a, b, s_deg - k) == coef(a, 0) * coef(b, s_deg - k) + conv_at(
            t,
            b,
            s_deg - k - 1,
        ));
        assert(a[0] * coef(rev_seq(b), k - rev_seq(t).len()) == coef(a, 0) * coef(b, s_deg - k));
    }
}

proof fn lemma_conv_partial_eq(a: Seq<int>, a2: Seq<int>, b: Seq<int>, b2: Seq<int>, k: int, n: nat)
    requires
        n <= k + 1,
        forall|i: int| 0 <= i <= k ==> coef(a, i) == coef(a2, i),
        forall|i: int| 0 <= i <= k ==> coef(b, i) == coef(b2, i),
    ensures
        conv_partial(a, b, k, n) == conv_partial(a2, b2, k, n),
    decreases n,
{
    if n > 0 {
        lemma_conv_partial_eq(a, a2, b, b2, k, (n - 1) as nat);
    }
}

/// Factors with equal padded coefficients up to `k` have equal product
/// coefficients at `k`.
pub proof fn lemma_conv_eq(a: Seq<int>, a2: Seq<int>, b: Seq<int>, b2: Seq<int>, k: int)
    requires
        forall|i: int| 0 <= i <= k ==> coef(a, i) == coef(a2, i),
        forall|i: int| 0 <= i <= k ==> coef(b, i) == coef(b2, i),
    ensures
        conv_at(a, b, k) == conv_at(a2, b2, k),
{
    if k >= 0 {
        lemma_conv_partial_eq(a, a2, b, b2, k, (k + 1) as nat);
    }
}

/// The exact product of a list of coefficient vectors, folded from the left.
pub open spec fn prod_fold(ps: Seq<Seq<u64>>) -> Seq<int>
    decreases ps.len(),
{
    if ps.len() == 0 {
        unit_seq()
    } else {
        conv_seq(iv(ps[0]), prod_fold(ps.drop_first()))
    }
}

/// The total coefficient count of a list of coefficient vectors.
pub open spec fn sum_lens(ps: Seq<Seq<u64>>) -> int
    decreases ps.len(),
{
    if ps.len() == 0 {
        0
    } else {
        ps[0].len() + sum_lens(ps.drop_first())
    }
}

pub proof fn lemma_sum_lens_nonneg(ps: Seq<Seq<u64>>)
    ensures
        sum_lens(ps) >= 0,
    decreases ps.len(),
{
    if ps.len() > 0 {
        lemma_sum_lens_nonneg(ps.drop_first());
    }
}

pub proof fn lemma_sum_lens_concat(xs: Seq<Seq<u64>>, ys: Seq<Seq<u64>>)
    ensures
        sum_lens(xs.add(ys)) == sum_lens(xs) + sum_lens(ys),
    decreases xs.len(),
{
    if xs.len() == 0 {
        assert(xs.add(ys) =~= ys);
    } else {
        assert(xs.add(ys).drop_first() =~= xs.drop_first().add(ys));
        lemma_sum_lens_concat(xs.drop_first(), ys);
    }
}

/// Splitting a product list anywhere gives the convolution of the two
/// partial products: the fold is associative.
pub proof fn lemma_prod_fold_concat(xs: Seq<Seq<u64>>, ys: Seq<Seq<u64>>, k: int)
    ensures
        coef(prod_fold(xs.add(ys)), k) == conv_at(prod_fold(xs), prod_fold(ys), k),
    decreases xs.len(),
{
    if xs.len() == 0 {
        assert(xs.add(ys) =~= ys);
        lemma_conv_unit_left(prod_fold(ys), k);
    } else {
        let t = xs.drop_first();
        let ft = prod_fold(t);
        let fy = prod_fold(ys);
        assert(xs.add(ys).drop_first() =~= t.add(ys));
        assert(xs.add(ys)[0] == xs[0]);
        lemma_conv_seq_coef(iv(xs[0]), prod_fold(t.add(ys)), k);
        assert forall|i: int| 0 <= i <= k implies coef(prod_fold(t.add(ys)), i) == coef(
            conv_seq(ft, fy),
            i,
        ) by {
            lemma_prod_fold_concat(t, ys, i);
            lemma_conv_seq_coef(ft, fy, i);
        }
        lemma_conv_eq(iv(xs[0]), iv(xs[0]), prod_fold(t.add(ys)), conv_seq(ft, fy), k);
        lemma_conv_assoc(iv(xs[0]), ft, fy, k);
        lemma_conv_seq_coef(iv(xs[0]), ft, k);
    }
}

/// The formal derivative over the integers: coefficient `i` is
/// `(i+1) * s[i+1]`.
pub open spec fn deriv_int(s: Seq<int>) -> Seq<int> {
    Seq::new(if s.len() == 0 {
        0
    } else {
        (s.len() - 1) as nat
    }, |i: int| (i + 1) * coef(s, i + 1))
}

/// `coef` of the integer derivative, at every index.
pub proof fn lemma_deriv_int_coef(s: Seq<int>, j: int)
    ensures
        coef(deriv_int(s), j) == (if j >= 0 {
            (j + 1) * coef(s, j + 1)
        } else {
            0
        }),
{
    let d = deriv_int(s);
    if 0 <= j < d.len() {
    } else if j >= 0 {
        assert(coef(s, j + 1) == 0);
        assert((j + 1) * 0 == 0) by (nonlinear_arith);
    }
}

proof fn lemma_conv_partial_deriv(a: Seq<int>, b: Seq<int>, wa: Seq<int>, wb: Seq<int>, k: int, n: nat)
    requires
        0 <= k,
        n <= k + 2,
        forall|i: int| #[trigger] coef(wa, i) == i * coef(a, i),
        forall|i: int| #[trigger] coef(wb, i) == i * coef(b, i),
    ensures
        (k + 1) * conv_partial(a, b, k + 1, n) == conv_partial(wa, b, k + 1, n) + conv_partial(
            a,
            wb,
            k + 1,
            n,
        ),
    decreases n,
{
    if n == 0 {
        assert((k + 1) * 0 == 0) by (nonlinear_arith);
    } else {
        lemma_conv_partial_deriv(a, b, wa, wb, k, (n - 1) as nat);
        let i = n - 1;
        let j = k + 1 - i;
        assert((k + 1) * (conv_partial(a, b, k + 1, (n - 1) as nat) + coef(a, i) * coef(b, j)) == (
        k + 1) * conv_partial(a, b, k + 1, (n - 1) as nat) + (i * coef(a, i)) * coef(b, j) + coef(
            a,
            i,
        ) * (j * coef(b, j))) by (nonlinear_arith)
            requires
                i + j == k + 1,
        ;
    }
}

/// The product rule for convolutions: the derivative of a product is the
/// sum of the two one-sided derivatives.
pub proof fn lemma_conv_deriv(a: Seq<int>, b: Seq<int>, k: int)
    requires
        0 <= k,
    ensures
        (k + 1) * conv_at(a, b, k + 1) == conv_at(deriv_int(a), b, k) + conv_at(
            a,
            deriv_int(b),
            k,
        ),
{
    let wa = Seq::new(a.len(), |i: int| i * coef(a, i));
    let wb = Seq::new(b.len(), |i: int| i * coef(b, i));
    assert forall|i: int| #[trigger] coef(wa, i) == i * coef(a, i) by {
        if !(0 <= i < a.len()) {
            assert(coef(a, i) == 0);
            assert(i * 0 == 0) by (nonlinear_arith);
        }
    }
    assert forall|i: int| #[trigger] coef(wb, i) == i * coef(b, i) by {
        if !(0 <= i < b.len()) {
            assert(coef(b, i) == 0);
            assert(i * 0 == 0) by (nonlinear_arith);
        }
    }
    lemma_conv_partial_deriv(a, b, wa, wb, k, (k + 2) as nat);
    // The weighted sequences are the shifted derivatives.
    if a.len() == 0 {
        lemma_conv_zero_left(wa, b, k + 1);
        lemma_conv_zero_left(deriv_int(a), b, k);
        assert(conv_at(wa, b, k + 1) == 0);
    } else {
        assert(wa =~= shift1(deriv_int(a))) by {
            assert forall|i: int| 0 <= i < a.len() implies wa[i] == shift1(deriv_int(a))[i] by {
                if i == 0 {
                    assert(wa[0] == 0 * coef(a, 0));
                    assert(0 * coef(a, 0) == 0) by (nonlinear_arith);
                } else {
                    lemma_deriv_int_coef(a, i - 1);
                    assert(shift1(deriv_int(a))[i] == coef(deriv_int(a), i - 1));
                }
            }
        }
        lemma_conv_shift_left(deriv_int(a), b, k + 1);
    }
    if b.len() == 0 {
        lemma_conv_zero_right(a, wb, k + 1);
        lemma_conv_zero_right(a, deriv_int(b), k);
    } else {
        assert(wb =~= shift1(deriv_int(b))) by {
            assert forall|i: int| 0 <= i < b.len() implies wb[i] == shift1(deriv_int(b))[i] by {
                if i == 0 {
                    assert(wb[0] == 0 * coef(b, 0));
                    assert(0 * coef(b, 0) == 0) by (nonlinear_arith);
                } else {
                    lemma_deriv_int_coef(b, i - 1);
                    assert(shift1(deriv_int(b))[i] == coef(deriv_int(b), i - 1));
                }
            }
        }
        lemma_conv_comm(a, wb, k + 1);
        lemma_conv_shift_left(deriv_int(b), a, k + 1);
        lemma_conv_comm(deriv_int(b), a, k);
    }
}

proof fn lemma_conv_partial_vanish_two(
    u: Seq<int>,
    v: Seq<int>,
    m: int,
    hu: int,
    hv: int,
    k: int,
    n: nat,
)
    requires
        1 <= m,
        0 <= hu,
        1 <= hv,
        0 <= k < hu + hv,
        n <= k + 1,
        forall|t: int| 0 <= t < hu ==> #[trigger] (coef(u, t) % m) == 0,
        forall|t: int| 0 <= t < hv ==> #[trigger] (coef(v, t) % m) == 0,
    ensures
        conv_partial(u, v, k, n) % m == 0,
    decreases n,
{
    lemma_small_mod(0, m as nat);
    if n > 0 {
        lemma_conv_partial_vanish_two(u, v, m, hu, hv, k, (n - 1) as nat);
        let i = n - 1;
        let j = k - i;
        if i < hu {
            lemma_mul_mod_noop_left(coef(u, i), coef(v, j), m);
            assert((coef(u, i) % m) * coef(v, j) == 0) by (nonlinear_arith)
                requires
                    coef(u, i) % m == 0,
            ;
        } else {
            assert(j < hv);
            lemma_mul_mod_noop(coef(u, i), coef(v, j), m);
            assert((coef(u, i) % m) * (coef(v, j) % m) == 0) by (nonlinear_arith)
                requires
                    coef(v, j) % m == 0,
            ;
        }
        lemma_add_mod_noop(conv_partial(u, v, k, (n - 1) as nat), coef(u, i) * coef(v, j), m);
    }
}

/// If the coefficients of `u` vanish mod `m` below `hu` and those of `v`
/// below `hv`, the product's coefficients vanish below `hu + hv`.
pub proof fn lemma_conv_vanish_two(u: Seq<int>, v: Seq<int>, m: int, hu: int, hv: int, k: int)
    requires
        1 <= m,
        0 <= hu,
        1 <= hv,
        0 <= k < hu + hv,
        forall|t: int| 0 <= t < hu ==> #[trigger] (coef(u, t) % m) == 0,
        forall|t: int| 0 <= t < hv ==> #[trigger] (coef(v, t) % m) == 0,
    ensures
        conv_at(u, v, k) % m == 0,
{
    lemma_conv_partial_vanish_two(u, v, m, hu, hv, k, (k + 1) as nat);
}

/// A right factor whose coefficients vanish mod `m` up to `k` kills the
/// product's coefficient at `k`, mod `m`.
pub proof fn lemma_conv_vanish_right(u: Seq<int>, v: Seq<int>, m: int, k: int)
    requires
        1 <= m,
        forall|t: int| 0 <= t <= k ==> #[trigger] (coef(v, t) % m) == 0,
    ensures
        conv_at(u, v, k) % m == 0,
{
    lemma_small_mod(0, m as nat);
    if k >= 0 {
        lemma_conv_vanish_two(u, v, m, 0, k + 1, k);
    }
}

/// A fast-convolution strategy: a stateless capability that multiplies two
/// coefficient vectors over the residue ring of `md`. Implementations are
/// pure functions; there is no instance data.
pub trait Convolution {
    /// Exact (non-truncated) polynomial multiplication. The result carries
    /// every coefficient of the product, reduced, and has length
    /// `a.len() + b.len() - 1`; a single zero coefficient stands for the
    /// product with an empty factor.
    fn convolution(a: &Vec<u64>, b: &Vec<u64>, md: &Modulus) -> (r: Vec<u64>)
        requires
            md.wf(),
            reduced(a@, md.modulus),
            reduced(b@, md.modulus),
            a@.len() + b@.len() <= usize::MAX,
        ensures
            r@.len() == (if a@.len() == 0 || b@.len() == 0 {
                1int
            } else {
                a@.len() + b@.len() - 1
            }),
            reduced(r@, md.modulus),
            forall|k: int| #[trigger] coef(iv(r@), k) == conv_at(iv(a@), iv(b@), k) % (
            md.modulus as int),
    ;

    /// Squares a series; semantically identical to `convolution(a, a)`, kept
    /// separate as an optimization hook for strategies with a faster
    /// self-convolution path.
    fn pow2(a: &Vec<u64>, md: &Modulus) -> (r: Vec<u64>)
        requires
            md.wf(),
            reduced(a@, md.modulus),
            a@.len() + a@.len() <= usize::MAX,
        ensures
            r@.len() == (if a@.len() == 0 {
                1int
            } else {
                a@.len() + a@.len() - 1
            }),
            reduced(r@, md.modulus),
            forall|k: int| #[trigger] coef(iv(r@), k) == conv_at(iv(a@), iv(a@), k) % (
            md.modulus as int),
    ;
}

/// A formal-inverse capability on top of a convolution strategy.
pub trait PolyInverse: Convolution {
    /// The truncated multiplicative inverse: a length-`n` coefficient vector
    /// `r` with `a * r = 1 (mod x^n)` over the residue ring. The constant
    /// term of `a` must be invertible.
    fn inverse(a: &Vec<u64>, n: usize, md: &Modulus) -> (r: Vec<u64>)
        requires
            md.wf(),
            reduced(a@, md.modulus),
            1 <= a@.len(),
            gcd(a@[0] as nat, md.modulus as nat) == 1,
            1 <= n,
            n <= usize::MAX / 2,
        ensures
            r@.len() == n,
            reduced(r@, md.modulus),
            forall|k: int|
                0 <= k < n ==> #[trigger] (conv_at(iv(a@), iv(r@), k) % (md.modulus as int))
                    == delta(k) % (md.modulus as int),
    ;
}

/// The brute-force strategy: schoolbook quadratic convolution. Correct over
/// any modulus; a drop-in stand-in for an NTT-based strategy.
pub struct NaiveConvolution;

impl Convolution for NaiveConvolution {
    fn convolution(a: &Vec<u64>, b: &Vec<u64>, md: &Modulus) -> (r: Vec<u64>) {
        let m = md.modulus;
        let ghost ai = iv(a@);
        let ghost bi = iv(b@);
        if a.len() == 0 || b.len() == 0 {
            let mut r: Vec<u64> = Vec::new();
            r.push(0);
            proof {
                lemma_small_mod(0, m as nat);
                assert forall|k: int| #[trigger] coef(iv(r@), k) == conv_at(ai, bi, k) % (
                    m as int) by {
                    if a@.len() == 0 {
                        lemma_conv_zero_left(ai, bi, k);
                    } else {
                        lemma_conv_zero_right(ai, bi, k);
                    }
                    assert(coef(iv(r@), k) == 0);
                }
            }
            return r;
        }
        let len = a.len() + b.len() - 1;
        let mut r: Vec<u64> = Vec::new();
        let mut k: usize = 0;
        while k < len
            invariant
                md.wf(),
                m == md.modulus,
                reduced(a@, m),
                reduced(b@, m),
                1 <= a@.len(),
                1 <= b@.len(),
                a@.len() + b@.len() <= usize::MAX,
                len == a@.len() + b@.len() - 1,
                k <= len,
                r@.len() == k,
                ai == iv(a@),
                bi == iv(b@),
                forall|j: int| 0 <= j < k ==> r@[j] < m,
                forall|j: int| 0 <= j < k ==> r@[j] as int == conv_at(ai, bi, j) % (m as int),
            decreases len - k,
        {
            let mut acc: u64 = 0;
            let mut i: usize = 0;
            proof {
                lemma_small_mod(0, m as nat);
            }
            while i < k + 1
                invariant
                    md.wf(),
                    m == md.modulus,
                    reduced(a@, m),
                    reduced(b@, m),
                    ai == iv(a@),
                    bi == iv(b@),
                    k < len,
                    len == a@.len() + b@.len() - 1,
                    len <= usize::MAX - 1,
                    i <= k + 1,
                    acc < m,
                    acc as int == conv_partial(ai, bi, k as int, i as nat) % (m as int),
                decreases k + 1 - i,
            {
                let ghost prev = conv_partial(ai, bi, k as int, i as nat);
                if i < a.len() && k - i < b.len() {
                    let t = md.mul(a[i], b[k - i]);
                    let ghost term = coef(ai, i as int) * coef(bi, k - i);
                    proof {
                        assert(coef(ai, i as int) == a@[i as int] as int);
                        assert(coef(bi, k - i) == b@[k - i] as int);
                        lemma_add_mod_noop(prev, term, m as int);
                    }
                    acc = md.add(acc, t);
                } else {
                    proof {
                        if i >= a@.len() {
                            assert(coef(ai, i as int) == 0);
                        } else {
                            assert(coef(bi, k - i) == 0);
                        }
                        assert(conv_partial(ai, bi, k as int, (i + 1) as nat) == prev);
                    }
                }
                i += 1;
            }
            r.push(acc);
            k += 1;
        }
        proof {
            assert forall|kk: int| #[trigger] coef(iv(r@), kk) == conv_at(ai, bi, kk) % (
                m as int) by {
                lemma_small_mod(0, m as nat);
                if 0 <= kk < len {
                    assert(coef(iv(r@), kk) == r@[kk] as int);
                } else {
                    assert(coef(iv(r@), kk) == 0);
                    if kk >= len {
                        lemma_conv_at_vanish(ai, bi, kk);
                    }
                }
            }
        }
        r
    }

    fn pow2(a: &Vec<u64>, md: &Modulus) -> (r: Vec<u64>) {
        Self::convolution(a, a, md)
    }
}

impl PolyInverse for NaiveConvolution {
    fn inverse(a: &Vec<u64>, n: usize, md: &Modulus) -> (r: Vec<u64>) {
        let mut p: Vec<u64> = Vec::new();
        let mut i: usize = 0;
        while i < n
            invariant
                i <= n,
                p@.len() == i,
                1 <= a@.len(),
                reduced(a@, md.modulus),
                forall|j: int| 0 <= j < i ==> p@[j] == coef(iv(a@), j),
            decreases n - i,
        {
            if i < a.len() {
                p.push(a[i]);
            } else {
                p.push(0);
            }
            i += 1;
        }
        let r = inverse_newton::<Self>(&p, md);
        proof {
            let m = md.modulus as int;
            assert forall|k: int|
                0 <= k < n implies #[trigger] (conv_at(iv(a@), iv(r@), k) % m) == delta(k)
                % m by {
                assert forall|j: int| 0 <= j <= k implies coef(iv(p@), j) % m == coef(iv(a@), j)
                    % m by {
                    assert(coef(iv(p@), j) == p@[j] as int);
                }
                lemma_conv_congruent(iv(p@), iv(a@), iv(r@), iv(r@), m, k);
            }
        }
        r
    }
}

/// Newton's iteration for the truncated inverse, doubling precision: invert
/// the low half recursively, then apply one correction step through two
/// convolutions of the strategy `C`.
fn inverse_newton<C: Convolution>(p: &Vec<u64>, md: &Modulus) -> (r: Vec<u64>)
    requires
        md.wf(),
        reduced(p@, md.modulus),
        1 <= p@.len(),
        p@.len() <= usize::MAX / 2,
        gcd(p@[0] as nat, md.modulus as nat) == 1,
    ensures
        r@.len() == p@.len(),
        reduced(r@, md.modulus),
        forall|k: int|
            0 <= k < p@.len() ==> #[trigger] (conv_at(iv(p@), iv(r@), k) % (md.modulus as int))
                == delta(k) % (md.modulus as int),
    decreases p@.len(),
{
    let ghost m = md.modulus as int;
    if p.len() == 1 {
        let x = md.inv(p[0]).unwrap();
        let mut r: Vec<u64> = Vec::new();
        r.push(x);
        proof {
            lemma_conv_at_zero(iv(p@), iv(r@));
            assert(coef(iv(p@), 0) == p@[0] as int);
            assert(coef(iv(r@), 0) == x as int);
            assert(conv_at(iv(p@), iv(r@), 0) == p@[0] as int * x as int);
        }
        r
    } else {
        let m_len = p.len();
        let half = (m_len + 1) / 2;
        let mut pre: Vec<u64> = Vec::new();
        let mut i: usize = 0;
        while i < half
            invariant
                i <= half,
                half <= p@.len(),
                pre@.len() == i,
                reduced(p@, md.modulus),
                forall|j: int| 0 <= j < i ==> pre@[j] == p@[j],
            decreases half - i,
        {
            pre.push(p[i]);
            i += 1;
        }
        let c = inverse_newton::<C>(&pre, md);
        proof {
            assert forall|k: int|
                0 <= k < half implies #[trigger] (conv_at(iv(p@), iv(c@), k) % m) == delta(k)
                % m by {
                assert forall|jj: int| 0 <= jj <= k implies coef(iv(pre@), jj) % m == coef(
                    iv(p@),
                    jj,
                ) % m by {
                    assert(pre@[jj] == p@[jj]);
                }
                lemma_conv_congruent(iv(pre@), iv(p@), iv(c@), iv(c@), m, k);
            }
        }
        let ac_full = C::convolution(p, &c, md);
        let two = 2 % md.modulus;
        let mut ac: Vec<u64> = Vec::new();
        let mut j: usize = 0;
        while j < m_len
            invariant
                md.wf(),
                m == md.modulus as int,
                j <= m_len,
                m_len == p@.len(),
                ac@.len() == j,
                two == 2u64 % md.modulus,
                ac_full@.len() >= m_len,
                reduced(ac_full@, md.modulus),
                forall|t: int| #[trigger] coef(iv(ac_full@), t) == conv_at(iv(p@), iv(c@), t) % m,
                forall|jj: int| 0 <= jj < j ==> ac@[jj] < md.modulus,
                forall|jj: int|
                    0 <= jj < j ==> #[trigger] (ac@[jj] as int % m) == (2 * delta(jj) - conv_at(
                        iv(p@),
                        iv(c@),
                        jj,
                    )) % m,
            decreases m_len - j,
        {
            let ghost cv = conv_at(iv(p@), iv(c@), j as int);
            let neg = md.sub(0, ac_full[j]);
            proof {
                assert(coef(iv(ac_full@), j as int) == ac_full@[j as int] as int);
                assert(ac_full@[j as int] as int == cv % m);
                lemma_sub_mod_noop_right(0, cv, m);
                assert(neg as int == (0 - cv) % m);
            }
            let v = if j == 0 {
                let vv = md.add(neg, two);
                proof {
                    lemma_add_mod_noop(0 - cv, 2, m);
                    assert(vv as int == (2 - cv) % m);
                    assert(2 * delta(0) - cv == 2 - cv);
                }
                vv
            } else {
                proof {
                    assert(2 * delta(j as int) - cv == 0 - cv);
                }
                neg
            };
            proof {
                if j == 0 {
                    lemma_mod_twice(2 - cv, m);
                } else {
                    lemma_mod_twice(0 - cv, m);
                }
                assert(v as int % m == (2 * delta(j as int) - cv) % m);
            }
            ac.push(v);
            j += 1;
        }
        let r_full = C::convolution(&c, &ac, md);
        let mut r: Vec<u64> = Vec::new();
        let mut t: usize = 0;
        while t < m_len
            invariant
                t <= m_len,
                m_len <= r_full@.len(),
                r@.len() == t,
                reduced(r_full@, md.modulus),
                forall|jj: int| 0 <= jj < t ==> r@[jj] == r_full@[jj],
            decreases m_len - t,
        {
            r.push(r_full[t]);
            t += 1;
        }
        proof {
            assert forall|jj: int| 0 <= jj < m_len implies #[trigger] (coef(iv(r@), jj) % m)
                == conv_at(iv(c@), iv(ac@), jj) % m by {
                assert(coef(iv(r@), jj) == r@[jj] as int);
                assert(r@[jj] == r_full@[jj]);
                assert(coef(iv(r_full@), jj) == r_full@[jj] as int);
                lemma_mod_twice(conv_at(iv(c@), iv(ac@), jj), m);
            }
            assert forall|jj: int| 0 <= jj < m_len implies #[trigger] (coef(iv(ac@), jj) % m) == (2
                * delta(jj) - conv_at(iv(p@), iv(c@), jj)) % m by {
                assert(coef(iv(ac@), jj) == ac@[jj] as int);
            }
            lemma_newton_step(iv(p@), iv(c@), iv(ac@), iv(r@), m, half as int, m_len as int);
        }
        r
    }
}

} // verus!
