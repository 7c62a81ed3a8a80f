//! Ring laws relating the polynomial operations, stated over the same views
//! and characterizations that the operations' own contracts use.

use vstd::prelude::*;
use vstd::arithmetic::div_mod::{
    lemma_mod_bound, lemma_mul_mod_noop_left, lemma_small_mod, lemma_sub_mod_noop,
};
use crate::convolve::{
    coef, conv_at, delta, deriv_int, iv, lemma_conv_comm, lemma_conv_lin_right,
    lemma_conv_vanish_right, lemma_deriv_int_coef,
};
use crate::modnum::{gcd, lemma_mod_cancel, reduced};
use crate::poly::{deriv_seq, lemma_deriv_seq_int, trimmed, lemma_trimmed_unique};

verus! {

/// Inverse correctness: whenever `q` inverts `a` to precision `n` (as
/// `Poly::inverse` guarantees), `p` holds the coefficients of `a * q` (as
/// `Poly::mul` guarantees) and `t` is `p mod x^n` trimmed (as
/// `Poly::modular` guarantees), then `t` is exactly the
/// multiplicative-identity polynomial.
pub proof fn lemma_inverse_law(a: Seq<u64>, q: Seq<u64>, p: Seq<u64>, t: Seq<u64>, m: u64, n: int)
    requires
        1 <= m,
        1 <= n,
        reduced(p, m),
        trimmed(t),
        reduced(t, m),
        forall|k: int|
            0 <= k < n ==> #[trigger] (conv_at(iv(a), iv(q), k) % (m as int)) == delta(k) % (
            m as int),
        forall|k: int| #[trigger] coef(iv(p), k) == conv_at(iv(a), iv(q), k) % (m as int),
        forall|i: int| #[trigger] coef(iv(t), i) == (if i < n {
            coef(iv(p), i)
        } else {
            0
        }),
    ensures
        t.len() == 1,
        t[0] as int == 1int % (m as int),
{
    lemma_small_mod(0, m as nat);
    assert(coef(iv(t), 0) == 1int % (m as int));
    assert forall|i: int| 1 <= i implies #[trigger] coef(iv(t), i) == 0 by {
        if i < n {
            assert(coef(iv(p), i) == conv_at(iv(a), iv(q), i) % (m as int));
            assert(delta(i) == 0);
        }
    }
    if t.len() > 1 {
        assert(coef(iv(t), t.len() - 1) == t[t.len() - 1] as int);
        assert(coef(iv(t), t.len() - 1) == 0);
        assert(false);
    }
    assert(t[0] as int == coef(iv(t), 0));
}

/// Differential/integral round trip: differentiating the integral of `p`
/// gives back exactly `p` (the integral pins the constant term to zero, so
/// only this direction holds in general).
pub proof fn lemma_differential_integral_law(p: Seq<u64>, q: Seq<u64>, d: Seq<u64>, m: u64)
    requires
        1 <= m,
        trimmed(p),
        reduced(p, m),
        trimmed(d),
        reduced(d, m),
        // q is the integral of p, as Poly::integral guarantees:
        forall|i: int|
            0 <= i ==> #[trigger] ((coef(iv(q), i + 1) * ((i + 1) % (m as int))) % (m as int))
                == coef(iv(p), i) % (m as int),
        // d is the differential of q, as Poly::differential guarantees:
        forall|j: int| #[trigger] coef(iv(d), j) == coef(deriv_seq(iv(q), m as int), j),
    ensures
        d == p,
{
    lemma_small_mod(0, m as nat);
    assert forall|j: int| #[trigger] coef(iv(d), j) == coef(iv(p), j) by {
        if j < 0 {
        } else {
            let w = (j + 1) % (m as int);
            assert(coef(iv(d), j) == coef(deriv_seq(iv(q), m as int), j));
            assert(coef(deriv_seq(iv(q), m as int), j) == (coef(iv(q), j + 1) * w) % (m as int))
                by {
                let dq = deriv_seq(iv(q), m as int);
                if 0 <= j < dq.len() {
                } else {
                    assert(coef(iv(q), j + 1) == 0);
                    assert(0 * w == 0) by (nonlinear_arith);
                    assert(coef(dq, j) == 0);
                    assert((0int) % (m as int) == 0);
                }
            }
            assert((coef(iv(q), j + 1) * w) % (m as int) == coef(iv(p), j) % (m as int));
            assert(coef(iv(p), j) % (m as int) == coef(iv(p), j)) by {
                if 0 <= j < p.len() {
                    lemma_small_mod(p[j] as nat, m as nat);
                }
            }
        }
    }
    lemma_trimmed_unique(d, p);
}


/// Solutions of the formal differential equation `y' = d * y` that share a
/// constant term agree coefficient by coefficient: the equation determines
/// each next coefficient from the earlier ones.
proof fn lemma_ode_unique(d: Seq<int>, r: Seq<int>, f: Seq<int>, m: int, n: int, bound: int)
    requires
        1 <= m,
        bound <= n,
        coef(r, 0) % m == coef(f, 0) % m,
        forall|i: int| 1 <= i <= n ==> gcd((#[trigger] (i % m)) as nat, m as nat) == 1,
        forall|k: int|
            0 <= k < n - 1 ==> #[trigger] (((k + 1) * coef(r, k + 1)) % m) == conv_at(d, r, k)
                % m,
        forall|k: int|
            0 <= k < n - 1 ==> #[trigger] (((k + 1) * coef(f, k + 1)) % m) == conv_at(d, f, k)
                % m,
    ensures
        forall|t: int| 0 <= t < bound ==> #[trigger] ((coef(r, t) - coef(f, t)) % m) == 0,
    decreases (if bound > 0 {
        bound
    } else {
        0int
    }),
{
    lemma_small_mod(0, m as nat);
    if bound > 0 {
        lemma_ode_unique(d, r, f, m, n, bound - 1);
        let t = bound - 1;
        if t == 0 {
            lemma_sub_mod_noop(coef(r, 0), coef(f, 0), m);
        } else {
            let k = t - 1;
            // t*(r_t - f_t) is d * (r - f) at k, which vanishes.
            let rf = Seq::new((n) as nat, |i: int| coef(r, i) - coef(f, i));
            assert forall|i: int|
                0 <= i <= k implies coef(rf, i) == 1 * coef(r, i) + (-1) * coef(f, i) by {
                assert(1 * coef(r, i) + (-1) * coef(f, i) == coef(r, i) - coef(f, i))
                    by (nonlinear_arith);
            }
            lemma_conv_lin_right(d, r, f, rf, 1, -1, k);
            assert forall|i: int| 0 <= i <= k implies #[trigger] (coef(rf, i) % m) == 0 by {
                assert((coef(r, i) - coef(f, i)) % m == 0);
            }
            lemma_conv_vanish_right(d, rf, m, k);
            assert(conv_at(d, rf, k) == 1 * conv_at(d, r, k) + (-1) * conv_at(d, f, k));
            assert(conv_at(d, rf, k) == conv_at(d, r, k) - conv_at(d, f, k)) by (nonlinear_arith)
                requires
                    conv_at(d, rf, k) == 1 * conv_at(d, r, k) + (-1) * conv_at(d, f, k),
            ;
            lemma_sub_mod_noop(conv_at(d, r, k), conv_at(d, f, k), m);
            lemma_sub_mod_noop(t * coef(r, t), t * coef(f, t), m);
            assert((t * coef(r, t) - t * coef(f, t)) % m == 0);
            assert(t * coef(r, t) - t * coef(f, t) == t * (coef(r, t) - coef(f, t)))
                by (nonlinear_arith);
            lemma_mod_bound(t, m);
            lemma_mul_mod_noop_left(t, coef(r, t) - coef(f, t), m);
            lemma_mod_cancel(t % m, coef(r, t) - coef(f, t), m);
        }
        assert(forall|tt: int| 0 <= tt < bound ==> #[trigger] ((coef(r, tt) - coef(f, tt)) % m)
            == 0);
    }
}

/// Exponential of the logarithm: if `l` is the logarithm of `f` to
/// precision `n` (as `Poly::ln` guarantees) and `r` the exponential of `l`
/// (as `Poly::exp` guarantees), then `r` agrees with `f` on every
/// coefficient below `n`.
pub proof fn lemma_exp_ln_law(f: Seq<u64>, l: Seq<u64>, r: Seq<u64>, m: u64, n: int)
    requires
        1 <= m,
        0 <= n,
        f.len() >= 1,
        f[0] as int == 1int % (m as int),
        forall|i: int|
            1 <= i <= n ==> gcd((#[trigger] (i % (m as int))) as nat, m as nat) == 1,
        // ln's guarantees for l against f:
        coef(iv(l), 0) == 0,
        forall|k: int|
            0 <= k < n - 1 ==> #[trigger] (conv_at(iv(f), deriv_seq(iv(l), m as int), k) % (
            m as int)) == coef(deriv_seq(iv(f), m as int), k) % (m as int),
        // exp's guarantees for r against l:
        n >= 1 ==> coef(iv(r), 0) == 1int % (m as int),
        forall|k: int|
            0 <= k < n - 1 ==> #[trigger] (((k + 1) * coef(iv(r), k + 1)) % (m as int))
                == conv_at(deriv_int(iv(l)), iv(r), k) % (m as int),
    ensures
        forall|t: int| 0 <= t < n ==> #[trigger] ((coef(iv(r), t) - coef(iv(f), t)) % (
        m as int)) == 0,
{
    let mi = m as int;
    let d = deriv_int(iv(l));
    // f also solves y' = l' * y, by ln's identity.
    assert forall|k: int|
        0 <= k < n - 1 implies #[trigger] (((k + 1) * coef(iv(f), k + 1)) % mi) == conv_at(
        d,
        iv(f),
        k,
    ) % mi by {
        assert forall|i: int| 0 <= i <= k implies coef(deriv_seq(iv(l), mi), i) % mi == coef(
            d,
            i,
        ) % mi by {
            lemma_deriv_seq_int(iv(l), mi, i);
        }
        crate::convolve::lemma_conv_congruent(iv(f), iv(f), deriv_seq(iv(l), mi), d, mi, k);
        lemma_conv_comm(iv(f), d, k);
        lemma_conv_comm(iv(f), deriv_seq(iv(l), mi), k);
        lemma_deriv_seq_int(iv(f), mi, k);
        lemma_deriv_int_coef(iv(f), k);
        vstd::arithmetic::div_mod::lemma_mod_twice((k + 1) * coef(iv(f), k + 1), mi);
    }
    if n >= 1 {
        assert(coef(iv(r), 0) % mi == coef(iv(f), 0) % mi) by {
            assert(coef(iv(f), 0) == 1int % mi);
            vstd::arithmetic::div_mod::lemma_mod_twice(1int, mi);
        }
        lemma_ode_unique(d, iv(r), iv(f), mi, n, n);
    }
}

/// Logarithm of the exponential: if `e` is the exponential of `g` to
/// precision `n` (as `Poly::exp` guarantees, `g` with zero constant term)
/// and `l` the logarithm of `e`, then `l` agrees with `g` on every
/// coefficient below `n`.
pub proof fn lemma_ln_exp_law(g: Seq<u64>, e: Seq<u64>, l: Seq<u64>, m: u64, n: int)
    requires
        1 <= m,
        0 <= n,
        e.len() >= 1,
        coef(iv(g), 0) == 0,
        forall|i: int|
            1 <= i <= n ==> gcd((#[trigger] (i % (m as int))) as nat, m as nat) == 1,
        // exp's guarantees for e against g:
        n >= 1 ==> coef(iv(e), 0) == 1int % (m as int),
        forall|k: int|
            0 <= k < n - 1 ==> #[trigger] (((k + 1) * coef(iv(e), k + 1)) % (m as int))
                == conv_at(deriv_int(iv(g)), iv(e), k) % (m as int),
        // ln's guarantees for l against e:
        coef(iv(l), 0) == 0,
        forall|k: int|
            0 <= k < n - 1 ==> #[trigger] (conv_at(iv(e), deriv_seq(iv(l), m as int), k) % (
            m as int)) == coef(deriv_seq(iv(e), m as int), k) % (m as int),
    ensures
        forall|t: int| 0 <= t < n ==> #[trigger] ((coef(iv(l), t) - coef(iv(g), t)) % (
        m as int)) == 0,
{
    let mi = m as int;
    if n >= 1 {
        let dl = deriv_int(iv(l));
        let dg = deriv_int(iv(g));
        // e * (l' - g') vanishes below n-1.
        let vv = Seq::new((n - 1) as nat, |j: int| coef(dl, j) - coef(dg, j));
        assert forall|j: int| 0 <= j < n - 1 implies #[trigger] (conv_at(iv(e), vv, j) % mi)
            == 0 by {
            assert forall|i: int|
                0 <= i <= j implies coef(vv, i) == 1 * coef(dl, i) + (-1) * coef(dg, i) by {
                assert(1 * coef(dl, i) + (-1) * coef(dg, i) == coef(dl, i) - coef(dg, i))
                    by (nonlinear_arith);
            }
            lemma_conv_lin_right(iv(e), dl, dg, vv, 1, -1, j);
            assert(conv_at(iv(e), vv, j) == 1 * conv_at(iv(e), dl, j) + (-1) * conv_at(
                iv(e),
                dg,
                j,
            ));
            // e*l' matches e' by the ln identity, and e*g' matches e' by the
            // exp identity.
            assert forall|i: int| 0 <= i <= j implies coef(deriv_seq(iv(l), mi), i) % mi == coef(
                dl,
                i,
            ) % mi by {
                lemma_deriv_seq_int(iv(l), mi, i);
            }
            crate::convolve::lemma_conv_congruent(iv(e), iv(e), deriv_seq(iv(l), mi), dl, mi, j);
            lemma_deriv_seq_int(iv(e), mi, j);
            lemma_deriv_int_coef(iv(e), j);
            lemma_conv_comm(iv(e), dg, j);
            vstd::arithmetic::div_mod::lemma_mod_twice((j + 1) * coef(iv(e), j + 1), mi);
            lemma_sub_mod_noop(conv_at(iv(e), dl, j), conv_at(iv(e), dg, j), mi);
            assert(1 * conv_at(iv(e), dl, j) + (-1) * conv_at(iv(e), dg, j) == conv_at(
                iv(e),
                dl,
                j,
            ) - conv_at(iv(e), dg, j)) by (nonlinear_arith);
            lemma_small_mod(0, m as nat);
        }
        assert(coef(iv(e), 0) % mi == 1int % mi) by {
            vstd::arithmetic::div_mod::lemma_mod_twice(1int, mi);
        }
        crate::poly::lemma_series_cancel(iv(e), vv, mi, n - 1);
        // So l' = g' below n-1; with equal constant terms, l = g below n.
        assert forall|t: int| 0 <= t < n implies #[trigger] ((coef(iv(l), t) - coef(iv(g), t))
            % mi) == 0 by {
            lemma_small_mod(0, m as nat);
            if t == 0 {
            } else {
                assert(coef(vv, t - 1) % mi == 0);
                assert(coef(vv, t - 1) == coef(dl, t - 1) - coef(dg, t - 1));
                lemma_deriv_int_coef(iv(l), t - 1);
                lemma_deriv_int_coef(iv(g), t - 1);
                assert(t * coef(iv(l), t) - t * coef(iv(g), t) == t * (coef(iv(l), t) - coef(
                    iv(g),
                    t,
                ))) by (nonlinear_arith);
                lemma_mod_bound(t, mi);
                lemma_mul_mod_noop_left(t, coef(iv(l), t) - coef(iv(g), t), mi);
                lemma_mod_cancel(t % mi, coef(iv(l), t) - coef(iv(g), t), mi);
            }
        }
    }
}

} // verus!
