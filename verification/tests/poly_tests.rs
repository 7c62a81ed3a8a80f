use poly_engine::convolve::NaiveConvolution;
use poly_engine::modnum::Modulus;
use poly_engine::poly::Poly;

type P = Poly<NaiveConvolution>;

const NTT_MOD: u64 = 998244353;

fn md(m: u64) -> Modulus {
    Modulus::new(m, 3)
}

#[test]
fn trimming_keeps_low_coefficients() {
    let m = md(97);
    assert_eq!(P::new(vec![0, 5, 0, 0], &m).to_vec(), vec![0, 5]);
    assert_eq!(P::new(vec![0, 0, 0], &m).to_vec(), vec![0]);
    assert_eq!(P::new(vec![], &m).to_vec(), vec![0]);
    assert_eq!(P::new(vec![7], &m).to_vec(), vec![7]);
}

#[test]
fn add_sub_mul_basics() {
    let m = md(97);
    let a = P::new(vec![1, 2, 3], &m);
    let b = P::new(vec![4, 5], &m);
    assert_eq!(a.add(&b, &m).to_vec(), vec![5, 7, 3]);
    assert_eq!(a.sub(&b, &m).to_vec(), vec![94, 94, 3]);
    assert_eq!(a.mul(&b, &m).to_vec(), vec![4, 13, 22, 15]);
    // Cancellation trims: (x + 1) - (x) = 1.
    let c = P::new(vec![1, 1], &m);
    let d = P::new(vec![0, 1], &m);
    assert_eq!(c.sub(&d, &m).to_vec(), vec![1]);
}

#[test]
fn modular_and_shifts() {
    let m = md(97);
    let a = P::new(vec![1, 2, 3, 4], &m);
    assert_eq!(a.modular(2, &m).to_vec(), vec![1, 2]);
    assert_eq!(a.modular(0, &m).to_vec(), vec![0]);
    assert_eq!(a.modular(10, &m).to_vec(), vec![1, 2, 3, 4]);
    assert_eq!(a.left_shift(2, &m).to_vec(), vec![3, 4]);
    assert_eq!(a.right_shift(2, &m).to_vec(), vec![0, 0, 1, 2, 3, 4]);
    let z = P::zero(&m);
    assert_eq!(z.right_shift(3, &m).to_vec(), vec![0]);
}

#[test]
fn dot_and_apply() {
    let m = md(97);
    let a = P::new(vec![1, 2, 3], &m);
    let b = P::new(vec![2, 2], &m);
    assert_eq!(a.dot(&b, &m).to_vec(), vec![2, 4]);
    // 1 + 2x + 3x^2 at x = 2: 1 + 4 + 12 = 17.
    assert_eq!(a.apply(2, &m), 17);
    assert_eq!(P::zero(&m).apply(5, &m), 0);
}

#[test]
fn pow2_matches_mul() {
    let m = md(NTT_MOD);
    let a = P::new(vec![1, 2, 3], &m);
    assert_eq!(a.pow2(&m).to_vec(), a.mul(&a, &m).to_vec());
}

#[test]
fn inverse_of_one_plus_x_is_alternating() {
    // The geometric-series expansion of 1/(1+x), reduced mod an NTT-friendly
    // modulus.
    let m = md(NTT_MOD);
    let p = P::new(vec![1, 1], &m);
    let inv = p.inverse(4, &m);
    assert_eq!(inv.to_vec(), vec![1, NTT_MOD - 1, 1, NTT_MOD - 1]);
}

#[test]
fn inverse_of_one_plus_x_non_prime_modulus() {
    // The same expansion over a non-prime-power modulus.
    let m = md(10);
    let p = P::new(vec![1, 1], &m);
    let inv = p.inverse(4, &m);
    assert_eq!(inv.to_vec(), vec![1, 9, 1, 9]);
}

#[test]
fn inverse_times_series_is_one() {
    let m = md(7);
    let p = P::new(vec![2, 3, 4], &m);
    let inv = p.inverse(5, &m);
    assert_eq!(p.mul(&inv, &m).modular(5, &m).to_vec(), vec![1]);
}

#[test]
fn division_scenario() {
    // (1 + x + x^2) / (1 + x) has quotient x and remainder 1.
    let m = md(NTT_MOD);
    let p = P::new(vec![1, 1, 1], &m);
    let q = P::new(vec![1, 1], &m);
    let (quot, rem) = p.divider_and_remainder(&q, &m);
    assert_eq!(quot.iter().clone(), vec![0, 1]);
    assert_eq!(rem.iter().clone(), vec![1]);
    // Round trip: q * quot + rem == p.
    let back = q.mul(&quot, &m).add(&rem, &m);
    assert_eq!(back.to_vec(), p.to_vec());
}

#[test]
fn division_round_trip_and_rank() {
    let m = md(97);
    let a = P::new(vec![5, 0, 3, 7, 2], &m);
    let b = P::new(vec![1, 4, 1], &m);
    let (q, r) = a.divider_and_remainder(&b, &m);
    let back = b.mul(&q, &m).add(&r, &m);
    assert_eq!(back.to_vec(), a.to_vec());
    assert!(r.to_vec().len() < b.to_vec().len());
}

#[test]
fn division_by_higher_degree_is_zero() {
    let m = md(97);
    let a = P::new(vec![1, 2], &m);
    let b = P::new(vec![1, 2, 3], &m);
    assert_eq!(a.div(&b, &m).to_vec(), vec![0]);
    assert_eq!(a.rem(&b, &m).to_vec(), a.to_vec());
}

#[test]
fn differential_and_integral() {
    let m = md(97);
    let a = P::new(vec![5, 3, 4], &m);
    assert_eq!(a.differential(&m).to_vec(), vec![3, 8]);
    // Differentiating a constant gives zero.
    assert_eq!(P::new(vec![9], &m).differential(&m).to_vec(), vec![0]);
    // integral of 1 + 2x + 3x^2 is x + x^2 + x^3.
    let p = P::new(vec![1, 2, 3], &m);
    assert_eq!(p.integral(&m).to_vec(), vec![0, 1, 1, 1]);
}

#[test]
fn differential_of_integral_round_trip() {
    let m = md(NTT_MOD);
    let p = P::new(vec![4, 0, 11, 5], &m);
    let back = p.integral(&m).differential(&m);
    assert_eq!(back.to_vec(), p.to_vec());
}

#[test]
fn ln_exp_round_trip() {
    let m = md(NTT_MOD);
    let f = P::new(vec![1, 3, 5], &m);
    let lnf = f.ln(8, &m);
    let back = lnf.exp(8, &m);
    assert_eq!(back.modular(8, &m).to_vec(), f.to_vec());
}

#[test]
fn exp_ln_round_trip() {
    let m = md(NTT_MOD);
    let g = P::new(vec![0, 2, 7], &m);
    let eg = g.exp(8, &m);
    let back = eg.ln(8, &m);
    assert_eq!(back.modular(8, &m).to_vec(), g.to_vec());
}

#[test]
fn exp_conventions() {
    let m = md(NTT_MOD);
    let g = P::new(vec![0, 1], &m);
    assert_eq!(g.exp(0, &m).to_vec(), vec![0]);
    assert_eq!(g.exp(1, &m).to_vec(), vec![1]);
    // exp(x) to 5 terms: 1 + x + x^2/2 + x^3/6 + x^4/24.
    let e = g.exp(5, &m).to_vec();
    assert_eq!(e[0], 1);
    assert_eq!(e[1], 1);
    let two_inv = m.inv(2).unwrap();
    assert_eq!(e[2], two_inv);
}

#[test]
fn downgrade_mod_fibonacci() {
    // Modulus x^2 - x - 1 (the Fibonacci recurrence); exponent 5 spelled
    // most-significant bit first. x^5 mod M has coefficients [3, 5], and
    // evaluating them against consecutive Fibonacci pairs reproduces
    // Fibonacci(5) and Fibonacci(6).
    let m = md(NTT_MOD);
    let modulus_poly = P::new(vec![NTT_MOD - 1, NTT_MOD - 1, 1], &m);
    let r = modulus_poly.downgrade_mod(&vec![1, 0, 1], &m);
    let coeffs = r.to_vec();
    assert_eq!(coeffs, vec![3, 5]);
    // Fibonacci: F0=0 F1=1 F2=1 ... F5=5, F6=8.
    assert_eq!(coeffs[0] * 0 + coeffs[1] * 1, 5);
    assert_eq!(coeffs[0] * 1 + coeffs[1] * 1, 8);
}

#[test]
fn downgrade_mod_constant_modulus_is_zero() {
    let m = md(7);
    let c = P::new(vec![5], &m);
    assert_eq!(c.downgrade_mod(&vec![1, 1], &m).to_vec(), vec![0]);
}

#[test]
fn downgrade_mod_small_exponents() {
    // x^e mod (x^2 - 2) for a few exponents, checked against direct
    // remainder computation.
    let m = md(97);
    let modp = P::new(vec![95, 0, 1], &m);
    // e = 4 (bits 100): x^4 = (x^2)^2 = 4 mod (x^2 - 2).
    let r = modp.downgrade_mod(&vec![1, 0, 0], &m);
    assert_eq!(r.to_vec(), vec![4]);
    // e = 3 (bits 11): x^3 = 2x mod (x^2 - 2).
    let r3 = modp.downgrade_mod(&vec![1, 1], &m);
    assert_eq!(r3.to_vec(), vec![0, 2]);
}

#[test]
fn batch_mul_balanced_product() {
    let m = md(97);
    let ps = vec![
        P::new(vec![1, 1], &m),
        P::new(vec![1, 1], &m),
        P::new(vec![1, 2], &m),
    ];
    assert_eq!(P::batch_mul(&ps, &m).to_vec(), vec![1, 4, 5, 2]);
    let single = vec![P::new(vec![3, 1], &m)];
    assert_eq!(P::batch_mul(&single, &m).to_vec(), vec![3, 1]);
}

#[test]
fn convolution_delta_window() {
    // Coefficient j of the window is sum over t of a[t] * b[t - j].
    let m = md(97);
    let a = P::new(vec![1, 2, 3], &m);
    let b = P::new(vec![1, 1], &m);
    assert_eq!(P::convolution_delta(&a, &b, &m).to_vec(), vec![3, 5, 3]);
}

#[test]
fn constants_and_queries() {
    let m = md(10);
    assert_eq!(P::zero(&m).to_vec(), vec![0]);
    assert_eq!(P::one(&m).to_vec(), vec![1]);
    assert_eq!(P::with_constant(7, &m).to_vec(), vec![7]);
    let p = P::new(vec![1, 2, 3], &m);
    assert_eq!(p.rank(), 2);
    assert!(!p.is_zero());
    assert!(P::zero(&m).is_zero());
    assert_eq!(p.iter().clone(), vec![1, 2, 3]);
}
