use poly_engine::modnum::{DynamicModInt, Modulus, MF64};
use poly_engine::sparse_table::SparseTable;

#[test]
fn modulus_ring_operations() {
    let m = Modulus::new(97, 5);
    assert_eq!(m.add(90, 10), 3);
    assert_eq!(m.add(1, 2), 3);
    assert_eq!(m.sub(3, 5), 95);
    assert_eq!(m.sub(5, 3), 2);
    assert_eq!(m.mul(10, 10), 3);
    // 3 * 33 = 99 = 2 mod 97, so 2 / 3 = 33.
    assert_eq!(m.div(2, 3), 33);
}

#[test]
fn modulus_set_repoints() {
    let mut m = Modulus::new(5, 2);
    m.set(11, 2);
    assert_eq!(m.modulus, 11);
    assert_eq!(m.one, 1);
    assert_eq!(m.zero, 0);
    assert_eq!(m.primitive_root, 2);
    assert_eq!(m.add(10, 10), 9);
}

#[test]
fn modular_inverse_exists_iff_coprime() {
    let m = Modulus::new(10, 3);
    assert_eq!(m.inv(3), Some(7));
    assert_eq!(m.inv(9), Some(9));
    assert_eq!(m.inv(2), None);
    assert_eq!(m.inv(5), None);
    assert_eq!(m.inv(0), None);
    let p = Modulus::new(7, 3);
    for a in 1..7u64 {
        let x = p.inv(a).expect("prime modulus: every nonzero residue inverts");
        assert_eq!(a * x % 7, 1);
    }
}

#[test]
fn modulus_of_one_collapses_everything() {
    let m = Modulus::new(1, 1);
    assert_eq!(m.one, 0);
    assert_eq!(m.add(0, 0), 0);
    // Every residue is invertible in the trivial ring.
    assert_eq!(m.inv(0), Some(0));
}

#[test]
fn huge_modulus_arithmetic() {
    let big = u64::MAX - 58; // close to 2^64, exercises the overflow paths
    let m = Modulus::new(big, 3);
    assert_eq!(m.add(big - 1, big - 1), big - 2);
    assert_eq!(m.sub(0, 1), big - 1);
    assert_eq!(m.mul(big - 1, big - 1), 1);
}

#[test]
fn dynamic_modint_values() {
    let m = Modulus::new(13, 2);
    let a = DynamicModInt::new(9, m);
    let b = DynamicModInt::new(7, m);
    assert_eq!(a.value(), 9);
    assert_eq!(a.add(&b).value(), 3);
    assert_eq!(a.sub(&b).value(), 2);
    assert_eq!(a.mul(&b).value(), 11);
    let inv = a.possible_inv().expect("9 and 13 are coprime");
    assert_eq!(inv.value() * 9 % 13, 1);
    assert_eq!(a.div(&b).mul(&b).value(), 9);
}

#[test]
fn dynamic_modint_no_inverse() {
    let m = Modulus::new(12, 5);
    let a = DynamicModInt::new(8, m);
    assert!(a.possible_inv().is_none());
}

#[test]
fn sparse_table_minimum_queries() {
    let data = vec![3, 1, 4, 2];
    let st = SparseTable::new(&data);
    assert_eq!(st.query(1, 1), 1);
    assert_eq!(st.query(0, 1), 1);
    assert_eq!(st.query(2, 3), 2);
    assert_eq!(st.query(0, 3), 1);
    assert_eq!(st.query(2, 2), 4);
}

#[test]
fn sparse_table_larger_sequence() {
    let data = vec![9, 8, 7, 1, 5, 6, 2, 3, 4, 10, 0];
    let st = SparseTable::new(&data);
    for l in 0..data.len() {
        for r in l..data.len() {
            let expected = *data[l..=r].iter().min().unwrap();
            assert_eq!(st.query(l, r), expected);
        }
    }
}

#[test]
fn factory_supplies_ntt_modulus() {
    let a = DynamicModInt::from_factory::<MF64>(998244352);
    let b = DynamicModInt::from_factory::<MF64>(2);
    assert_eq!(a.add(&b).value(), 1);
}
