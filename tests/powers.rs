use ramp::addsub::{add_to, cmp, sub_from};
use ramp::exponent::{bit_length, window_value};
use ramp::montgomery::modpow_by_montgomery;
use ramp::mtgy::{reduce_mod, MtgyModulus};

fn generic_pow(a: &[u64], b: &[u64], m: &[u64]) -> Vec<u64> {
    let mut w = vec![0u64; m.len()];
    ramp::modpow::modpow(&mut w, m, m.len(), a, a.len(), b, b.len());
    w
}

#[test]
fn modpow_small() {
    // 5^7 = 78125 = 8 mod 13
    assert_eq!(generic_pow(&[5], &[7], &[13]), vec![8]);
}

#[test]
fn modpow_even_modulus_and_edges() {
    assert_eq!(generic_pow(&[3], &[100], &[1000]), vec![1]);
    assert_eq!(generic_pow(&[3], &[], &[1000]), vec![1]);
    assert_eq!(generic_pow(&[0], &[0], &[1000]), vec![1]);
    assert_eq!(generic_pow(&[0], &[5], &[1]), vec![0]);
    assert_eq!(generic_pow(&[0], &[0], &[1]), vec![0]);
    assert_eq!(generic_pow(&[123456789], &[65], &[1000003]), vec![113761]);
}

#[test]
fn modpow_two_limbs() {
    // 7^(2^64 + 5) mod (2^64 + 13)
    let r = generic_pow(&[7, 0], &[5, 1], &[13, 1]);
    assert_eq!(r, vec![6686645976746628970, 0]);
}

#[test]
fn modpow_agrees_with_montgomery() {
    let mut p = vec![!0u64; 3];
    p.push(0x7fff_ffff_ffff_ffff);
    let a = vec![0x1234_5678_9abc_def0u64, 42, 7, 1];
    let e = vec![0xdead_beefu64, 0x55];
    let by_division = generic_pow(&a, &e, &p);
    let mg = MtgyModulus::new(&p);
    let by_mtgy = mg.to_int(&mg.pow(&mg.to_mtgy(&a), &e));
    let mut d = by_division.clone();
    while d.last() == Some(&0) {
        d.pop();
    }
    assert_eq!(d, by_mtgy);
}

#[test]
fn modpow_by_montgomery_1009() {
    let mg = MtgyModulus::new(&vec![1009]);
    let a = mg.to_mtgy(&vec![2]).to_limbs();
    let mut w = mg.to_mtgy(&vec![1]).to_limbs();
    modpow_by_montgomery(&mut w, 1, &[1009], &a, &[10], 1);
    assert_eq!(w, mg.to_mtgy(&vec![1024]).to_limbs());
}

#[test]
fn bit_length_values() {
    assert_eq!(bit_length(&[], 0), 0);
    assert_eq!(bit_length(&[0, 0], 2), 0);
    assert_eq!(bit_length(&[1], 1), 1);
    assert_eq!(bit_length(&[0x80, 0], 2), 8);
    assert_eq!(bit_length(&[0, 1], 2), 65);
    assert_eq!(bit_length(&[5, !0], 2), 128);
}

#[test]
fn window_value_reads_bits() {
    // 0b1011_0110 = 182; windows of 3 bits from the bottom: 6, 6, 2
    let b = [182u64];
    assert_eq!(window_value(&b, 1, 8, 0, 3), 6);
    assert_eq!(window_value(&b, 1, 8, 1, 3), 6);
    assert_eq!(window_value(&b, 1, 8, 2, 3), 2);
    // a window across a limb boundary
    let c = [1u64 << 63, 1];
    assert_eq!(window_value(&c, 2, 65, 9, 7), 3);
}

#[test]
fn reduce_mod_values() {
    assert_eq!(reduce_mod(&[100], 1, &[7], 1), vec![2]);
    assert_eq!(reduce_mod(&[0, 1], 2, &[10], 1), vec![6]);
    assert_eq!(reduce_mod(&[], 0, &[10], 1), vec![0]);
}

#[test]
fn add_sub_cmp_helpers() {
    let mut w = vec![!0u64, !0, 0];
    let c = add_to(&mut w, 0, 2, &[1], 0, 1);
    assert_eq!(c, 1);
    assert_eq!(w, vec![0, 0, 0]);
    let b = sub_from(&mut w, 0, 3, &[1], 0, 1);
    assert_eq!(b, 1);
    assert_eq!(w, vec![!0, !0, !0]);
    assert_eq!(cmp(&[1, 2], 0, &[2, 1], 0, 2), core::cmp::Ordering::Greater);
    assert_eq!(cmp(&[1, 2], 0, &[1, 2], 0, 2), core::cmp::Ordering::Equal);
    assert_eq!(cmp(&[9, 1], 0, &[0, 2], 0, 2), core::cmp::Ordering::Less);
}
