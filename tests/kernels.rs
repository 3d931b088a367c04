use ramp::kernels::{addmul_1, mul_1, submul_1};
use ramp::mul::{mul_basecase, mul_rec, mul_toom22, mul_unbalanced, sqr, sqr_rec, sqr_toom2};

fn lcg_limbs(seed: u64, n: usize) -> Vec<u64> {
    let mut s = seed;
    let mut v = Vec::with_capacity(n);
    for _ in 0..n {
        s = s.wrapping_mul(6364136223846793005).wrapping_add(1442695040888963407);
        v.push(s ^ (s >> 29));
    }
    v
}

fn product_by_basecase(x: &[u64], y: &[u64]) -> Vec<u64> {
    let mut w = vec![0u64; x.len() + y.len()];
    mul_basecase(&mut w, 0, x, 0, x.len(), y, 0, y.len());
    w
}

#[test]
fn test_mul_1() {
    let half_limb: u64 = 1 << 63;
    let cases: Vec<(Vec<u64>, u64, Vec<u64>, u64)> = vec![
        (vec![1], 2, vec![2], 0),
        (vec![0, 1], 2, vec![0, 2], 0),
        (vec![1, 1], 2, vec![2, 2], 0),
        (vec![1, 1, 1], 2, vec![2, 2, 2], 0),
        (vec![1, 1, 1, 1], 2, vec![2, 2, 2, 2], 0),
        (vec![1, 2, 3, 4, 5], 2, vec![2, 4, 6, 8, 10], 0),
        (vec![half_limb], 2, vec![0], 1),
        (vec![0, half_limb], 2, vec![0, 0], 1),
        (vec![0, 0, half_limb], 2, vec![0, 0, 0], 1),
        (vec![0, 0, 0, half_limb], 2, vec![0, 0, 0, 0], 1),
        (vec![0, 0, 0, 0, half_limb], 2, vec![0, 0, 0, 0, 0], 1),
        (vec![!0], !0, vec![1], !0 - 1),
    ];
    for (a, l, x, x_c) in cases {
        let mut res = vec![0u64; a.len()];
        let carry = mul_1(&mut res, 0, &a, 0, a.len(), l);
        assert_eq!(x_c, carry, "wrong carry testing {:?} * {}", a, l);
        assert_eq!(x, res, "wrong result testing {:?} * {}", a, l);
    }
}

#[test]
fn test_mul_basecase() {
    let cases: Vec<(Vec<u64>, Vec<u64>, Vec<u64>)> = vec![
        (vec![0, 0], vec![0, 0], vec![0, 0, 0, 0]),
        (vec![1, 0], vec![1, 0], vec![1, 0, 0, 0]),
        (vec![!0, !0], vec![1, 0], vec![!0, !0, 0, 0]),
        (vec![!0, !0], vec![!0, !0], vec![1, 0, !0 - 1, !0]),
        (vec![!0, !0, !0], vec![!0, !0, !0], vec![1, 0, 0, !0 - 1, !0, !0]),
        (vec![1], vec![1, 2, 3], vec![1, 2, 3, 0]),
        (vec![1], vec![1, 2, 3, 4], vec![1, 2, 3, 4, 0]),
        (vec![0, 2], vec![1, 2, 3, 4], vec![0, 2, 4, 6, 8, 0]),
    ];
    for (x, y, exp) in cases {
        let w = product_by_basecase(&x, &y);
        assert_eq!(exp, w, "wrong result testing {:?}*{:?}={:?} ", x, y, w);
    }
}

#[test]
fn mul_1_in_the_middle_of_a_buffer() {
    let x = vec![7u64, 1, 2, 3, 9];
    let mut w = vec![5u64; 6];
    let carry = mul_1(&mut w, 2, &x, 1, 3, 10);
    assert_eq!(carry, 0);
    assert_eq!(w, vec![5, 5, 10, 20, 30, 5]);
}

#[test]
fn addmul_1_accumulates_with_carry() {
    let mut w = vec![!0u64, !0];
    let x = vec![1u64, 0];
    let carry = addmul_1(&mut w, 0, &x, 0, 2, 1);
    assert_eq!(w, vec![0, 0]);
    assert_eq!(carry, 1);
    let mut w2 = vec![3u64, 4];
    let carry2 = addmul_1(&mut w2, 0, &[!0u64, !0], 0, 2, !0);
    // 3 + 4 B + (B^2 - 1)(B - 1) = 4 + 3 B + (B - 1) B^2
    assert_eq!(w2, vec![4, 3]);
    assert_eq!(carry2, !0);
}

#[test]
fn submul_1_borrows() {
    let mut w = vec![0u64, 0];
    let borrow = submul_1(&mut w, 0, &[1u64, 0], 0, 2, 1);
    assert_eq!(w, vec![!0, !0]);
    assert_eq!(borrow, 1);
    let mut w2 = vec![10u64, 20];
    let borrow2 = submul_1(&mut w2, 0, &[1u64, 2], 0, 2, 3);
    assert_eq!(w2, vec![7, 14]);
    assert_eq!(borrow2, 0);
}

#[test]
fn single_limb_products() {
    let w = product_by_basecase(&[!0u64], &[!0u64]);
    assert_eq!(w, vec![1, !0 - 1]);
}

#[test]
fn karatsuba_agrees_with_schoolbook() {
    for &(xs, ys) in &[(20usize, 20usize), (21, 21), (19, 19), (21, 20), (40, 30), (41, 40), (64, 63), (33, 20), (23, 13)] {
        let x = lcg_limbs(xs as u64 * 31 + 7, xs);
        let y = lcg_limbs(ys as u64 * 17 + 3, ys);
        let expect = product_by_basecase(&x, &y);
        let mut w = vec![0u64; xs + ys];
        mul_toom22(&mut w, 0, &x, 0, xs, &y, 0, ys);
        assert_eq!(w, expect, "toom22 {}x{}", xs, ys);
        let mut w2 = vec![0u64; xs + ys];
        ramp::mul::mul(&mut w2, 0, &x, 0, xs, &y, 0, ys);
        assert_eq!(w2, expect, "mul {}x{}", xs, ys);
        let mut w3 = vec![0u64; xs + ys];
        mul_rec(&mut w3, 0, &x, 0, xs, &y, 0, ys);
        assert_eq!(w3, expect, "mul_rec {}x{}", xs, ys);
    }
}

#[test]
fn karatsuba_with_high_half_larger() {
    // x0 < x1 and y0 < y1: both differences change sign.
    let mut x = vec![0u64; 21];
    let mut y = vec![0u64; 21];
    for i in 0..21 {
        x[i] = if i < 11 { 1 } else { !0 };
        y[i] = if i < 11 { !0 } else { 3 };
    }
    let expect = product_by_basecase(&x, &y);
    let mut w = vec![0u64; 42];
    mul_toom22(&mut w, 0, &x, 0, 21, &y, 0, 21);
    assert_eq!(w, expect);
}

#[test]
fn unbalanced_agrees_with_schoolbook() {
    for &(xs, ys) in &[(60usize, 20usize), (100, 21), (45, 30), (87, 25)] {
        let x = lcg_limbs(xs as u64 + 101, xs);
        let y = lcg_limbs(ys as u64 + 202, ys);
        let expect = product_by_basecase(&x, &y);
        let mut w = vec![0u64; xs + ys];
        mul_unbalanced(&mut w, 0, &x, 0, xs, &y, 0, ys);
        assert_eq!(w, expect, "unbalanced {}x{}", xs, ys);
        let mut w2 = vec![0u64; xs + ys];
        ramp::mul::mul(&mut w2, 0, &x, 0, xs, &y, 0, ys);
        assert_eq!(w2, expect, "mul {}x{}", xs, ys);
    }
}

#[test]
fn square_agrees_with_product() {
    for &xs in &[1usize, 2, 19, 20, 21, 40, 57] {
        let x = lcg_limbs(xs as u64 + 5, xs);
        let expect = product_by_basecase(&x, &x);
        let mut w = vec![0u64; 2 * xs];
        sqr(&mut w, 0, &x, 0, xs);
        assert_eq!(w, expect, "sqr {}", xs);
        let mut w2 = vec![0u64; 2 * xs];
        sqr_rec(&mut w2, 0, &x, 0, xs);
        assert_eq!(w2, expect, "sqr_rec {}", xs);
        if xs >= 2 {
            let mut w3 = vec![0u64; 2 * xs];
            sqr_toom2(&mut w3, 0, &x, 0, xs);
            assert_eq!(w3, expect, "sqr_toom2 {}", xs);
        }
    }
}

#[test]
fn products_leave_the_rest_of_the_buffer() {
    let x = lcg_limbs(1, 25);
    let y = lcg_limbs(2, 22);
    let expect = product_by_basecase(&x, &y);
    let mut w = vec![0xabcdu64; 3 + 47 + 2];
    ramp::mul::mul(&mut w, 3, &x, 0, 25, &y, 0, 22);
    assert_eq!(&w[3..50], &expect[..]);
    assert_eq!(&w[..3], &[0xabcd, 0xabcd, 0xabcd]);
    assert_eq!(&w[50..], &[0xabcd, 0xabcd]);
}
