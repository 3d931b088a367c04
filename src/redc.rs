use vstd::prelude::*;

use core::cmp::Ordering;

use vstd::arithmetic::div_mod::{
    lemma_add_mod_noop, lemma_fundamental_div_mod, lemma_mod_multiples_vanish, lemma_mul_mod_noop_left,
    lemma_mul_mod_noop_right, lemma_small_mod,
};

use vstd::arithmetic::power2::{
    lemma2_to64, lemma2_to64_rest, lemma_pow2_strictly_increases, lemma_pow2_unfold, pow2,
};

use crate::addsub::{cmp, copy_incr, incr, sub_from};
use crate::kernels::addmul_1;
use crate::limb::{mul_hilo, radix};
use crate::value::{
    base_pow, lemma_base_pow_adds, lemma_base_pow_mono, lemma_base_pow_pos, lemma_val_bound,
    lemma_val_low_limb,
    lemma_val_split, lemma_val_zeros, same_outside, val, val_at,
};

verus! {

/// One lifting step: from an inverse modulo `p` to one modulo `2 p`.
proof fn lemma_hensel_step(x: int, y: int, p: int)
    requires
        p >= 2,
        x >= 0,
        y >= 0,
        x % 2 == 1,
        (x * y) % p == 1,
    ensures
        (x * y) % (2 * p) > p ==> (x * (y + p)) % (2 * p) == 1,
        (x * y) % (2 * p) <= p ==> (x * y) % (2 * p) == 1,
{
    let q = (x * y) / (2 * p);
    let r = (x * y) % (2 * p);
    lemma_fundamental_div_mod(x * y, 2 * p);
    assert(x * y == (2 * p) * q + r);
    assert(x * y == p * (2 * q) + r) by (nonlinear_arith)
        requires
            x * y == (2 * p) * q + r,
    ;
    lemma_mod_multiples_vanish(2 * q, r, p);
    assert(r % p == 1);
    lemma_fundamental_div_mod(r, p);
    let rq = r / p;
    assert(0 <= r < 2 * p);
    assert(r == p * rq + 1);
    assert(0 <= rq <= 1) by (nonlinear_arith)
        requires
            r == p * rq + 1,
            0 <= r < 2 * p,
            p >= 2,
    ;
    if rq == 1 {
        assert(r == p + 1) by (nonlinear_arith)
            requires
                r == p * rq + 1,
                rq == 1,
        ;
        let k = x / 2;
        lemma_fundamental_div_mod(x, 2);
        assert(x == 2 * k + 1);
        assert(x * (y + p) == (2 * p) * (q + k + 1) + 1) by (nonlinear_arith)
            requires
                x * y == (2 * p) * q + r,
                r == p + 1,
                x == 2 * k + 1,
        ;
        lemma_mod_multiples_vanish(q + k + 1, 1, 2 * p);
        lemma_small_mod(1, (2 * p) as nat);
    } else {
        assert(r == 1) by (nonlinear_arith)
            requires
                r == p * rq + 1,
                rq == 0,
        ;
    }
}

/// The inverse of an odd limb modulo the radix, by Hensel lifting.
pub fn inv1(x: u64) -> (y: u64)
    requires
        x % 2 == 1,
    ensures
        (x * y) % (radix() as int) == 1,
{
    let mut y: u64 = 1;
    // `bit` is `2^i`; `y` is an inverse modulo `bit`.
    let mut bit: u64 = 2;
    let mut i: u32 = 1;
    proof {
        lemma2_to64();
        lemma2_to64_rest();
        assert((x * 1) % 2 == 1);
    }
    while i < 63
        invariant
            1 <= i <= 63,
            bit == pow2(i as nat),
            0 < y < bit,
            x % 2 == 1,
            (x * y) % (bit as int) == 1,
            pow2(63) == 0x8000_0000_0000_0000u64,
        decreases 63 - i,
    {
        proof {
            lemma_pow2_strictly_increases(i as nat, 63);
            lemma_hensel_step(x as int, y as int, bit as int);
        }
        assert((x as u128) * (y as u128) <= 0xffff_ffff_ffff_fffe_0000_0000_0000_0001u128) by (nonlinear_arith)
            requires
                x <= 0xffff_ffff_ffff_ffffu64,
                y <= 0xffff_ffff_ffff_ffffu64,
        ;
        let p: u128 = (x as u128) * (y as u128);
        let r: u128 = p % (2 * bit as u128);
        if (bit as u128) < r {
            y = y + bit;
        }
        proof {
            lemma_pow2_unfold((i + 1) as nat);
        }
        bit = bit * 2;
        i = i + 1;
    }
    assert((x as u128) * (y as u128) <= 0xffff_ffff_ffff_fffe_0000_0000_0000_0001u128) by (nonlinear_arith)
        requires
            x <= 0xffff_ffff_ffff_ffffu64,
            y <= 0xffff_ffff_ffff_ffffu64,
    ;
    let p: u128 = (x as u128) * (y as u128);
    proof {
        lemma_hensel_step(x as int, y as int, bit as int);
    }
    if (bit as u128) < p % (2 * bit as u128) {
        y = y + bit;
    }
    y
}

/// The inverse of an odd limb modulo the radix (the same lifting as `inv1`).
pub fn single_limb_montgomery_inverse(x: u64) -> (y: u64)
    requires
        x % 2 == 1,
    ensures
        (x * y) % (radix() as int) == 1,
{
    inv1(x)
}

/// `a + ((a * nq) mod radix) * n0` is a multiple of the radix when `n0 * nq == -1`.
proof fn lemma_redc_digit(a: int, nq: int, n0: int)
    requires
        0 <= a,
        0 <= nq,
        0 <= n0,
        (n0 * nq + 1) % (radix() as int) == 0,
    ensures
        (a + ((a * nq) % (radix() as int)) * n0) % (radix() as int) == 0,
{
    let b = radix() as int;
    lemma_mul_mod_noop_left(a * nq, n0, b);
    lemma_add_mod_noop(a, ((a * nq) % b) * n0, b);
    lemma_add_mod_noop(a, (a * nq) * n0, b);
    assert(a + (a * nq) * n0 == a * (n0 * nq + 1)) by (nonlinear_arith);
    lemma_mul_mod_noop_right(a, n0 * nq + 1, b);
}

/// The value of `t` after one reduction step, region by region.
proof fn lemma_redc_step_value(
    l: int,
    mid: int,
    hi: int,
    mid_a: int,
    c: int,
    hi_c: int,
    c2: int,
    m: int,
    nv: int,
    pr: int,
    pri: int,
    pi: int,
    ptop: int,
)
    requires
        mid_a + c * pr == mid + nv * m,
        hi_c + c2 * pri == hi + c,
        pr * pri * pi == ptop,
    ensures
        l + (mid_a + hi_c * pr) * pi + c2 * ptop == l + (mid + hi * pr) * pi + m * nv * pi,
{
    assert((mid_a + hi_c * pr) + c2 * (pri * pr) == mid + hi * pr + m * nv) by (nonlinear_arith)
        requires
            mid_a + c * pr == mid + m * nv,
            hi_c + c2 * pri == hi + c,
    ;
    assert(l + (mid_a + hi_c * pr) * pi + c2 * ptop == l + (mid + hi * pr + m * nv) * pi) by (nonlinear_arith)
        requires
            (mid_a + hi_c * pr) + c2 * (pri * pr) == mid + hi * pr + m * nv,
            pr * pri * pi == ptop,
    ;
    assert((mid + hi * pr + m * nv) * pi == (mid + hi * pr) * pi + m * nv * pi) by (nonlinear_arith);
}

/// Montgomery reduction. For `t < N R` in `2 r + 1` limbs, with `N` the `r` limbs
/// of `n` and `R = radix^r`, writes to the `r` limbs of `w` the value `t / R mod N`:
/// below `N`, and `N`-congruent to `t` once multiplied by `R`. `t` is used up.
/// `nquote0` is `-1 / N` modulo the radix.
pub fn redc(w: &mut Vec<u64>, r_limbs: usize, n: &[u64], nquote0: u64, t: &mut Vec<u64>)
    requires
        0 < r_limbs,
        r_limbs <= old(w).len(),
        r_limbs <= n.len(),
        old(t).len() == 2 * r_limbs + 1,
        (n@[0] * nquote0 + 1) % (radix() as int) == 0,
        val(old(t)@) < val_at(n@, 0, r_limbs as int) * base_pow(r_limbs as nat),
    ensures
        final(t).len() == old(t).len(),
        same_outside(final(w)@, old(w)@, 0, r_limbs as int),
        val_at(final(w)@, 0, r_limbs as int) < val_at(n@, 0, r_limbs as int),
        (val_at(final(w)@, 0, r_limbs as int) * base_pow(r_limbs as nat)) % val_at(
            n@,
            0,
            r_limbs as int,
        ) == val(old(t)@) % val_at(n@, 0, r_limbs as int),
{
    let r = r_limbs;
    let ghost t0 = val(t@) as int;
    let ghost nv = val_at(n@, 0, r as int) as int;
    let ghost rr = base_pow(r as nat) as int;
    let ghost mut acc: int = 0;
    proof {
        lemma_val_bound(n@.subrange(0, r as int));
        lemma_base_pow_pos(r as nat);
        lemma_base_pow_adds(r as nat, r as nat);
        lemma_base_pow_adds((2 * r) as nat, 1);
        assert(base_pow(1) == radix() * base_pow(0));
        assert(base_pow(0) == 1);
        assert(nv >= 1) by (nonlinear_arith)
            requires
                t0 < nv * rr,
                t0 >= 0,
                rr >= 1,
        ;
        assert(nv * rr < rr * rr) by (nonlinear_arith)
            requires
                nv < rr,
                rr >= 1,
        ;
        assert(2 * (rr * rr) <= rr * rr * radix()) by (nonlinear_arith)
            requires
                rr >= 1,
                radix() == 0x1_0000_0000_0000_0000nat,
        ;
        assert(base_pow((2 * r + 1) as nat) == rr * rr * radix());
        assert(t0 + nv * rr < base_pow((2 * r + 1) as nat));
        lemma_val_low_limb(n@.subrange(0, r as int));
    }
    let mut i: usize = 0;
    while i < r
        invariant
            0 <= i <= r,
            r == r_limbs,
            0 < r,
            r <= n.len(),
            t.len() == 2 * r + 1,
            nv == val_at(n@, 0, r as int),
            rr == base_pow(r as nat),
            1 <= nv < rr,
            t0 + nv * rr < base_pow((2 * r + 1) as nat),
            t0 < nv * rr,
            (n@[0] * nquote0 + 1) % (radix() as int) == 0,
            nv % (radix() as int) == n@[0],
            val(t@) == t0 + nv * acc,
            0 <= acc < base_pow(i as nat),
            forall|k: int| 0 <= k < i ==> #[trigger] t@[k] == 0,
        decreases r - i,
    {
        let ti = t[i];
        let (mh, m) = mul_hilo(ti, nquote0);
        proof {
            vstd::arithmetic::div_mod::lemma_fundamental_div_mod_converse_mod(
                ti * nquote0,
                radix() as int,
                mh as int,
                m as int,
            );
        }
        let ghost s = t@;
        let c = addmul_1(t, i, n, 0, r, m);
        let ghost a = t@;
        let c2 = incr(t, i + r, r + 1 - i, c);
        proof {
            let cc = t@;
            let top = 2 * r + 1;
            assert(s.subrange(0, top as int) =~= s);
            assert(cc.subrange(0, top as int) =~= cc);
            lemma_val_split(s, 0, i as int, top as int);
            lemma_val_split(s, i as int, i + r, top as int);
            lemma_val_split(cc, 0, i as int, top as int);
            lemma_val_split(cc, i as int, i + r, top as int);
            assert(cc.subrange(0, i as int) =~= s.subrange(0, i as int));
            assert(cc.subrange(i as int, i + r) =~= a.subrange(i as int, i + r));
            assert(a.subrange(i + r, top as int) =~= s.subrange(i + r, top as int));
            lemma_val_low_limb(n@.subrange(0, r as int));
            lemma_base_pow_adds(r as nat, (r + 1 - i) as nat);
            lemma_base_pow_adds((2 * r + 1 - i) as nat, i as nat);
            let pi = base_pow(i as nat) as int;
            lemma_redc_step_value(
                val_at(s, 0, i as int) as int,
                val_at(s, i as int, i + r) as int,
                val_at(s, i + r, top as int) as int,
                val_at(a, i as int, i + r) as int,
                c as int,
                val_at(cc, i + r, top as int) as int,
                c2 as int,
                m as int,
                nv,
                rr,
                base_pow((r + 1 - i) as nat) as int,
                pi,
                base_pow(top as nat) as int,
            );
            // No carry leaves the top: the sum is below radix^(2 r + 1).
            lemma_base_pow_adds(i as nat, 1);
            lemma_base_pow_mono((i + 1) as nat, r as nat);
            assert(base_pow(1) == radix() * base_pow(0));
            assert(base_pow(0) == 1);
            assert(pi * radix() <= rr);
            assert(acc + m * pi < (m + 1) * pi) by (nonlinear_arith)
                requires
                    acc < pi,
            ;
            assert((m + 1) * pi <= radix() * pi) by (nonlinear_arith)
                requires
                    m + 1 <= radix(),
                    pi >= 0,
            ;
            assert(acc + m * pi < rr) by (nonlinear_arith)
                requires
                    acc + m * pi < (m + 1) * pi,
                    (m + 1) * pi <= radix() * pi,
                    pi * radix() <= rr,
            ;
            assert(nv * acc + m * nv * pi == nv * (acc + m * pi)) by (nonlinear_arith);
            assert(nv * (acc + m * pi) <= nv * rr) by (nonlinear_arith)
                requires
                    acc + m * pi < rr,
                    nv >= 1,
            ;
            lemma_val_bound(cc);
            lemma_base_pow_pos(top as nat);
            crate::mul::lemma_no_carry(
                val(cc) as int,
                c2 as int,
                base_pow(top as nat) as int,
                t0 + nv * (acc + m * pi),
            );
            // The limb at `i` is now zero.
            lemma_val_low_limb(s.subrange(i as int, i + r));
            lemma_val_low_limb(a.subrange(i as int, i + r));
            lemma_redc_digit(ti as int, nquote0 as int, n@[0] as int);
            let b = radix() as int;
            let rs = val(s.subrange(i as int, i + r).subrange(1, r as int)) as int;
            let ra = val(a.subrange(i as int, i + r).subrange(1, r as int)) as int;
            let rn = val(n@.subrange(0, r as int).subrange(1, r as int)) as int;
            assert(base_pow(r as nat) == radix() * base_pow((r - 1) as nat));
            let pr1 = base_pow((r - 1) as nat) as int;
            assert(val_at(a, i as int, i + r) == a[i as int] + b * ra);
            assert(val_at(s, i as int, i + r) == ti + b * rs);
            assert(nv == n@[0] + b * rn);
            assert(a[i as int] + b * ra + c * (b * pr1) == ti + b * rs + m * (n@[0] + b * rn)) by (nonlinear_arith)
                requires
                    val_at(a, i as int, i + r) + c * rr == val_at(s, i as int, i + r) + nv * m,
                    val_at(a, i as int, i + r) == a[i as int] + b * ra,
                    val_at(s, i as int, i + r) == ti + b * rs,
                    nv == n@[0] + b * rn,
                    rr == b * pr1,
            ;
            assert(a[i as int] == b * (rs + m * rn - ra - c * pr1) + (ti + m * n@[0])) by (nonlinear_arith)
                requires
                    a[i as int] + b * ra + c * (b * pr1) == ti + b * rs + m * (n@[0] + b * rn),
            ;
            lemma_mod_multiples_vanish(rs + m * rn - ra - c * pr1, ti + m * n@[0], b);
            lemma_small_mod(a[i as int] as nat, b as nat);
            assert(cc[i as int] == a[i as int]);
            assert(forall|k: int| 0 <= k < i ==> cc[k] == s[k]);
            acc = acc + m * pi;
            lemma_base_pow_pos(i as nat);
        }
        i = i + 1;
    }
    proof {
        let tt = t@;
        let top = 2 * r + 1;
        assert(tt.subrange(0, top as int) =~= tt);
        lemma_val_split(tt, 0, r as int, top as int);
        lemma_val_zeros(tt.subrange(0, r as int));
        lemma_val_split(tt, r as int, 2 * r, top as int);
        crate::value::lemma_val_single(tt, 2 * r as int);
        assert(base_pow(0) == 1);
    }
    let ghost topv = val_at(t@, r as int, 2 * r + 1) as int;
    let ghost lowv = val_at(t@, r as int, 2 * r) as int;
    proof {
        assert(topv * rr == t0 + nv * acc);
        assert(nv * acc <= nv * rr) by (nonlinear_arith)
            requires
                acc < rr,
                nv >= 1,
        ;
        assert(topv * rr < (2 * nv) * rr) by (nonlinear_arith)
            requires
                topv * rr == t0 + nv * acc,
                t0 < nv * rr,
                nv * acc <= nv * rr,
        ;
        assert(topv < 2 * nv) by (nonlinear_arith)
            requires
                topv * rr < (2 * nv) * rr,
                rr >= 1,
        ;
        lemma_mod_multiples_vanish(acc, t0, nv);
        assert(topv * rr == nv * acc + t0);
        lemma_val_bound(t@.subrange(r as int, 2 * r));
    }
    let hi_nz = t[2 * r] != 0;
    let ge = !matches!(cmp(t.as_slice(), r, n, 0, r), Ordering::Less);
    let ghost h2 = t@[2 * r as int] as int;
    assert(ge ==> lowv >= nv);
    if hi_nz || ge {
        copy_incr(t.as_slice(), r, w, 0, r);
        let b = sub_from(w, 0, r, n, 0, r);
        proof {
            let wv = val_at(w@, 0, r as int) as int;
            lemma_val_bound(w@.subrange(0, r as int));
            assert(topv == lowv + h2 * rr);
            assert(h2 != 0 || lowv >= nv);
            if h2 != 0 {
                assert(h2 * rr >= rr) by (nonlinear_arith)
                    requires
                        h2 >= 1,
                        rr >= 0,
                ;
            } else {
                assert(h2 * rr == 0) by (nonlinear_arith)
                    requires
                        h2 == 0,
                ;
            }
            assert(topv >= nv);
            assert(wv - b * rr == lowv - nv);
            let d = t@[2 * r as int] as int - b;
            assert(wv == topv - nv - d * rr) by (nonlinear_arith)
                requires
                    wv - b * rr == lowv - nv,
                    topv == lowv + t@[2 * r as int] * rr,
                    d == t@[2 * r as int] as int - b,
            ;
            assert(d == 0) by (nonlinear_arith)
                requires
                    wv == topv - nv - d * rr,
                    0 <= wv < rr,
                    0 <= topv - nv < rr,
            ;
            assert((topv - nv) * rr == nv * (acc - rr) + t0) by (nonlinear_arith)
                requires
                    topv * rr == nv * acc + t0,
            ;
            lemma_mod_multiples_vanish(acc - rr, t0, nv);
        }
    } else {
        copy_incr(t.as_slice(), r, w, 0, r);
        proof {
            assert(w@.subrange(0, r as int) =~= t@.subrange(r as int, 2 * r));
            assert(topv == lowv + 0 * rr);
        }
    }
}

} // verus!
