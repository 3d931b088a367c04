use vstd::prelude::*;

use crate::limb::{add_overflow, mul_hilo, radix, sub_overflow};
use crate::value::{base_pow, lemma_val_at_step, same_outside, val_at};

verus! {

/// One limb of `x * v` plus a carry in: the low limb and the carry out.
fn mul_limb_carry(xi: u64, v: u64, c: u64) -> (r: (u64, u64))
    ensures
        r.0 + r.1 * radix() == xi * v + c,
{
    let (hi, lo) = mul_hilo(xi, v);
    assert(hi <= 0xffff_ffff_ffff_fffeu64) by (nonlinear_arith)
        requires
            hi * radix() + lo == xi * v,
            xi < radix(),
            v < radix(),
            lo >= 0,
            radix() == 0x1_0000_0000_0000_0000nat,
    ;
    let (lo2, cb) = add_overflow(lo, c);
    let c2: u64 = if cb { hi + 1 } else { hi };
    (lo2, c2)
}

proof fn lemma_carry_step(vw: int, vx: int, c: int, lo: int, c2: int, xi: int, v: int, p: int)
    requires
        vw + c * p == vx * v,
        lo + c2 * radix() == xi * v + c,
    ensures
        (vw + lo * p) + c2 * (radix() * p) == (vx + xi * p) * v,
{
    assert((vw + lo * p) + c2 * (radix() * p) == vw + (lo + c2 * radix()) * p) by (nonlinear_arith);
    assert(vw + (xi * v + c) * p == (vx + xi * p) * v) by (nonlinear_arith)
        requires
            vw + c * p == vx * v,
    ;
}

/// Multiplies the `n` limbs of `x` from `xo` by `v`, writing the low `n` limbs
/// of the product to `w` from `wo`. Returns the high limb of the product.
pub fn mul_1(w: &mut Vec<u64>, wo: usize, x: &[u64], xo: usize, n: usize, v: u64) -> (carry: u64)
    requires
        0 < n,
        wo + n <= old(w).len(),
        xo + n <= x.len(),
    ensures
        same_outside(final(w)@, old(w)@, wo as int, wo + n),
        val_at(final(w)@, wo as int, wo + n) + carry * base_pow(n as nat) == val_at(
            x@,
            xo as int,
            xo + n,
        ) * v,
{
    let ghost w0 = w@;
    let mut c: u64 = 0;
    let mut i: usize = 0;
    assert(base_pow(0) == 1);
    assert(x@.subrange(xo as int, xo as int) =~= Seq::<u64>::empty());
    assert(w@.subrange(wo as int, wo as int) =~= Seq::<u64>::empty());
    let ghost vx0 = val_at(x@, xo as int, xo as int);
    assert(vx0 * v == 0) by (nonlinear_arith)
        requires
            vx0 == 0,
    ;
    while i < n
        invariant
            0 <= i <= n,
            wo + n <= w.len(),
            xo + n <= x.len(),
            same_outside(w@, w0, wo as int, wo + i),
            val_at(w@, wo as int, wo + i) + c * base_pow(i as nat) == val_at(x@, xo as int, xo + i)
                * v,
        decreases n - i,
    {
        let (lo, c2) = mul_limb_carry(x[xo + i], v, c);
        let ghost wprev = w@;
        w.set(wo + i, lo);
        proof {
            assert(w@.subrange(wo as int, wo + i) =~= wprev.subrange(wo as int, wo + i));
            lemma_val_at_step(w@, wo as int, wo + i);
            lemma_val_at_step(x@, xo as int, xo + i);
            lemma_carry_step(
                val_at(wprev, wo as int, wo + i) as int,
                val_at(x@, xo as int, xo + i) as int,
                c as int,
                lo as int,
                c2 as int,
                x@[xo + i] as int,
                v as int,
                base_pow(i as nat) as int,
            );
            assert(base_pow((i + 1) as nat) == radix() * base_pow(i as nat));
        }
        c = c2;
        i = i + 1;
    }
    c
}

proof fn lemma_add_carry_step(
    vw: int,
    vw0: int,
    vx: int,
    c: int,
    t: int,
    c2: int,
    wi: int,
    xi: int,
    v: int,
    p: int,
)
    requires
        vw + c * p == vw0 + vx * v,
        t + c2 * radix() == wi + xi * v + c,
    ensures
        (vw + t * p) + c2 * (radix() * p) == (vw0 + wi * p) + (vx + xi * p) * v,
{
    assert((vw + t * p) + c2 * (radix() * p) == vw + (t + c2 * radix()) * p) by (nonlinear_arith);
    assert(vw + (wi + xi * v + c) * p == (vw0 + wi * p) + (vx + xi * p) * v) by (nonlinear_arith)
        requires
            vw + c * p == vw0 + vx * v,
    ;
}

/// Adds `v` times the `n` limbs of `x` from `xo` to the `n` limbs of `w` from `wo`.
/// Returns the limb carried out of the top.
pub fn addmul_1(w: &mut Vec<u64>, wo: usize, x: &[u64], xo: usize, n: usize, v: u64) -> (carry: u64)
    requires
        0 < n,
        wo + n <= old(w).len(),
        xo + n <= x.len(),
    ensures
        same_outside(final(w)@, old(w)@, wo as int, wo + n),
        val_at(final(w)@, wo as int, wo + n) + carry * base_pow(n as nat) == val_at(
            old(w)@,
            wo as int,
            wo + n,
        ) + val_at(x@, xo as int, xo + n) * v,
{
    let ghost w0 = w@;
    let mut c: u64 = 0;
    let mut i: usize = 0;
    assert(base_pow(0) == 1);
    assert(x@.subrange(xo as int, xo as int) =~= Seq::<u64>::empty());
    assert(w@.subrange(wo as int, wo as int) =~= Seq::<u64>::empty());
    let ghost vx0 = val_at(x@, xo as int, xo as int);
    assert(vx0 * v == 0) by (nonlinear_arith)
        requires
            vx0 == 0,
    ;
    while i < n
        invariant
            0 <= i <= n,
            wo + n <= w.len(),
            xo + n <= x.len(),
            same_outside(w@, w0, wo as int, wo + i),
            val_at(w@, wo as int, wo + i) + c * base_pow(i as nat) == val_at(w0, wo as int, wo + i)
                + val_at(x@, xo as int, xo + i) * v,
        decreases n - i,
    {
        let (lo, c1) = mul_limb_carry(x[xo + i], v, c);
        let wi = w[wo + i];
        let (t, cb) = add_overflow(wi, lo);
        proof {
            assert(c1 <= 0xffff_ffff_ffff_fffeu64 || !cb) by (nonlinear_arith)
                requires
                    lo + c1 * radix() == x@[xo + i] * v + c,
                    t + (if cb { radix() } else { 0 }) == wi + lo,
                    x@[xo + i] < radix(),
                    v < radix(),
                    c < radix(),
                    wi < radix(),
                    t >= 0,
                    radix() == 0x1_0000_0000_0000_0000nat,
            ;
        }
        let c2: u64 = if cb { c1 + 1 } else { c1 };
        let ghost wprev = w@;
        w.set(wo + i, t);
        proof {
            assert(w@.subrange(wo as int, wo + i) =~= wprev.subrange(wo as int, wo + i));
            lemma_val_at_step(w@, wo as int, wo + i);
            lemma_val_at_step(w0, wo as int, wo + i);
            lemma_val_at_step(x@, xo as int, xo + i);
            assert(w0[wo + i] == wi);
            lemma_add_carry_step(
                val_at(wprev, wo as int, wo + i) as int,
                val_at(w0, wo as int, wo + i) as int,
                val_at(x@, xo as int, xo + i) as int,
                c as int,
                t as int,
                c2 as int,
                wi as int,
                x@[xo + i] as int,
                v as int,
                base_pow(i as nat) as int,
            );
            assert(base_pow((i + 1) as nat) == radix() * base_pow(i as nat));
        }
        c = c2;
        i = i + 1;
    }
    c
}

proof fn lemma_sub_carry_step(
    vw: int,
    vw0: int,
    vx: int,
    c: int,
    t: int,
    c2: int,
    wi: int,
    xi: int,
    v: int,
    p: int,
)
    requires
        vw - c * p == vw0 - vx * v,
        t - c2 * radix() == wi - (xi * v + c),
    ensures
        (vw + t * p) - c2 * (radix() * p) == (vw0 + wi * p) - (vx + xi * p) * v,
{
    assert((vw + t * p) - c2 * (radix() * p) == vw + (t - c2 * radix()) * p) by (nonlinear_arith);
    assert(vw + (wi - (xi * v + c)) * p == (vw0 + wi * p) - (vx + xi * p) * v) by (nonlinear_arith)
        requires
            vw - c * p == vw0 - vx * v,
    ;
}

/// Subtracts `v` times the `n` limbs of `x` from `xo` from the `n` limbs of `w` from `wo`.
/// Returns the limb borrowed from above the top.
pub fn submul_1(w: &mut Vec<u64>, wo: usize, x: &[u64], xo: usize, n: usize, v: u64) -> (borrow: u64)
    requires
        0 < n,
        wo + n <= old(w).len(),
        xo + n <= x.len(),
    ensures
        same_outside(final(w)@, old(w)@, wo as int, wo + n),
        val_at(final(w)@, wo as int, wo + n) - borrow * base_pow(n as nat) == val_at(
            old(w)@,
            wo as int,
            wo + n,
        ) - val_at(x@, xo as int, xo + n) * v,
{
    let ghost w0 = w@;
    let mut c: u64 = 0;
    let mut i: usize = 0;
    assert(base_pow(0) == 1);
    assert(x@.subrange(xo as int, xo as int) =~= Seq::<u64>::empty());
    assert(w@.subrange(wo as int, wo as int) =~= Seq::<u64>::empty());
    let ghost vx0 = val_at(x@, xo as int, xo as int);
    assert(vx0 * v == 0) by (nonlinear_arith)
        requires
            vx0 == 0,
    ;
    while i < n
        invariant
            0 <= i <= n,
            wo + n <= w.len(),
            xo + n <= x.len(),
            same_outside(w@, w0, wo as int, wo + i),
            val_at(w@, wo as int, wo + i) - c * base_pow(i as nat) == val_at(w0, wo as int, wo + i)
                - val_at(x@, xo as int, xo + i) * v,
        decreases n - i,
    {
        let (lo, c1) = mul_limb_carry(x[xo + i], v, c);
        let wi = w[wo + i];
        let (t, bb) = sub_overflow(wi, lo);
        proof {
            assert(c1 <= 0xffff_ffff_ffff_fffeu64 || !bb) by (nonlinear_arith)
                requires
                    lo + c1 * radix() == x@[xo + i] * v + c,
                    t - (if bb { radix() } else { 0 }) == wi - lo,
                    x@[xo + i] < radix(),
                    v < radix(),
                    c < radix(),
                    wi < radix(),
                    t < radix(),
                    t >= 0,
                    lo >= 0,
                    radix() == 0x1_0000_0000_0000_0000nat,
            ;
        }
        let c2: u64 = if bb { c1 + 1 } else { c1 };
        let ghost wprev = w@;
        w.set(wo + i, t);
        proof {
            assert(w@.subrange(wo as int, wo + i) =~= wprev.subrange(wo as int, wo + i));
            lemma_val_at_step(w@, wo as int, wo + i);
            lemma_val_at_step(w0, wo as int, wo + i);
            lemma_val_at_step(x@, xo as int, xo + i);
            assert(w0[wo + i] == wi);
            lemma_sub_carry_step(
                val_at(wprev, wo as int, wo + i) as int,
                val_at(w0, wo as int, wo + i) as int,
                val_at(x@, xo as int, xo + i) as int,
                c as int,
                t as int,
                c2 as int,
                wi as int,
                x@[xo + i] as int,
                v as int,
                base_pow(i as nat) as int,
            );
            assert(base_pow((i + 1) as nat) == radix() * base_pow(i as nat));
        }
        c = c2;
        i = i + 1;
    }
    c
}

} // verus!
