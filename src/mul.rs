use vstd::prelude::*;

use core::cmp::Ordering;

use crate::addsub::{add_to, cmp, copy_incr, incr, is_zero, sub_from, zeroed};
use crate::kernels::{addmul_1, mul_1};
use crate::value::{
    base_pow, lemma_base_pow_adds, lemma_base_pow_mono, lemma_base_pow_pos, lemma_val_at_step, lemma_val_bound,
    lemma_val_single, lemma_val_split, same_outside, val, val_at,
};

verus! {

/// Below this many limbs in the smaller operand, multiplication is schoolbook.
pub const TOOM22_THRESHOLD: usize = 20;

proof fn lemma_row_step(l: int, mold: int, mnew: int, c: int, px: int, pj: int, xv: int, yj: int, yv: int)
    requires
        l + mold * pj == xv * yv,
        mnew + c * px == mold + xv * yj,
    ensures
        l + (mnew + c * px) * pj == xv * (yv + yj * pj),
{
    assert(l + (mnew + c * px) * pj == l + mold * pj + xv * yj * pj) by (nonlinear_arith)
        requires
            mnew + c * px == mold + xv * yj,
    ;
    assert(xv * (yv + yj * pj) == xv * yv + xv * yj * pj) by (nonlinear_arith);
}

/// Schoolbook multiplication: writes the `xs + ys` limbs of `x * y` to `w` from `wo`.
pub fn mul_basecase(
    w: &mut Vec<u64>,
    wo: usize,
    x: &[u64],
    xo: usize,
    xs: usize,
    y: &[u64],
    yo: usize,
    ys: usize,
)
    requires
        0 < xs,
        0 < ys,
        wo + xs + ys <= old(w).len(),
        xo + xs <= x.len(),
        yo + ys <= y.len(),
    ensures
        same_outside(final(w)@, old(w)@, wo as int, wo + xs + ys),
        val_at(final(w)@, wo as int, wo + xs + ys) == val_at(x@, xo as int, xo + xs) * val_at(
            y@,
            yo as int,
            yo + ys,
        ),
{
    let ghost w0 = w@;
    let ghost xv = val_at(x@, xo as int, xo + xs) as int;
    let c = mul_1(w, wo, x, xo, xs, y[yo]);
    let ghost wm = w@;
    w.set(wo + xs, c);
    proof {
        assert(w@.subrange(wo as int, wo + xs) =~= wm.subrange(wo as int, wo + xs));
        lemma_val_at_step(w@, wo as int, wo + xs);
        lemma_val_single(y@, yo as int);
        assert(val_at(w@, wo as int, wo + xs + 1) == xv * val_at(y@, yo as int, yo + 1)) by (nonlinear_arith)
            requires
                val_at(w@, wo as int, wo + xs + 1) == val_at(w@, wo as int, wo + xs as int) + c * base_pow(xs as nat),
                val_at(w@, wo as int, wo + xs as int) + c * base_pow(xs as nat) == xv * y@[yo as int],
                val_at(y@, yo as int, yo + 1) == y@[yo as int],
        ;
    }
    let mut j: usize = 1;
    while j < ys
        invariant
            1 <= j <= ys,
            0 < xs,
            wo + xs + ys <= w.len(),
            xo + xs <= x.len(),
            yo + ys <= y.len(),
            xv == val_at(x@, xo as int, xo + xs),
            same_outside(w@, w0, wo as int, wo + xs + ys),
            val_at(w@, wo as int, wo + xs + j) == xv * val_at(y@, yo as int, yo + j),
        decreases ys - j,
    {
        let ghost wa = w@;
        let c = addmul_1(w, wo + j, x, xo, xs, y[yo + j]);
        let ghost wm = w@;
        w.set(wo + xs + j, c);
        proof {
            let wn = w@;
            assert(wn.subrange(wo as int, wo + j) =~= wa.subrange(wo as int, wo + j));
            assert(wn.subrange(wo + j, wo + j + xs) =~= wm.subrange(wo + j, wo + j + xs));
            lemma_val_split(wa, wo as int, wo + j, wo + xs + j);
            lemma_val_split(wn, wo as int, wo + j, wo + xs + j + 1);
            lemma_val_at_step(wn, wo + j, wo + j + xs);
            lemma_val_at_step(y@, yo as int, yo + j);
            lemma_row_step(
                val_at(wa, wo as int, wo + j) as int,
                val_at(wa, wo + j, wo + j + xs) as int,
                val_at(wm, wo + j, wo + j + xs) as int,
                c as int,
                base_pow(xs as nat) as int,
                base_pow(j as nat) as int,
                xv,
                y@[yo + j] as int,
                val_at(y@, yo as int, yo + j) as int,
            );
        }
        j = j + 1;
    }
}

/// The absolute difference of the low `nl` limbs of `x` from `xo` and the `h` limbs
/// that follow them, in `nl` limbs, with whether the high part was the larger.
fn abs_diff(x: &[u64], xo: usize, nl: usize, h: usize) -> (r: (Vec<u64>, bool))
    requires
        0 < h <= nl,
        xo + nl + h <= x.len(),
    ensures
        r.0.len() == nl,
        r.1 ==> val(r.0@) == val_at(x@, xo + nl, xo + nl + h) - val_at(x@, xo as int, xo + nl),
        !r.1 ==> val(r.0@) == val_at(x@, xo as int, xo + nl) - val_at(x@, xo + nl, xo + nl + h),
{
    let ghost x0 = val_at(x@, xo as int, xo + nl);
    let ghost x1 = val_at(x@, xo + nl, xo + nl + h);
    let mut d = zeroed(nl);
    if nl == h {
        if matches!(cmp(x, xo, x, xo + nl, nl), Ordering::Less) {
            copy_incr(x, xo + nl, &mut d, 0, nl);
            assert(d@.subrange(0, nl as int) =~= d@);
            let b = sub_from(&mut d, 0, nl, x, xo, nl);
            proof {
                assert(d@.subrange(0, nl as int) =~= d@);
                lemma_val_bound(d@);
                lemma_no_wrap(val(d@) as int, b as int, base_pow(nl as nat) as int, x1 - x0);
            }
            (d, true)
        } else {
            copy_incr(x, xo, &mut d, 0, nl);
            assert(d@.subrange(0, nl as int) =~= d@);
            let b = sub_from(&mut d, 0, nl, x, xo + nl, nl);
            proof {
                assert(d@.subrange(0, nl as int) =~= d@);
                lemma_val_bound(d@);
                lemma_no_wrap(val(d@) as int, b as int, base_pow(nl as nat) as int, x0 - x1);
            }
            (d, false)
        }
    } else {
        let high_zero = is_zero(x, xo + h, nl - h);
        if high_zero && matches!(cmp(x, xo, x, xo + nl, h), Ordering::Less) {
            copy_incr(x, xo + nl, &mut d, 0, h);
            let ghost dc = d@;
            let b = sub_from(&mut d, 0, h, x, xo, h);
            proof {
                lemma_val_split(x@, xo as int, xo + h, xo + nl);
                let lo = val_at(x@, xo as int, xo + h);
                let hi = val_at(x@, xo + h, xo + nl);
                assert(lo + hi * base_pow(h as nat) == lo) by (nonlinear_arith)
                    requires
                        hi == 0,
                ;
                assert(dc.subrange(0, h as int) =~= x@.subrange(xo + nl, xo + nl + h));
                lemma_val_bound(d@.subrange(0, h as int));
                lemma_no_wrap(
                    val_at(d@, 0, h as int) as int,
                    b as int,
                    base_pow(h as nat) as int,
                    x1 - x0,
                );
                lemma_val_split(d@, 0, h as int, nl as int);
                assert(d@.subrange(h as int, nl as int) =~= dc.subrange(h as int, nl as int));
                crate::value::lemma_val_zeros(d@.subrange(h as int, nl as int));
                assert(d@.subrange(0, nl as int) =~= d@);
            }
            (d, true)
        } else {
            proof {
                lemma_val_split(x@, xo as int, xo + h, xo + nl);
                if high_zero {
                    let lo = val_at(x@, xo as int, xo + h);
                    let hi = val_at(x@, xo + h, xo + nl);
                    assert(lo + hi * base_pow(h as nat) == lo) by (nonlinear_arith)
                        requires
                            hi == 0,
                    ;
                } else {
                    lemma_val_bound(x@.subrange(xo + nl, xo + nl + h));
                    let lo = val_at(x@, xo as int, xo + h);
                    let hi = val_at(x@, xo + h, xo + nl);
                    assert(lo + hi * base_pow(h as nat) >= base_pow(h as nat)) by (nonlinear_arith)
                        requires
                            hi >= 1,
                            lo >= 0,
                    ;
                }
            }
            copy_incr(x, xo, &mut d, 0, nl);
            assert(d@.subrange(0, nl as int) =~= d@);
            let b = sub_from(&mut d, 0, nl, x, xo + nl, h);
            proof {
                assert(d@.subrange(0, nl as int) =~= d@);
                lemma_val_bound(d@);
                lemma_no_wrap(val(d@) as int, b as int, base_pow(nl as nat) as int, x0 - x1);
            }
            (d, false)
        }
    }
}

/// A subtraction whose true result is not negative borrowed nothing.
pub(crate) proof fn lemma_no_wrap(v: int, b: int, p: int, t: int)
    requires
        v - b * p == t,
        0 <= v < p,
        0 <= b <= 1,
        t >= 0,
    ensures
        b == 0,
        v == t,
{
}

} // verus!

verus! {

/// The middle coefficient of the split product, from the three half products.
proof fn lemma_karatsuba_middle(
    x0: int,
    x1: int,
    y0: int,
    y1: int,
    dx: int,
    dy: int,
    xneg: bool,
    yneg: bool,
)
    requires
        xneg ==> dx == x1 - x0,
        !xneg ==> dx == x0 - x1,
        yneg ==> dy == y1 - y0,
        !yneg ==> dy == y0 - y1,
    ensures
        xneg != yneg ==> x0 * y0 + x1 * y1 + dx * dy == x0 * y1 + x1 * y0,
        xneg == yneg ==> x0 * y0 + x1 * y1 - dx * dy == x0 * y1 + x1 * y0,
{
    if xneg {
        if yneg {
            assert(x0 * y0 + x1 * y1 - (x1 - x0) * (y1 - y0) == x0 * y1 + x1 * y0) by (nonlinear_arith);
        } else {
            assert(x0 * y0 + x1 * y1 + (x1 - x0) * (y0 - y1) == x0 * y1 + x1 * y0) by (nonlinear_arith);
        }
    } else {
        if yneg {
            assert(x0 * y0 + x1 * y1 + (x0 - x1) * (y1 - y0) == x0 * y1 + x1 * y0) by (nonlinear_arith);
        } else {
            assert(x0 * y0 + x1 * y1 - (x0 - x1) * (y0 - y1) == x0 * y1 + x1 * y0) by (nonlinear_arith);
        }
    }
}

proof fn lemma_split_product(x0: int, x1: int, y0: int, y1: int, p: int)
    ensures
        (x0 + x1 * p) * (y0 + y1 * p) == x0 * y0 + (x0 * y1 + x1 * y0) * p + x1 * y1 * (p * p),
{
    let a = x0 + x1 * p;
    assert(a * (y0 + y1 * p) == a * y0 + a * (y1 * p)) by (nonlinear_arith);
    assert(a * y0 == x0 * y0 + x1 * y0 * p) by (nonlinear_arith)
        requires
            a == x0 + x1 * p,
    ;
    assert(a * (y1 * p) == x0 * y1 * p + x1 * y1 * (p * p)) by (nonlinear_arith)
        requires
            a == x0 + x1 * p,
    ;
    assert(x0 * y1 * p + x1 * y0 * p == (x0 * y1 + x1 * y0) * p) by (nonlinear_arith);
}

/// A value `v + c * p` below `p` has `c == 0`.
pub(crate) proof fn lemma_no_carry(v: int, c: int, p: int, s: int)
    requires
        v + c * p == s,
        v >= 0,
        c >= 0,
        s < p,
        p >= 1,
    ensures
        c == 0,
        v == s,
{
    if c > 0 {
        assert(c * p >= p) by (nonlinear_arith)
            requires
                c >= 1,
                p >= 0,
        ;
    }
}

/// The product of values of `xs` and `ys` limbs fits in `xs + ys` limbs.
proof fn lemma_product_bound(x: Seq<u64>, y: Seq<u64>)
    ensures
        val(x) * val(y) < base_pow(x.len() + y.len()),
{
    lemma_val_bound(x);
    lemma_val_bound(y);
    lemma_base_pow_adds(x.len(), y.len());
    let a = val(x);
    let b = val(y);
    let pa = base_pow(x.len());
    let pb = base_pow(y.len());
    assert(a * b < pa * pb) by (nonlinear_arith)
        requires
            a < pa,
            b < pb,
            a >= 0,
            b >= 0,
    ;
}

proof fn lemma_two_pow_room(n: nat)
    ensures
        2 * base_pow(n) <= base_pow(n + 1),
{
    lemma_base_pow_adds(n, 1);
    assert(base_pow(1) == crate::limb::radix() * base_pow(0));
    assert(base_pow(0) == 1);
    let p = base_pow(n);
    assert(2 * p <= p * base_pow(1)) by (nonlinear_arith)
        requires
            base_pow(1) == 0x1_0000_0000_0000_0000nat,
            p >= 0,
    ;
}

/// Dispatches a product of `xs >= ys` limbs to the method that suits the sizes:
/// schoolbook, Karatsuba, or slices of Karatsuba for unbalanced sizes.
pub fn mul_rec(
    w: &mut Vec<u64>,
    wo: usize,
    x: &[u64],
    xo: usize,
    xs: usize,
    y: &[u64],
    yo: usize,
    ys: usize,
)
    requires
        0 < ys <= xs,
        wo + xs + ys <= old(w).len(),
        xo + xs <= x.len(),
        yo + ys <= y.len(),
    ensures
        same_outside(final(w)@, old(w)@, wo as int, wo + xs + ys),
        val_at(final(w)@, wo as int, wo + xs + ys) == val_at(x@, xo as int, xo + xs) * val_at(
            y@,
            yo as int,
            yo + ys,
        ),
    decreases xs + ys, 2nat,
{
    if ys < TOOM22_THRESHOLD {
        mul_basecase(w, wo, x, xo, xs, y, yo, ys);
    } else if xs - ys >= ys - ys / 2 {
        mul_unbalanced(w, wo, x, xo, xs, y, yo, ys);
    } else {
        mul_toom22(w, wo, x, xo, xs, y, yo, ys);
    }
}

#[verifier::spinoff_prover]
#[verifier::rlimit(100)]
/// Karatsuba multiplication of `xs` by `ys` limbs, with `x` split at `nl = xs - xs / 2`
/// limbs and `y` at the same place; needs both high parts non-empty.
pub fn mul_toom22(
    w: &mut Vec<u64>,
    wo: usize,
    x: &[u64],
    xo: usize,
    xs: usize,
    y: &[u64],
    yo: usize,
    ys: usize,
)
    requires
        2 <= xs,
        ys <= xs,
        xs - xs / 2 < ys,
        wo + xs + ys <= old(w).len(),
        xo + xs <= x.len(),
        yo + ys <= y.len(),
    ensures
        same_outside(final(w)@, old(w)@, wo as int, wo + xs + ys),
        val_at(final(w)@, wo as int, wo + xs + ys) == val_at(x@, xo as int, xo + xs) * val_at(
            y@,
            yo as int,
            yo + ys,
        ),
    decreases xs + ys, 1nat,
{
    let xh = xs / 2;
    let nl = xs - xh;
    let yh = ys - nl;
    let (z1, z1_neg) = toom22_products(w, wo, x, xo, y, yo, nl, xh, yh);
    let ghost w6 = w@;
    proof {
        lemma_toom22_middle_bound(x@, xo as int, y@, yo as int, nl as int, xh as int, yh as int);
    }
    let t = toom22_middle(w.as_slice(), wo, nl, xh + yh, z1.as_slice(), z1_neg);
    let ln = xs + ys - nl;
    let tn = if 2 * nl + 1 <= ln {
        2 * nl + 1
    } else {
        2 * nl
    };
    let cout = add_to(w, wo + nl, ln, t.as_slice(), 0, tn);
    proof {
        lemma_toom22_assemble(x@, xo as int, y@, yo as int, nl as int, xh as int, yh as int, w6, w@, wo as int, t@, tn as int, cout as int);
    }
}

/// The three half products of Karatsuba: `x0 y0` into the `2 nl` limbs of `w`
/// from `wo`, `x1 y1` into the `xh + yh` limbs after them, and
/// `|x0 - x1| |y0 - y1|` returned, with whether `(x0 - x1)(y0 - y1)` is negative.
fn toom22_products(
    w: &mut Vec<u64>,
    wo: usize,
    x: &[u64],
    xo: usize,
    y: &[u64],
    yo: usize,
    nl: usize,
    xh: usize,
    yh: usize,
) -> (r: (Vec<u64>, bool))
    requires
        0 < yh <= xh <= nl,
        nl <= xh + 1,
        wo + 2 * nl + xh + yh <= old(w).len(),
        xo + nl + xh <= x.len(),
        yo + nl + yh <= y.len(),
    ensures
        same_outside(final(w)@, old(w)@, wo as int, wo + 2 * nl + xh + yh),
        val_at(final(w)@, wo as int, wo + 2 * nl) == val_at(x@, xo as int, xo + nl) * val_at(y@, yo as int, yo + nl),
        val_at(final(w)@, wo + 2 * nl, wo + 2 * nl + (xh + yh)) == val_at(x@, xo + nl, xo + nl + xh) * val_at(y@, yo + nl, yo + nl + yh),
        r.0.len() == 2 * nl,
        r.1 ==> val_at(x@, xo as int, xo + nl) * val_at(y@, yo as int, yo + nl) + val_at(x@, xo + nl, xo + nl + xh) * val_at(y@, yo + nl, yo + nl + yh) + val(r.0@)
            == val_at(x@, xo as int, xo + nl) * val_at(y@, yo + nl, yo + nl + yh) + val_at(x@, xo + nl, xo + nl + xh) * val_at(y@, yo as int, yo + nl),
        !r.1 ==> val_at(x@, xo as int, xo + nl) * val_at(y@, yo as int, yo + nl) + val_at(x@, xo + nl, xo + nl + xh) * val_at(y@, yo + nl, yo + nl + yh) - val(r.0@)
            == val_at(x@, xo as int, xo + nl) * val_at(y@, yo + nl, yo + nl + yh) + val_at(x@, xo + nl, xo + nl + xh) * val_at(y@, yo as int, yo + nl),
    decreases 2 * nl + xh + yh, 0nat,
{
    let (zx, xneg) = abs_diff(x, xo, nl, xh);
    let (zy, yneg) = abs_diff(y, yo, nl, yh);
    let z1_neg = xneg != yneg;
    let mut z1 = zeroed(2 * nl);
    mul_rec(&mut z1, 0, zx.as_slice(), 0, nl, zy.as_slice(), 0, nl);
    proof {
        assert(z1@.subrange(0, 2 * nl as int) =~= z1@);
        assert(zx@.subrange(0, nl as int) =~= zx@);
        assert(zy@.subrange(0, nl as int) =~= zy@);
        lemma_karatsuba_middle(
            val_at(x@, xo as int, xo + nl) as int,
            val_at(x@, xo + nl, xo + nl + xh) as int,
            val_at(y@, yo as int, yo + nl) as int,
            val_at(y@, yo + nl, yo + nl + yh) as int,
            val(zx@) as int,
            val(zy@) as int,
            xneg,
            yneg,
        );
    }
    mul_rec(w, wo, x, xo, nl, y, yo, nl);
    let ghost w5 = w@;
    mul_rec(w, wo + 2 * nl, x, xo + nl, xh, y, yo + nl, yh);
    proof {
        assert(w@.subrange(wo as int, wo + 2 * nl) =~= w5.subrange(wo as int, wo + 2 * nl));
    }
    (z1, z1_neg)
}

/// The middle coefficient `x0 * y1 + x1 * y0` of a split product is below
/// `2 * radix^(2 nl)`, and the whole product is below `radix^(xs + ys)`.
proof fn lemma_toom22_middle_bound(x: Seq<u64>, xo: int, y: Seq<u64>, yo: int, nl: int, xh: int, yh: int)
    requires
        0 <= xo,
        0 <= yo,
        0 < yh <= xh <= nl,
        xo + nl + xh <= x.len(),
        yo + nl + yh <= y.len(),
    ensures
        ({
            let x0 = val_at(x, xo, xo + nl) as int;
            let x1 = val_at(x, xo + nl, xo + nl + xh) as int;
            let y0 = val_at(y, yo, yo + nl) as int;
            let y1 = val_at(y, yo + nl, yo + nl + yh) as int;
            &&& x0 * y1 >= 0
            &&& x1 * y0 >= 0
            &&& x0 * y1 + x1 * y0 < 2 * base_pow((2 * nl) as nat)
            &&& 2 * base_pow((2 * nl) as nat) <= base_pow((2 * nl + 1) as nat)
            &&& x0 * y0 < base_pow((2 * nl) as nat)
            &&& x1 * y1 < base_pow((2 * nl) as nat)
        }),
{
    lemma_product_bound(x.subrange(xo, xo + nl), y.subrange(yo, yo + nl));
    lemma_product_bound(x.subrange(xo + nl, xo + nl + xh), y.subrange(yo + nl, yo + nl + yh));
    lemma_product_bound(x.subrange(xo, xo + nl), y.subrange(yo + nl, yo + nl + yh));
    lemma_product_bound(x.subrange(xo + nl, xo + nl + xh), y.subrange(yo, yo + nl));
    lemma_base_pow_mono((xh + yh) as nat, (2 * nl) as nat);
    lemma_base_pow_mono((nl + yh) as nat, (2 * nl) as nat);
    lemma_base_pow_mono((xh + nl) as nat, (2 * nl) as nat);
    lemma_two_pow_room((2 * nl) as nat);
    let x0 = val_at(x, xo, xo + nl) as int;
    let x1 = val_at(x, xo + nl, xo + nl + xh) as int;
    let y0 = val_at(y, yo, yo + nl) as int;
    let y1 = val_at(y, yo + nl, yo + nl + yh) as int;
    assert(x0 * y1 >= 0 && x1 * y0 >= 0) by (nonlinear_arith)
        requires
            x0 >= 0 && x1 >= 0 && y0 >= 0 && y1 >= 0,
    ;
}

/// Putting `z0 + z2 * radix^(2 nl)` and the middle coefficient `t` (of which the
/// low `tn` limbs were added at limb `nl`) together gives the product.
proof fn lemma_toom22_assemble(
    x: Seq<u64>,
    xo: int,
    y: Seq<u64>,
    yo: int,
    nl: int,
    xh: int,
    yh: int,
    w6: Seq<u64>,
    wn: Seq<u64>,
    wo: int,
    t: Seq<u64>,
    tn: int,
    cout: int,
)
    requires
        0 <= xo,
        0 <= yo,
        0 <= wo,
        0 < yh <= xh <= nl,
        nl <= xh + 1,
        xo + nl + xh <= x.len(),
        yo + nl + yh <= y.len(),
        wo + 2 * nl + xh + yh <= w6.len(),
        t.len() == 2 * nl + 1,
        tn == 2 * nl + 1 || (tn == 2 * nl && 3 * nl == 2 * nl + xh + yh),
        tn <= 2 * nl + xh + yh - nl,
        cout >= 0,
        val(t) == val_at(x, xo, xo + nl) * val_at(y, yo + nl, yo + nl + yh) + val_at(x, xo + nl, xo + nl + xh) * val_at(y, yo, yo + nl),
        val_at(w6, wo, wo + 2 * nl) == val_at(x, xo, xo + nl) * val_at(y, yo, yo + nl),
        val_at(w6, wo + 2 * nl, wo + 2 * nl + xh + yh) == val_at(x, xo + nl, xo + nl + xh) * val_at(y, yo + nl, yo + nl + yh),
        same_outside(wn, w6, wo + nl, wo + 2 * nl + xh + yh),
        val_at(wn, wo + nl, wo + 2 * nl + xh + yh) + cout * base_pow((nl + xh + yh) as nat) == val_at(w6, wo + nl, wo + 2 * nl + xh + yh) + val_at(t, 0, tn),
    ensures
        val_at(wn, wo, wo + 2 * nl + xh + yh) == val_at(x, xo, xo + nl + xh) * val_at(y, yo, yo + nl + yh),
{
    let xs = nl + xh;
    let ys = nl + yh;
    let ln = xs + ys - nl;
    let x0 = val_at(x, xo, xo + nl) as int;
    let x1 = val_at(x, xo + nl, xo + xs) as int;
    let y0 = val_at(y, yo, yo + nl) as int;
    let y1 = val_at(y, yo + nl, yo + ys) as int;
    let xv = val_at(x, xo, xo + xs) as int;
    let yv = val_at(y, yo, yo + ys) as int;
    lemma_val_split(x, xo, xo + nl, xo + xs);
    lemma_val_split(y, yo, yo + nl, yo + ys);
    lemma_product_bound(x.subrange(xo, xo + xs), y.subrange(yo, yo + ys));
    lemma_val_split(w6, wo, wo + 2 * nl, wo + xs + ys);
    lemma_val_split(w6, wo, wo + nl, wo + xs + ys);
    lemma_val_split(w6, wo + nl, wo + 2 * nl, wo + xs + ys);
    lemma_val_split(w6, wo, wo + nl, wo + 2 * nl);
    lemma_base_pow_adds(nl as nat, nl as nat);
    let p = base_pow(nl as nat) as int;
    lemma_split_product(x0, x1, y0, y1, p);
    let m = x0 * y1 + x1 * y0;
    assert(xv * yv == x0 * y0 + m * p + x1 * y1 * (p * p));

    let drop: int = if tn == 2 * nl {
        t[2 * nl] as int
    } else {
        0
    };
    lemma_val_split(t, 0, 2 * nl, 2 * nl + 1);
    lemma_val_single(t, 2 * nl);
    assert(t.subrange(0, 2 * nl + 1) =~= t);
    assert(m == val_at(t, 0, tn) + drop * base_pow((2 * nl) as nat));

    assert(wn.subrange(wo, wo + nl) =~= w6.subrange(wo, wo + nl));
    lemma_val_split(wn, wo, wo + nl, wo + xs + ys);
    lemma_base_pow_adds(nl as nat, ln as nat);
    lemma_base_pow_adds(nl as nat, (2 * nl) as nat);
    let low = val_at(w6, wo, wo + nl) as int;
    let rold = val_at(w6, wo + nl, wo + xs + ys) as int;
    let rnew = val_at(wn, wo + nl, wo + xs + ys) as int;
    let tlow = val_at(t, 0, tn) as int;
    let pl = base_pow(ln as nat) as int;
    let q = base_pow((2 * nl) as nat) as int;
    let ptop = base_pow((xs + ys) as nat) as int;
    let hz0 = val_at(w6, wo + nl, wo + 2 * nl) as int;
    let z2 = x1 * y1;
    assert(x0 * y0 == low + hz0 * p);
    assert(rold == hz0 + z2 * p);
    assert(low + rold * p == x0 * y0 + z2 * (p * p)) by (nonlinear_arith)
        requires
            x0 * y0 == low + hz0 * p,
            rold == hz0 + z2 * p,
    ;
    assert(low + rold * p + m * p == xv * yv);
    assert(p * pl == ptop);
    assert(drop != 0 ==> p * q == ptop);
    assert(low + rnew * p + (cout + drop) * ptop == xv * yv) by (nonlinear_arith)
        requires
            low + rold * p + m * p == xv * yv,
            rnew + cout * pl == rold + tlow,
            m == tlow + drop * q,
            p * pl == ptop,
            drop != 0 ==> p * q == ptop,
    ;
    lemma_base_pow_pos(nl as nat);
    lemma_base_pow_pos((xs + ys) as nat);
    assert(rnew * p >= 0) by (nonlinear_arith)
        requires
            rnew >= 0,
            p >= 1,
    ;
    assert(drop >= 0);
    lemma_no_carry(low + rnew * p, cout + drop, ptop, xv * yv);
}

/// The middle coefficient `z0 + z2 + z1` (when `z1_neg`) or `z0 + z2 - z1`, in
/// `2 nl + 1` limbs, where `z0` is the `2 nl` limbs of `w` from `wo`, `z2` the
/// `n2` limbs that follow, and `z1` the `2 nl` limbs of `z1`.
fn toom22_middle(w: &[u64], wo: usize, nl: usize, n2: usize, z1: &[u64], z1_neg: bool) -> (t: Vec<u64>)
    requires
        n2 <= 2 * nl,
        wo + 2 * nl + n2 <= w.len(),
        z1.len() == 2 * nl,
        val_at(w@, wo as int, wo + 2 * nl) + val_at(w@, wo + 2 * nl, wo + 2 * nl + n2) + (if z1_neg { val(z1@) as int } else { 0 }) < base_pow((2 * nl + 1) as nat),
        !z1_neg ==> val_at(w@, wo as int, wo + 2 * nl) + val_at(w@, wo + 2 * nl, wo + 2 * nl + n2) >= val(z1@),
    ensures
        t.len() == 2 * nl + 1,
        z1_neg ==> val(t@) == val_at(w@, wo as int, wo + 2 * nl) + val_at(w@, wo + 2 * nl, wo + 2 * nl + n2) + val(z1@),
        !z1_neg ==> val(t@) == val_at(w@, wo as int, wo + 2 * nl) + val_at(w@, wo + 2 * nl, wo + 2 * nl + n2) - val(z1@),
{
    let ghost z0v = val_at(w@, wo as int, wo + 2 * nl) as int;
    let ghost z2v = val_at(w@, wo + 2 * nl, wo + 2 * nl + n2) as int;
    let mut t = zeroed(2 * nl + 1);
    copy_incr(w, wo, &mut t, 0, 2 * nl);
    proof {
        lemma_val_split(t@, 0, 2 * nl as int, 2 * nl + 1);
        lemma_val_single(t@, 2 * nl as int);
        assert(t@.subrange(0, 2 * nl + 1) =~= t@);
        assert(t@[2 * nl as int] == 0);
        lemma_base_pow_pos((2 * nl + 1) as nat);
        assert(z1@.subrange(0, 2 * nl as int) =~= z1@);
    }
    let c1 = add_to(&mut t, 0, 2 * nl + 1, w, wo + 2 * nl, n2);
    proof {
        assert(t@.subrange(0, 2 * nl + 1) =~= t@);
        lemma_no_carry(val(t@) as int, c1 as int, base_pow((2 * nl + 1) as nat) as int, z0v + z2v);
    }
    if z1_neg {
        let c2 = add_to(&mut t, 0, 2 * nl + 1, z1, 0, 2 * nl);
        proof {
            assert(t@.subrange(0, 2 * nl + 1) =~= t@);
            lemma_no_carry(val(t@) as int, c2 as int, base_pow((2 * nl + 1) as nat) as int, z0v + z2v + val(z1@));
        }
    } else {
        let b2 = sub_from(&mut t, 0, 2 * nl + 1, z1, 0, 2 * nl);
        proof {
            assert(t@.subrange(0, 2 * nl + 1) =~= t@);
            lemma_val_bound(t@);
            lemma_no_wrap(val(t@) as int, b2 as int, base_pow((2 * nl + 1) as nat) as int, z0v + z2v - val(z1@));
        }
    }
    t
}

/// Adds `t * radix^d` (`tn` limbs) into the partial product held in the
/// `d + ys` limbs of `w` from `wo`, leaving `d + tn` valid limbs. The sum must fit.
fn accumulate(w: &mut Vec<u64>, wo: usize, d: usize, ys: usize, t: &[u64], tn: usize)
    requires
        0 < ys <= tn,
        wo + d + tn <= old(w).len(),
        tn <= t.len(),
        val_at(old(w)@, wo as int, wo + d + ys) + val_at(t@, 0, tn as int) * base_pow(d as nat)
            < base_pow((d + tn) as nat),
    ensures
        same_outside(final(w)@, old(w)@, wo + d, wo + d + tn),
        val_at(final(w)@, wo as int, wo + d + tn) == val_at(old(w)@, wo as int, wo + d + ys)
            + val_at(t@, 0, tn as int) * base_pow(d as nat),
{
    let ghost w0 = w@;
    let cy = add_to(w, wo + d, ys, t, 0, ys);
    let ghost w1 = w@;
    proof {
        lemma_val_split(w0, wo as int, wo + d, wo + d + ys);
        lemma_val_split(t@, 0, ys as int, tn as int);
        lemma_base_pow_adds(d as nat, ys as nat);
        lemma_base_pow_adds(ys as nat, (tn - ys) as nat);
        lemma_base_pow_adds(d as nat, tn as nat);
    }
    if tn > ys {
        copy_incr(t, ys, w, wo + d + ys, tn - ys);
        let ghost w2 = w@;
        let cy2 = incr(w, wo + d + ys, tn - ys, cy);
        proof {
            let wn = w@;
            assert(wn.subrange(wo as int, wo + d) =~= w0.subrange(wo as int, wo + d));
            assert(wn.subrange(wo + d, wo + d + ys) =~= w1.subrange(wo + d, wo + d + ys));
            assert(w2.subrange(wo + d + ys, wo + d + tn) =~= t@.subrange(ys as int, tn as int));
            lemma_val_split(wn, wo as int, wo + d, wo + d + tn);
            lemma_val_split(wn, wo + d, wo + d + ys, wo + d + tn);
            let aa = val_at(w0, wo as int, wo + d) as int;
            let h = val_at(w0, wo + d, wo + d + ys) as int;
            let h2 = val_at(wn, wo + d, wo + d + ys) as int;
            let tl = val_at(t@, 0, ys as int) as int;
            let th = val_at(t@, ys as int, tn as int) as int;
            let th2 = val_at(wn, wo + d + ys, wo + d + tn) as int;
            let pd = base_pow(d as nat) as int;
            let py = base_pow(ys as nat) as int;
            let pr = base_pow((tn - ys) as nat) as int;
            let ptn = base_pow(tn as nat) as int;
            let ptop = base_pow((d + tn) as nat) as int;
            assert(aa + (h2 + th2 * py) * pd + cy2 * ptop == aa + h * pd + (tl + th * py) * pd)
                by (nonlinear_arith)
                requires
                    h2 + cy * py == h + tl,
                    th2 + cy2 * pr == th + cy,
                    py * pr == ptn,
                    pd * ptn == ptop,
            ;
            lemma_base_pow_pos(d as nat);
            lemma_base_pow_pos(ys as nat);
            assert((h2 + th2 * py) * pd >= 0) by (nonlinear_arith)
                requires
                    h2 >= 0,
                    th2 >= 0,
                    py >= 1,
                    pd >= 1,
            ;
            lemma_base_pow_pos((d + tn) as nat);
            lemma_no_carry(aa + (h2 + th2 * py) * pd, cy2 as int, ptop, aa + h * pd + (tl + th * py)
                * pd);
        }
    } else {
        proof {
            let wn = w@;
            assert(wn.subrange(wo as int, wo + d) =~= w0.subrange(wo as int, wo + d));
            lemma_val_split(wn, wo as int, wo + d, wo + d + ys);
            assert(t@.subrange(ys as int, tn as int) =~= Seq::<u64>::empty());
            let aa = val_at(w0, wo as int, wo + d) as int;
            let h = val_at(w0, wo + d, wo + d + ys) as int;
            let h2 = val_at(wn, wo + d, wo + d + ys) as int;
            let tl = val_at(t@, 0, ys as int) as int;
            let pd = base_pow(d as nat) as int;
            let py = base_pow(ys as nat) as int;
            let ptop = base_pow((d + tn) as nat) as int;
            assert(aa + h2 * pd + cy * ptop == aa + h * pd + tl * pd) by (nonlinear_arith)
                requires
                    h2 + cy * py == h + tl,
                    pd * py == ptop,
            ;
            lemma_base_pow_pos(d as nat);
            assert(h2 * pd >= 0) by (nonlinear_arith)
                requires
                    h2 >= 0,
                    pd >= 1,
            ;
            lemma_base_pow_pos((d + tn) as nat);
            lemma_no_carry(aa + h2 * pd, cy as int, ptop, aa + h * pd + tl * pd);
        }
    }
}

/// Multiplication when `x` is much longer than `y`: `x` is taken in slices of
/// `ys` limbs, each multiplied by Karatsuba and added in at its place.
pub fn mul_unbalanced(
    w: &mut Vec<u64>,
    wo: usize,
    x: &[u64],
    xo: usize,
    xs: usize,
    y: &[u64],
    yo: usize,
    ys: usize,
)
    requires
        2 <= ys < xs,
        wo + xs + ys <= old(w).len(),
        xo + xs <= x.len(),
        yo + ys <= y.len(),
    ensures
        same_outside(final(w)@, old(w)@, wo as int, wo + xs + ys),
        val_at(final(w)@, wo as int, wo + xs + ys) == val_at(x@, xo as int, xo + xs) * val_at(
            y@,
            yo as int,
            yo + ys,
        ),
    decreases xs + ys, 0nat,
{
    let ghost w0 = w@;
    let ghost yv = val_at(y@, yo as int, yo + ys) as int;
    mul_toom22(w, wo, x, xo, ys, y, yo, ys);
    let mut done: usize = ys;
    let mut tmp = zeroed(2 * ys);
    while xs - done >= 2 * ys
        invariant
            2 <= ys < xs,
            ys <= done < xs,
            wo + xs + ys <= w.len(),
            xo + xs <= x.len(),
            yo + ys <= y.len(),
            tmp.len() == 2 * ys,
            yv == val_at(y@, yo as int, yo + ys),
            same_outside(w@, w0, wo as int, wo + xs + ys),
            val_at(w@, wo as int, wo + done + ys) == val_at(x@, xo as int, xo + done) * yv,
        decreases xs - done,
    {
        mul_toom22(&mut tmp, 0, x, xo + done, ys, y, yo, ys);
        proof {
            lemma_unbalanced_fits(x@, xo as int, done as int, ys as int, y@, yo as int, 2 * ys as int);
        }
        accumulate(w, wo, done, ys, tmp.as_slice(), 2 * ys);
        proof {
            lemma_val_split(x@, xo as int, xo + done, xo + done + ys);
            let p = base_pow(done as nat) as int;
            let a = val_at(x@, xo as int, xo + done) as int;
            let b = val_at(x@, xo + done, xo + done + ys) as int;
            assert(a * yv + b * yv * p == (a + b * p) * yv) by (nonlinear_arith);
        }
        done = done + ys;
    }
    let rem = xs - done;
    let mut tmp = zeroed(rem + ys);
    if rem >= ys {
        mul_rec(&mut tmp, 0, x, xo + done, rem, y, yo, ys);
    } else {
        mul_rec(&mut tmp, 0, y, yo, ys, x, xo + done, rem);
    }
    proof {
        lemma_unbalanced_fits(x@, xo as int, done as int, rem as int, y@, yo as int, (rem + ys) as int);
        let b = val_at(x@, xo + done, xo + xs) as int;
        assert(b * yv == yv * b) by (nonlinear_arith);
    }
    accumulate(w, wo, done, ys, tmp.as_slice(), rem + ys);
    proof {
        lemma_val_split(x@, xo as int, xo + done, xo + xs);
        let p = base_pow(done as nat) as int;
        let a = val_at(x@, xo as int, xo + done) as int;
        let b = val_at(x@, xo + done, xo + xs) as int;
        assert(a * yv + b * yv * p == (a + b * p) * yv) by (nonlinear_arith);
        assert(done + rem + ys == xs + ys);
    }
}

/// The sum of the product so far and the next slice's product fits in its limbs.
proof fn lemma_unbalanced_fits(x: Seq<u64>, xo: int, done: int, s: int, y: Seq<u64>, yo: int, tn: int)
    requires
        0 <= xo,
        0 < s,
        0 <= done,
        0 <= yo,
        xo + done + s <= x.len(),
        tn == s + (y.len() - yo) - (y.len() - yo) + tn - s,
        s <= tn,
        yo + (tn - s) <= y.len(),
    ensures
        val_at(x, xo, xo + done) * val_at(y, yo, yo + (tn - s)) + val_at(x, xo + done, xo + done + s)
            * val_at(y, yo, yo + (tn - s)) * base_pow(done as nat) < base_pow((done + tn) as nat),
{
    let ys = tn - s;
    lemma_val_split(x, xo, xo + done, xo + done + s);
    lemma_product_bound(x.subrange(xo, xo + done + s), y.subrange(yo, yo + ys));
    let a = val_at(x, xo, xo + done) as int;
    let b = val_at(x, xo + done, xo + done + s) as int;
    let yv = val_at(y, yo, yo + ys) as int;
    let p = base_pow(done as nat) as int;
    assert(a * yv + b * yv * p == (a + b * p) * yv) by (nonlinear_arith);
    assert(done + s + ys == done + tn);
}

/// Multiplies the `xs` limbs of `x` from `xo` by the `ys` limbs of `y` from `yo`
/// (`xs >= ys > 0`), writing the `xs + ys` limbs of the product to `w` from `wo`.
pub fn mul(
    w: &mut Vec<u64>,
    wo: usize,
    x: &[u64],
    xo: usize,
    xs: usize,
    y: &[u64],
    yo: usize,
    ys: usize,
)
    requires
        0 < ys <= xs,
        wo + xs + ys <= old(w).len(),
        xo + xs <= x.len(),
        yo + ys <= y.len(),
    ensures
        same_outside(final(w)@, old(w)@, wo as int, wo + xs + ys),
        val_at(final(w)@, wo as int, wo + xs + ys) == val_at(x@, xo as int, xo + xs) * val_at(
            y@,
            yo as int,
            yo + ys,
        ),
{
    if ys <= TOOM22_THRESHOLD {
        mul_basecase(w, wo, x, xo, xs, y, yo, ys);
    } else if xs - ys >= ys - ys / 2 {
        mul_unbalanced(w, wo, x, xo, xs, y, yo, ys);
    } else {
        mul_toom22(w, wo, x, xo, xs, y, yo, ys);
    }
}

} // verus!

verus! {

/// Squares the `xs` limbs of `x` from `xo`, writing `2 xs` limbs to `w` from `wo`.
pub fn sqr(w: &mut Vec<u64>, wo: usize, x: &[u64], xo: usize, xs: usize)
    requires
        0 < xs,
        wo + 2 * xs <= old(w).len(),
        xo + xs <= x.len(),
    ensures
        same_outside(final(w)@, old(w)@, wo as int, wo + 2 * xs),
        val_at(final(w)@, wo as int, wo + 2 * xs) == val_at(x@, xo as int, xo + xs) * val_at(
            x@,
            xo as int,
            xo + xs,
        ),
{
    if xs <= TOOM22_THRESHOLD {
        mul_basecase(w, wo, x, xo, xs, x, xo, xs);
    } else {
        sqr_toom2(w, wo, x, xo, xs);
    }
}

/// Squaring dispatcher: schoolbook below the threshold, else Karatsuba squaring.
pub fn sqr_rec(w: &mut Vec<u64>, wo: usize, x: &[u64], xo: usize, xs: usize)
    requires
        0 < xs,
        wo + 2 * xs <= old(w).len(),
        xo + xs <= x.len(),
    ensures
        same_outside(final(w)@, old(w)@, wo as int, wo + 2 * xs),
        val_at(final(w)@, wo as int, wo + 2 * xs) == val_at(x@, xo as int, xo + xs) * val_at(
            x@,
            xo as int,
            xo + xs,
        ),
    decreases xs, 1nat,
{
    if xs < TOOM22_THRESHOLD {
        mul_basecase(w, wo, x, xo, xs, x, xo, xs);
    } else {
        sqr_toom2(w, wo, x, xo, xs);
    }
}

/// Karatsuba squaring: with `x = x0 + x1 * radix^xl`, the square is
/// `x0^2 + 2 x0 x1 radix^xl + x1^2 radix^(2 xl)`.
pub fn sqr_toom2(w: &mut Vec<u64>, wo: usize, x: &[u64], xo: usize, xs: usize)
    requires
        2 <= xs,
        wo + 2 * xs <= old(w).len(),
        xo + xs <= x.len(),
    ensures
        same_outside(final(w)@, old(w)@, wo as int, wo + 2 * xs),
        val_at(final(w)@, wo as int, wo + 2 * xs) == val_at(x@, xo as int, xo + xs) * val_at(
            x@,
            xo as int,
            xo + xs,
        ),
    decreases xs, 0nat,
{
    let xh = xs / 2;
    let xl = xs - xh;
    let ghost x0 = val_at(x@, xo as int, xo + xl) as int;
    let ghost x1 = val_at(x@, xo + xl, xo + xs) as int;

    let mut z1 = zeroed(xs);
    mul_rec(&mut z1, 0, x, xo, xl, x, xo + xl, xh);
    sqr_rec(w, wo, x, xo, xl);
    let ghost w5 = w@;
    sqr_rec(w, wo + 2 * xl, x, xo + xl, xh);
    let ghost w6 = w@;
    proof {
        assert(z1@.subrange(0, xs as int) =~= z1@);
        assert(w6.subrange(wo as int, wo + 2 * xl) =~= w5.subrange(wo as int, wo + 2 * xl));
        lemma_product_bound(x@.subrange(xo as int, xo + xl), x@.subrange(xo + xl, xo + xs));
        lemma_two_pow_room(xs as nat);
        lemma_base_pow_pos((xs + 1) as nat);
        assert(x0 * x1 >= 0) by (nonlinear_arith)
            requires
                x0 >= 0,
                x1 >= 0,
        ;
    }

    // 2 * x0 * x1 in xs + 1 limbs.
    let mut t = zeroed(xs + 1);
    assert(t@.subrange(0, xs + 1) =~= t@);
    assert(val(z1@) == x0 * x1);
    let c1 = add_to(&mut t, 0, xs + 1, z1.as_slice(), 0, xs);
    proof {
        assert(t@.subrange(0, xs + 1) =~= t@);
        lemma_no_carry(val(t@) as int, c1 as int, base_pow((xs + 1) as nat) as int, x0 * x1);
    }
    let c2 = add_to(&mut t, 0, xs + 1, z1.as_slice(), 0, xs);
    proof {
        assert(t@.subrange(0, xs + 1) =~= t@);
        lemma_no_carry(val(t@) as int, c2 as int, base_pow((xs + 1) as nat) as int, 2 * (x0 * x1));
    }

    let cout = add_to(w, wo + xl, 2 * xs - xl, t.as_slice(), 0, xs + 1);
    proof {
        lemma_sqr_assemble(x@, xo as int, xl as int, xh as int, w6, w@, wo as int, t@, cout as int);
    }
}

proof fn lemma_sqr_assemble(
    x: Seq<u64>,
    xo: int,
    xl: int,
    xh: int,
    w6: Seq<u64>,
    wn: Seq<u64>,
    wo: int,
    t: Seq<u64>,
    cout: int,
)
    requires
        0 <= xo,
        0 <= wo,
        0 < xh <= xl,
        xo + xl + xh <= x.len(),
        wo + 2 * (xl + xh) <= w6.len(),
        t.len() == xl + xh + 1,
        cout >= 0,
        val(t) == 2 * (val_at(x, xo, xo + xl) * val_at(x, xo + xl, xo + xl + xh)),
        val_at(w6, wo, wo + 2 * xl) == val_at(x, xo, xo + xl) * val_at(x, xo, xo + xl),
        val_at(w6, wo + 2 * xl, wo + 2 * (xl + xh)) == val_at(x, xo + xl, xo + xl + xh) * val_at(x, xo + xl, xo + xl + xh),
        same_outside(wn, w6, wo + xl, wo + 2 * (xl + xh)),
        val_at(wn, wo + xl, wo + 2 * (xl + xh)) + cout * base_pow((xl + 2 * xh) as nat) == val_at(w6, wo + xl, wo + 2 * (xl + xh)) + val_at(t, 0, xl + xh + 1),
    ensures
        val_at(wn, wo, wo + 2 * (xl + xh)) == val_at(x, xo, xo + xl + xh) * val_at(x, xo, xo + xl + xh),
{
    let xs = xl + xh;
    let x0 = val_at(x, xo, xo + xl) as int;
    let x1 = val_at(x, xo + xl, xo + xs) as int;
    let xv = val_at(x, xo, xo + xs) as int;
    lemma_val_split(x, xo, xo + xl, xo + xs);
    lemma_product_bound(x.subrange(xo, xo + xs), x.subrange(xo, xo + xs));
    lemma_val_split(w6, wo, wo + 2 * xl, wo + 2 * xs);
    lemma_val_split(w6, wo, wo + xl, wo + 2 * xs);
    lemma_val_split(w6, wo + xl, wo + 2 * xl, wo + 2 * xs);
    lemma_val_split(w6, wo, wo + xl, wo + 2 * xl);
    lemma_base_pow_adds(xl as nat, xl as nat);
    lemma_base_pow_adds(xl as nat, (xl + 2 * xh) as nat);
    let p = base_pow(xl as nat) as int;
    lemma_split_product(x0, x1, x0, x1, p);
    assert(t.subrange(0, xs + 1) =~= t);
    assert(wn.subrange(wo, wo + xl) =~= w6.subrange(wo, wo + xl));
    lemma_val_split(wn, wo, wo + xl, wo + 2 * xs);
    let low = val_at(w6, wo, wo + xl) as int;
    let rold = val_at(w6, wo + xl, wo + 2 * xs) as int;
    let rnew = val_at(wn, wo + xl, wo + 2 * xs) as int;
    let hz0 = val_at(w6, wo + xl, wo + 2 * xl) as int;
    let z2 = x1 * x1;
    let m = 2 * (x0 * x1);
    let pl = base_pow((xl + 2 * xh) as nat) as int;
    let ptop = base_pow((2 * xs) as nat) as int;
    assert(x0 * x1 + x1 * x0 == m) by (nonlinear_arith)
        requires
            m == 2 * (x0 * x1),
    ;
    assert(x0 * x0 == low + hz0 * p);
    assert(rold == hz0 + z2 * p);
    assert(low + rold * p == x0 * x0 + z2 * (p * p)) by (nonlinear_arith)
        requires
            x0 * x0 == low + hz0 * p,
            rold == hz0 + z2 * p,
    ;
    assert(low + rold * p + m * p == xv * xv);
    assert(p * pl == ptop);
    assert(low + rnew * p + cout * ptop == xv * xv) by (nonlinear_arith)
        requires
            low + rold * p + m * p == xv * xv,
            rnew + cout * pl == rold + m,
            p * pl == ptop,
    ;
    lemma_base_pow_pos(xl as nat);
    lemma_base_pow_pos((2 * xs) as nat);
    assert(rnew * p >= 0) by (nonlinear_arith)
        requires
            rnew >= 0,
            p >= 1,
    ;
    lemma_no_carry(low + rnew * p, cout, ptop, xv * xv);
}

} // verus!

verus! {

/// Two full products of the same operands agree limb for limb: whichever of
/// `mul_basecase`, `mul_toom22`, `mul_unbalanced` or `mul` wrote them, the
/// `xs + ys` limbs are those of `x * y`.
pub proof fn law_products_agree(x: Seq<u64>, y: Seq<u64>, w1: Seq<u64>, w2: Seq<u64>)
    requires
        w1.len() == x.len() + y.len(),
        w2.len() == x.len() + y.len(),
        val(w1) == val(x) * val(y),
        val(w2) == val(x) * val(y),
    ensures
        w1 == w2,
{
    crate::value::lemma_val_injective(w1, w2);
}

/// A square written by `sqr` (or `sqr_toom2`) equals the product of `x` with
/// itself written by `mul`, limb for limb.
pub proof fn law_square_is_product(x: Seq<u64>, w_sqr: Seq<u64>, w_mul: Seq<u64>)
    requires
        w_sqr.len() == 2 * x.len(),
        w_mul.len() == x.len() + x.len(),
        val(w_sqr) == val(x) * val(x),
        val(w_mul) == val(x) * val(x),
    ensures
        w_sqr == w_mul,
{
    crate::value::lemma_val_injective(w_sqr, w_mul);
}

} // verus!
