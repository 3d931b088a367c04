use vstd::prelude::*;

use core::cmp::Ordering;

use crate::limb::{add_overflow, radix, sub_overflow};
use crate::value::{
    base_pow, lemma_base_pow_pos, lemma_val_at_step, lemma_val_bound, lemma_val_concat,
    lemma_val_split, lemma_val_zeros, same_outside, val, val_at,
};

verus! {

/// `n` zero limbs.
pub open spec fn zeros(n: nat) -> Seq<u64> {
    Seq::new(n, |i: int| 0u64)
}

/// `s` followed by zeros up to length `n`.
pub open spec fn padded(s: Seq<u64>, n: nat) -> Seq<u64> {
    s + zeros((n - s.len()) as nat)
}

pub proof fn lemma_val_padded(s: Seq<u64>, n: nat)
    requires
        s.len() <= n,
    ensures
        val(padded(s, n)) == val(s),
        padded(s, n).len() == n,
{
    lemma_val_zeros(zeros((n - s.len()) as nat));
    lemma_val_concat(s, zeros((n - s.len()) as nat));
}

/// A fresh buffer of `n` zero limbs.
pub fn zeroed(n: usize) -> (r: Vec<u64>)
    ensures
        r@ == zeros(n as nat),
        val(r@) == 0,
{
    let mut r: Vec<u64> = Vec::with_capacity(n);
    let mut i: usize = 0;
    while i < n
        invariant
            i <= n,
            r@ == zeros(i as nat),
        decreases n - i,
    {
        r.push(0);
        i = i + 1;
        proof {
            assert(r@ =~= zeros(i as nat));
        }
    }
    proof {
        lemma_val_zeros(r@);
    }
    r
}

/// Copies `n` limbs of `src` from `so` to `dst` from `d`.
pub fn copy_incr(src: &[u64], so: usize, dst: &mut Vec<u64>, d: usize, n: usize)
    requires
        so + n <= src.len(),
        d + n <= old(dst).len(),
    ensures
        same_outside(final(dst)@, old(dst)@, d as int, d + n),
        final(dst)@.subrange(d as int, d + n) == src@.subrange(so as int, so + n),
{
    let ghost d0 = dst@;
    let mut i: usize = 0;
    while i < n
        invariant
            i <= n,
            so + n <= src.len(),
            d + n <= dst.len(),
            same_outside(dst@, d0, d as int, d + i),
            forall|k: int| d <= k < d + i ==> #[trigger] dst@[k] == src@[so + (k - d)],
        decreases n - i,
    {
        dst.set(d + i, src[so + i]);
        i = i + 1;
    }
    assert(dst@.subrange(d as int, d + n) =~= src@.subrange(so as int, so + n));
}

/// Sets `n` limbs of `dst` from `d` to zero.
pub fn zero(dst: &mut Vec<u64>, d: usize, n: usize)
    requires
        d + n <= old(dst).len(),
    ensures
        same_outside(final(dst)@, old(dst)@, d as int, d + n),
        final(dst)@.subrange(d as int, d + n) == zeros(n as nat),
        val_at(final(dst)@, d as int, d + n) == 0,
{
    let ghost d0 = dst@;
    let mut i: usize = 0;
    while i < n
        invariant
            i <= n,
            d + n <= dst.len(),
            same_outside(dst@, d0, d as int, d + i),
            forall|k: int| d <= k < d + i ==> #[trigger] dst@[k] == 0,
        decreases n - i,
    {
        dst.set(d + i, 0);
        i = i + 1;
    }
    proof {
        assert(dst@.subrange(d as int, d + n) =~= zeros(n as nat));
        lemma_val_zeros(zeros(n as nat));
    }
}

/// Whether the `n` limbs of `src` from `so` are all zero.
pub fn is_zero(src: &[u64], so: usize, n: usize) -> (r: bool)
    requires
        so + n <= src.len(),
    ensures
        r == (val_at(src@, so as int, so + n) == 0),
{
    let mut i: usize = 0;
    while i < n
        invariant
            i <= n,
            so + n <= src.len(),
            forall|k: int| so <= k < so + i ==> #[trigger] src@[k] == 0,
        decreases n - i,
    {
        if src[so + i] != 0 {
            proof {
                let s = src@.subrange(so as int, so + n);
                lemma_val_split(src@, so as int, so + i, so + n);
                lemma_val_split(src@, so + i, so + i + 1, so + n);
                lemma_val_at_step(src@, so + i, so + i);
                assert(src@.subrange(so + i, so + i) =~= Seq::<u64>::empty());
                lemma_base_pow_pos((i + 1) as nat);
                lemma_base_pow_pos(i as nat);
                lemma_base_pow_pos(0);
                let a = val_at(src@, so as int, so + i);
                let b = val_at(src@, so + i, so + i + 1);
                let c = val_at(src@, so + i + 1, so + n);
                assert(b == src@[so + i] as nat * base_pow(0));
                assert(base_pow(0) == 1);
                assert(b >= 1);
                assert(a + (b + c * base_pow(1)) * base_pow(i as nat) >= 1) by (nonlinear_arith)
                    requires
                        b >= 1,
                        base_pow(i as nat) >= 1,
                ;
            }
            return false;
        }
        i = i + 1;
    }
    proof {
        let s = src@.subrange(so as int, so + n);
        assert forall|k: int| 0 <= k < s.len() implies s[k] == 0 by {
            assert(s[k] == src@[so + k]);
        }
        lemma_val_zeros(s);
    }
    true
}

/// If the limbs above `i` agree and limb `i` of `x` is smaller, `x` is smaller.
proof fn lemma_cmp_at(x: Seq<u64>, y: Seq<u64>, i: int)
    requires
        x.len() == y.len(),
        0 <= i < x.len(),
        x[i] < y[i],
        x.subrange(i + 1, x.len() as int) == y.subrange(i + 1, y.len() as int),
    ensures
        val(x) < val(y),
{
    let n = x.len() as int;
    lemma_val_split(x, 0, i, n);
    lemma_val_split(y, 0, i, n);
    lemma_val_at_step(x, i, i);
    lemma_val_at_step(y, i, i);
    lemma_val_split(x, i, i + 1, n);
    lemma_val_split(y, i, i + 1, n);
    assert(x.subrange(i, i) =~= Seq::<u64>::empty());
    assert(y.subrange(i, i) =~= Seq::<u64>::empty());
    assert(x.subrange(0, n) =~= x);
    assert(y.subrange(0, n) =~= y);
    assert(base_pow(0) == 1);
    assert(base_pow(1) == radix()) by {
        assert(base_pow(1) == radix() * base_pow(0));
    }
    lemma_val_bound(x.subrange(0, i));
    let p = base_pow(i as nat);
    let lx = val_at(x, 0, i);
    let ly = val_at(y, 0, i);
    let h = val_at(x, i + 1, n);
    assert(lx + (x[i] + h * radix()) * p < ly + (y[i] + h * radix()) * p) by (nonlinear_arith)
        requires
            lx < p,
            ly >= 0,
            x[i] < y[i],
    ;
}

/// Compares the `n` limbs of `x` from `xo` with the `n` limbs of `y` from `yo`.
pub fn cmp(x: &[u64], xo: usize, y: &[u64], yo: usize, n: usize) -> (r: Ordering)
    requires
        xo + n <= x.len(),
        yo + n <= y.len(),
    ensures
        r == Ordering::Less <==> val_at(x@, xo as int, xo + n) < val_at(y@, yo as int, yo + n),
        r == Ordering::Equal <==> val_at(x@, xo as int, xo + n) == val_at(y@, yo as int, yo + n),
        r == Ordering::Greater <==> val_at(x@, xo as int, xo + n) > val_at(y@, yo as int, yo + n),
{
    let ghost xs = x@.subrange(xo as int, xo + n);
    let ghost ys = y@.subrange(yo as int, yo + n);
    let mut i: usize = n;
    while i > 0
        invariant
            i <= n,
            xo + n <= x.len(),
            yo + n <= y.len(),
            xs == x@.subrange(xo as int, xo + n),
            ys == y@.subrange(yo as int, yo + n),
            xs.subrange(i as int, n as int) == ys.subrange(i as int, n as int),
        decreases i,
    {
        let a = x[xo + i - 1];
        let b = y[yo + i - 1];
        if a != b {
            proof {
                assert(xs.subrange(i as int, n as int) =~= xs.subrange(i - 1 + 1, xs.len() as int));
                assert(ys.subrange(i as int, n as int) =~= ys.subrange(i - 1 + 1, ys.len() as int));
                if a < b {
                    lemma_cmp_at(xs, ys, i - 1);
                } else {
                    lemma_cmp_at(ys, xs, i - 1);
                }
            }
            if a < b {
                return Ordering::Less;
            } else {
                return Ordering::Greater;
            }
        }
        proof {
            assert(xs.subrange(i - 1, n as int) =~= xs.subrange(i as int, n as int).insert(0, a));
            assert(ys.subrange(i - 1, n as int) =~= ys.subrange(i as int, n as int).insert(0, b));
        }
        i = i - 1;
    }
    proof {
        assert(xs =~= xs.subrange(0, n as int));
        assert(ys =~= ys.subrange(0, n as int));
    }
    Ordering::Equal
}

proof fn lemma_add_step(vw: int, vw0: int, vy: int, c: int, t: int, c2: int, wi: int, yi: int, p: int)
    requires
        vw + c * p == vw0 + vy,
        t + c2 * radix() == wi + yi + c,
    ensures
        (vw + t * p) + c2 * (radix() * p) == (vw0 + wi * p) + (vy + yi * p),
{
    assert((vw + t * p) + c2 * (radix() * p) == vw + (t + c2 * radix()) * p) by (nonlinear_arith);
    assert(vw + (wi + yi + c) * p == vw + c * p + wi * p + yi * p) by (nonlinear_arith);
}

/// Adds the `yn` limbs of `y` from `yo` to the `wn` limbs of `w` from `wo`
/// (`yn <= wn`). Returns the carry out of the top.
pub fn add_to(w: &mut Vec<u64>, wo: usize, wn: usize, y: &[u64], yo: usize, yn: usize) -> (carry: u64)
    requires
        yn <= wn,
        wo + wn <= old(w).len(),
        yo + yn <= y.len(),
    ensures
        carry <= 1,
        same_outside(final(w)@, old(w)@, wo as int, wo + wn),
        val_at(final(w)@, wo as int, wo + wn) + carry * base_pow(wn as nat) == val_at(
            old(w)@,
            wo as int,
            wo + wn,
        ) + val_at(y@, yo as int, yo + yn),
{
    let ghost w0 = w@;
    let ghost ys = padded(y@.subrange(yo as int, yo + yn), wn as nat);
    proof {
        lemma_val_padded(y@.subrange(yo as int, yo + yn), wn as nat);
        assert(ys.subrange(0, wn as int) =~= ys);
        assert(ys.subrange(0, 0) =~= Seq::<u64>::empty());
        assert(w@.subrange(wo as int, wo as int) =~= Seq::<u64>::empty());
        assert(base_pow(0) == 1);
    }
    let mut c: u64 = 0;
    let mut i: usize = 0;
    while i < wn
        invariant
            i <= wn,
            yn <= wn,
            wo + wn <= w.len(),
            yo + yn <= y.len(),
            c <= 1,
            ys == padded(y@.subrange(yo as int, yo + yn), wn as nat),
            ys.len() == wn,
            same_outside(w@, w0, wo as int, wo + i),
            val_at(w@, wo as int, wo + i) + c * base_pow(i as nat) == val_at(w0, wo as int, wo + i)
                + val_at(ys, 0, i as int),
        decreases wn - i,
    {
        let yi: u64 = if i < yn {
            y[yo + i]
        } else {
            0
        };
        assert(yi == ys[i as int]);
        let wi = w[wo + i];
        let (s1, c1) = add_overflow(wi, yi);
        let (s2, c2) = add_overflow(s1, c);
        let nc: u64 = if c1 || c2 {
            1
        } else {
            0
        };
        proof {
            assert(!(c1 && c2));
        }
        let ghost wprev = w@;
        w.set(wo + i, s2);
        proof {
            assert(w@.subrange(wo as int, wo + i) =~= wprev.subrange(wo as int, wo + i));
            lemma_val_at_step(w@, wo as int, wo + i);
            lemma_val_at_step(w0, wo as int, wo + i);
            lemma_val_at_step(ys, 0, i as int);
            lemma_add_step(
                val_at(wprev, wo as int, wo + i) as int,
                val_at(w0, wo as int, wo + i) as int,
                val_at(ys, 0, i as int) as int,
                c as int,
                s2 as int,
                nc as int,
                wi as int,
                yi as int,
                base_pow(i as nat) as int,
            );
            assert(base_pow((i + 1) as nat) == radix() * base_pow(i as nat));
        }
        c = nc;
        i = i + 1;
    }
    c
}

/// Adds the single limb `c` to the `n` limbs of `w` from `wo`. Returns the carry out.
pub fn incr(w: &mut Vec<u64>, wo: usize, n: usize, c: u64) -> (carry: u64)
    requires
        0 < n,
        wo + n <= old(w).len(),
    ensures
        carry <= 1,
        same_outside(final(w)@, old(w)@, wo as int, wo + n),
        val_at(final(w)@, wo as int, wo + n) + carry * base_pow(n as nat) == val_at(
            old(w)@,
            wo as int,
            wo + n,
        ) + c,
{
    let mut cv = zeroed(1);
    cv.set(0, c);
    proof {
        crate::value::lemma_val_single(cv@, 0);
    }
    add_to(w, wo, n, cv.as_slice(), 0, 1)
}

proof fn lemma_sub_step(vw: int, vw0: int, vy: int, c: int, t: int, c2: int, wi: int, yi: int, p: int)
    requires
        vw - c * p == vw0 - vy,
        t - c2 * radix() == wi - yi - c,
    ensures
        (vw + t * p) - c2 * (radix() * p) == (vw0 + wi * p) - (vy + yi * p),
{
    assert((vw + t * p) - c2 * (radix() * p) == vw + (t - c2 * radix()) * p) by (nonlinear_arith);
    assert(vw + (wi - yi - c) * p == vw - c * p + wi * p - yi * p) by (nonlinear_arith);
}

/// Subtracts the `yn` limbs of `y` from `yo` from the `wn` limbs of `w` from `wo`
/// (`yn <= wn`). Returns the borrow out of the top.
pub fn sub_from(w: &mut Vec<u64>, wo: usize, wn: usize, y: &[u64], yo: usize, yn: usize) -> (borrow: u64)
    requires
        yn <= wn,
        wo + wn <= old(w).len(),
        yo + yn <= y.len(),
    ensures
        borrow <= 1,
        same_outside(final(w)@, old(w)@, wo as int, wo + wn),
        val_at(final(w)@, wo as int, wo + wn) - borrow * base_pow(wn as nat) == val_at(
            old(w)@,
            wo as int,
            wo + wn,
        ) - val_at(y@, yo as int, yo + yn),
{
    let ghost w0 = w@;
    let ghost ys = padded(y@.subrange(yo as int, yo + yn), wn as nat);
    proof {
        lemma_val_padded(y@.subrange(yo as int, yo + yn), wn as nat);
        assert(ys.subrange(0, wn as int) =~= ys);
        assert(ys.subrange(0, 0) =~= Seq::<u64>::empty());
        assert(w@.subrange(wo as int, wo as int) =~= Seq::<u64>::empty());
        assert(base_pow(0) == 1);
    }
    let mut c: u64 = 0;
    let mut i: usize = 0;
    while i < wn
        invariant
            i <= wn,
            yn <= wn,
            wo + wn <= w.len(),
            yo + yn <= y.len(),
            c <= 1,
            ys == padded(y@.subrange(yo as int, yo + yn), wn as nat),
            ys.len() == wn,
            same_outside(w@, w0, wo as int, wo + i),
            val_at(w@, wo as int, wo + i) - c * base_pow(i as nat) == val_at(w0, wo as int, wo + i)
                - val_at(ys, 0, i as int),
        decreases wn - i,
    {
        let yi: u64 = if i < yn {
            y[yo + i]
        } else {
            0
        };
        assert(yi == ys[i as int]);
        let wi = w[wo + i];
        let (s1, c1) = sub_overflow(wi, yi);
        let (s2, c2) = sub_overflow(s1, c);
        let nc: u64 = if c1 || c2 {
            1
        } else {
            0
        };
        proof {
            assert(!(c1 && c2));
        }
        let ghost wprev = w@;
        w.set(wo + i, s2);
        proof {
            assert(w@.subrange(wo as int, wo + i) =~= wprev.subrange(wo as int, wo + i));
            lemma_val_at_step(w@, wo as int, wo + i);
            lemma_val_at_step(w0, wo as int, wo + i);
            lemma_val_at_step(ys, 0, i as int);
            lemma_sub_step(
                val_at(wprev, wo as int, wo + i) as int,
                val_at(w0, wo as int, wo + i) as int,
                val_at(ys, 0, i as int) as int,
                c as int,
                s2 as int,
                nc as int,
                wi as int,
                yi as int,
                base_pow(i as nat) as int,
            );
            assert(base_pow((i + 1) as nat) == radix() * base_pow(i as nat));
        }
        c = nc;
        i = i + 1;
    }
    c
}

} // verus!
