use vstd::prelude::*;

use vstd::arithmetic::div_mod::{
    lemma_fundamental_div_mod, lemma_mod_equivalence, lemma_mod_multiples_vanish, lemma_mul_mod_noop,
    lemma_mul_mod_noop_left, lemma_small_mod,
};
use vstd::arithmetic::power::{lemma_pow0, lemma_pow1, lemma_pow_adds, pow};
use vstd::arithmetic::power2::{lemma2_to64, lemma_pow2_adds, pow2};

use crate::addsub::{copy_incr, zeroed};
use crate::exponent::{
    bit_length, lemma_base_pow_is_pow2, lemma_high_bit_zero, lemma_window_prefix, window_value,
};
use crate::limb::radix;
use crate::mul::{mul_rec, sqr_rec};
use crate::redc::redc;
use crate::value::{
    base_pow, lemma_base_pow_pos, lemma_val_bound, lemma_val_single, lemma_val_split, val, val_at,
};

verus! {

/// Window width of the Montgomery exponentiation.
pub const MTGY_WINDOW: usize = 6;

/// `v` is the Montgomery form of `a^e` for modulus `nv` and radix `rr`:
/// below `nv`, and `v * rr^e == a^e * rr` modulo `nv`.
pub open spec fn mont_rep(v: int, e: nat, a: int, nv: int, rr: int) -> bool {
    &&& 0 <= v < nv
    &&& (v * pow(rr, e)) % nv == (pow(a, e) * rr) % nv
}

/// An odd modulus divides `d` when it divides `2 d`.
proof fn lemma_cancel_two(nv: int, d: int)
    requires
        nv > 0,
        nv % 2 == 1,
        (2 * d) % nv == 0,
    ensures
        d % nv == 0,
{
    lemma_fundamental_div_mod(2 * d, nv);
    let q = (2 * d) / nv;
    assert(2 * d == nv * q);
    lemma_fundamental_div_mod(q, 2);
    lemma_fundamental_div_mod(nv, 2);
    let h = q / 2;
    let g = nv / 2;
    if q % 2 == 1 {
        assert(nv * q == 2 * (2 * g * h + g + h) + 1) by (nonlinear_arith)
            requires
                q == 2 * h + 1,
                nv == 2 * g + 1,
        ;
        assert(2 * d == 2 * (2 * g * h + g + h) + 1);
    }
    assert(d == nv * h) by (nonlinear_arith)
        requires
            2 * d == nv * q,
            q == 2 * h,
    ;
    lemma_mod_multiples_vanish(h, 0, nv);
}

/// Multiplying by a power of two can be undone modulo an odd number.
proof fn lemma_cancel_pow2(nv: int, x: int, y: int, e: nat)
    requires
        nv > 0,
        nv % 2 == 1,
        (x * pow2(e)) % nv == (y * pow2(e)) % nv,
    ensures
        x % nv == y % nv,
    decreases e,
{
    if e == 0 {
        assert(pow2(0) == 1) by {
            lemma2_to64();
        }
        let p = pow2(0) as int;
        assert(x * p == x && y * p == y) by (nonlinear_arith)
            requires
                p == 1,
        ;
    } else {
        lemma_pow2_adds(1, (e - 1) as nat);
        lemma2_to64();
        let p = pow2((e - 1) as nat) as int;
        assert(x * pow2(e) == (2 * x) * p) by (nonlinear_arith)
            requires
                pow2(e) == 2 * p,
        ;
        assert(y * pow2(e) == (2 * y) * p) by (nonlinear_arith)
            requires
                pow2(e) == 2 * p,
        ;
        lemma_cancel_pow2(nv, 2 * x, 2 * y, (e - 1) as nat);
        lemma_mod_equivalence(2 * x, 2 * y, nv);
        lemma_mod_equivalence(x, y, nv);
        assert(2 * x - 2 * y == 2 * (x - y));
        lemma_cancel_two(nv, x - y);
    }
}

/// Multiplying by the Montgomery radix can be undone modulo an odd number.
pub proof fn lemma_cancel_radix(nv: int, x: int, y: int, r: nat)
    requires
        nv > 0,
        nv % 2 == 1,
        (x * base_pow(r)) % nv == (y * base_pow(r)) % nv,
    ensures
        x % nv == y % nv,
{
    lemma_base_pow_is_pow2(r);
    lemma_cancel_pow2(nv, x, y, 64 * r);
}

/// A Montgomery product of two Montgomery powers is the Montgomery form of the
/// product of the powers.
pub proof fn lemma_mont_mul(x: int, e1: nat, y: int, e2: nat, z: int, a: int, nv: int, r: nat)
    requires
        nv > 0,
        nv % 2 == 1,
        mont_rep(x, e1, a, nv, base_pow(r) as int),
        mont_rep(y, e2, a, nv, base_pow(r) as int),
        0 <= z < nv,
        (z * base_pow(r)) % nv == (x * y) % nv,
    ensures
        mont_rep(z, e1 + e2, a, nv, base_pow(r) as int),
{
    let rr = base_pow(r) as int;
    let r1 = pow(rr, e1);
    let r2 = pow(rr, e2);
    let a1 = pow(a, e1);
    let a2 = pow(a, e2);
    lemma_pow_adds(rr, e1, e2);
    lemma_pow_adds(a, e1, e2);
    // (z r1 r2) rr == (x y) r1 r2 == (x r1)(y r2) == (a1 rr)(a2 rr) == (a1 a2 rr) rr
    assert((z * (r1 * r2)) * rr == (z * rr) * (r1 * r2)) by (nonlinear_arith);
    lemma_mul_mod_noop_left(z * rr, r1 * r2, nv);
    lemma_mul_mod_noop_left(x * y, r1 * r2, nv);
    assert((x * y) * (r1 * r2) == (x * r1) * (y * r2)) by (nonlinear_arith);
    lemma_mul_mod_noop(x * r1, y * r2, nv);
    lemma_mul_mod_noop(a1 * rr, a2 * rr, nv);
    assert((a1 * rr) * (a2 * rr) == ((a1 * a2) * rr) * rr) by (nonlinear_arith);
    assert(((z * (r1 * r2)) * rr) % nv == (((a1 * a2) * rr) * rr) % nv);
    lemma_cancel_radix(nv, z * (r1 * r2), (a1 * a2) * rr, r);
    lemma_small_mod(z as nat, nv as nat);
}

/// `w := w * y / R mod N`, both factors below `N`, through `t` (`2 r + 1` limbs).
pub(crate) fn mont_mul(w: &mut Vec<u64>, r_limbs: usize, y: &[u64], n: &[u64], nquote0: u64, t: &mut Vec<u64>)
    requires
        0 < r_limbs,
        old(w).len() == r_limbs,
        y.len() == r_limbs,
        r_limbs <= n.len(),
        old(t).len() == 2 * r_limbs + 1,
        (n@[0] * nquote0 + 1) % (radix() as int) == 0,
        val(old(w)@) < val_at(n@, 0, r_limbs as int),
        val(y@) < val_at(n@, 0, r_limbs as int),
    ensures
        final(w).len() == r_limbs,
        final(t).len() == old(t).len(),
        val(final(w)@) < val_at(n@, 0, r_limbs as int),
        (val(final(w)@) * base_pow(r_limbs as nat)) % val_at(n@, 0, r_limbs as int) == (val(old(w)@)
            * val(y@)) % val_at(n@, 0, r_limbs as int),
{
    let r = r_limbs;
    proof {
        assert(w@.subrange(0, r as int) =~= w@);
        assert(y@.subrange(0, r as int) =~= y@);
    }
    mul_rec(t, 0, w.as_slice(), 0, r, y, 0, r);
    let ghost t1 = t@;
    t.set(2 * r, 0);
    proof {
        assert(t@.subrange(0, 2 * r as int) =~= t1.subrange(0, 2 * r as int));
        lemma_product_below(val(w@) as int, val(y@) as int, val_at(n@, 0, r as int) as int, r as nat, n@);
        lemma_val_split(t@, 0, 2 * r as int, 2 * r + 1);
        lemma_val_single(t@, 2 * r as int);
        assert(t@.subrange(0, 2 * r + 1) =~= t@);
        let lowt = val_at(t@, 0, 2 * r as int);
        let ptop = base_pow(2 * r as nat);
        assert(val(t@) == lowt + 0 * ptop);
        assert(lowt + 0 * ptop == lowt) by (nonlinear_arith);
    }
    redc(w, r, n, nquote0, t);
    proof {
        assert(w@.subrange(0, r as int) =~= w@);
    }
}

/// `w := w * w / R mod N`, through `t` (`2 r + 1` limbs).
pub(crate) fn mont_sqr(w: &mut Vec<u64>, r_limbs: usize, n: &[u64], nquote0: u64, t: &mut Vec<u64>)
    requires
        0 < r_limbs,
        old(w).len() == r_limbs,
        r_limbs <= n.len(),
        old(t).len() == 2 * r_limbs + 1,
        (n@[0] * nquote0 + 1) % (radix() as int) == 0,
        val(old(w)@) < val_at(n@, 0, r_limbs as int),
    ensures
        final(w).len() == r_limbs,
        final(t).len() == old(t).len(),
        val(final(w)@) < val_at(n@, 0, r_limbs as int),
        (val(final(w)@) * base_pow(r_limbs as nat)) % val_at(n@, 0, r_limbs as int) == (val(old(w)@)
            * val(old(w)@)) % val_at(n@, 0, r_limbs as int),
{
    let r = r_limbs;
    proof {
        assert(w@.subrange(0, r as int) =~= w@);
    }
    sqr_rec(t, 0, w.as_slice(), 0, r);
    let ghost t1 = t@;
    t.set(2 * r, 0);
    proof {
        assert(t@.subrange(0, 2 * r as int) =~= t1.subrange(0, 2 * r as int));
        lemma_product_below(val(w@) as int, val(w@) as int, val_at(n@, 0, r as int) as int, r as nat, n@);
        lemma_val_split(t@, 0, 2 * r as int, 2 * r + 1);
        lemma_val_single(t@, 2 * r as int);
        assert(t@.subrange(0, 2 * r + 1) =~= t@);
        let lowt = val_at(t@, 0, 2 * r as int);
        let ptop = base_pow(2 * r as nat);
        assert(val(t@) == lowt + 0 * ptop);
        assert(lowt + 0 * ptop == lowt) by (nonlinear_arith);
    }
    redc(w, r, n, nquote0, t);
    proof {
        assert(w@.subrange(0, r as int) =~= w@);
    }
}

proof fn lemma_product_below(x: int, y: int, nv: int, r: nat, n: Seq<u64>)
    requires
        r <= n.len(),
        nv == val_at(n, 0, r as int),
        0 <= x < nv,
        0 <= y < nv,
    ensures
        x * y < nv * base_pow(r),
{
    lemma_val_bound(n.subrange(0, r as int));
    assert(x * y < nv * base_pow(r)) by (nonlinear_arith)
        requires
            0 <= x < nv,
            0 <= y < nv,
            nv < base_pow(r),
    ;
}

/// Montgomery exponentiation by fixed windows, scanned from the top bit down.
/// `a` is a base in Montgomery form (`r` limbs, below `N`), `b` the exponent
/// (`bn` limbs), `w` holds on entry the Montgomery form of one (`R mod N`).
/// On return `w` is the Montgomery form of `a^b`.
pub fn modpow(
    w: &mut Vec<u64>,
    r_limbs: usize,
    n: &[u64],
    nquote0: u64,
    a: &[u64],
    b: &[u64],
    bn: usize,
)
    requires
        0 < r_limbs,
        old(w).len() == r_limbs,
        r_limbs <= n.len(),
        r_limbs <= a.len(),
        bn <= b.len(),
        bn < 0x0200_0000_0000_0000,
        2 * r_limbs + 1 <= usize::MAX,
        val_at(n@, 0, r_limbs as int) % 2 == 1,
        (n@[0] * nquote0 + 1) % (radix() as int) == 0,
        val_at(a@, 0, r_limbs as int) < val_at(n@, 0, r_limbs as int),
        val(old(w)@) == base_pow(r_limbs as nat) % val_at(n@, 0, r_limbs as int),
    ensures
        final(w).len() == r_limbs,
        mont_rep(
            val(final(w)@) as int,
            val_at(b@, 0, bn as int),
            val_at(a@, 0, r_limbs as int) as int,
            val_at(n@, 0, r_limbs as int) as int,
            base_pow(r_limbs as nat) as int,
        ),
{
    let r = r_limbs;
    let k: usize = MTGY_WINDOW;
    let ghost nv = val_at(n@, 0, r as int) as int;
    let ghost rr = base_pow(r as nat) as int;
    let ghost av = val_at(a@, 0, r as int) as int;
    let ghost ev = val_at(b@, 0, bn as int);
    proof {
        lemma_val_bound(n@.subrange(0, r as int));
        lemma_base_pow_pos(r as nat);
    }

    let mut t = zeroed(2 * r + 1);

    // The table of a^j in Montgomery form; entry 0 is the plain one and is never used.
    let mut table: Vec<Vec<u64>> = Vec::new();
    let mut pow_0 = zeroed(r);
    pow_0.set(0, 1);
    table.push(pow_0);
    let mut pow_1 = zeroed(r);
    copy_incr(a, 0, &mut pow_1, 0, r);
    proof {
        assert(pow_1@ =~= a@.subrange(0, r as int));
        lemma_pow1(av);
        lemma_pow1(rr);
    }
    table.push(pow_1);
    let mut j: usize = 2;
    while j < 64
        invariant
            2 <= j <= 64,
            table.len() == j,
            0 < r,
            t.len() == 2 * r + 1,
            r <= n.len(),
            nv == val_at(n@, 0, r as int),
            rr == base_pow(r as nat),
            nv % 2 == 1,
            nv > 0,
            (n@[0] * nquote0 + 1) % (radix() as int) == 0,
            forall|q: int| 1 <= q < j ==> (#[trigger] table@[q]).len() == r,
            forall|q: int| 1 <= q < j ==> mont_rep(val((#[trigger] table@[q])@) as int, q as nat, av, nv, rr),
        decreases 64 - j,
    {
        let mut next = zeroed(r);
        copy_incr(table[j - 1].as_slice(), 0, &mut next, 0, r);
        proof {
            assert(next@.subrange(0, r as int) =~= next@);
            assert(table@[j - 1]@.subrange(0, r as int) =~= table@[j - 1]@);
            assert(next@ =~= table@[j - 1]@);
            assert(mont_rep(val(table@[j - 1]@) as int, (j - 1) as nat, av, nv, rr));
            assert(mont_rep(val(table@[1]@) as int, 1, av, nv, rr));
        }
        let ghost prev = val(next@) as int;
        mont_mul(&mut next, r, table[1].as_slice(), n, nquote0, &mut t);
        proof {
            lemma_mont_mul(prev, (j - 1) as nat, val(table@[1]@) as int, 1, val(next@) as int, av, nv, r as nat);
        }
        table.push(next);
        j = j + 1;
    }

    let l = bit_length(b, bn);
    let count: u64 = (l + 5) / 6;
    proof {
        assert(b@.subrange(0, bn as int).subrange(0, bn as int) =~= b@.subrange(0, bn as int));
        lemma_high_bit_zero(ev, l as nat, (count * 6) as nat);
        lemma_pow0(rr);
        lemma_pow0(av);
        lemma_small_mod(val(w@), nv as nat);
        assert(mont_rep(val(w@) as int, 0, av, nv, rr));
    }
    let mut i: u64 = count;
    while i > 0
        invariant
            i <= count,
            bn < 0x0200_0000_0000_0000,
            count == (l + 5) / 6,
            l <= 64 * bn,
            ev < pow2(l as nat),
            ev == val_at(b@, 0, bn as int),
            bn <= b.len(),
            k == 6,
            w.len() == r,
            0 < r,
            t.len() == 2 * r + 1,
            r <= n.len(),
            nv == val_at(n@, 0, r as int),
            rr == base_pow(r as nat),
            nv % 2 == 1,
            nv > 0,
            (n@[0] * nquote0 + 1) % (radix() as int) == 0,
            table.len() == 64,
            forall|q: int| 1 <= q < 64 ==> (#[trigger] table@[q]).len() == r,
            forall|q: int| 1 <= q < 64 ==> mont_rep(val((#[trigger] table@[q])@) as int, q as nat, av, nv, rr),
            mont_rep(val(w@) as int, ev / pow2((i * 6) as nat), av, nv, rr),
        decreases i,
    {
        i = i - 1;
        let ghost e0 = ev / pow2(((i + 1) * 6) as nat);
        assert(i * 6 < l);
        let block_value = window_value(b, bn, l, i, k);
        proof {
            lemma2_to64();
            lemma_window_prefix(ev, i as nat, 6);
        }
        let mut s: usize = 0;
        let ghost wexp = e0;
        proof {
            let unit = pow2(0);
            assert(e0 * unit == e0) by (nonlinear_arith)
                requires
                    unit == 1,
            ;
        }
        while s < k
            invariant
                s <= k,
                k == 6,
                w.len() == r,
                0 < r,
                t.len() == 2 * r + 1,
                r <= n.len(),
                nv == val_at(n@, 0, r as int),
                rr == base_pow(r as nat),
                nv % 2 == 1,
                nv > 0,
                (n@[0] * nquote0 + 1) % (radix() as int) == 0,
                wexp == e0 * pow2(s as nat),
                mont_rep(val(w@) as int, wexp, av, nv, rr),
            decreases k - s,
        {
            let ghost before = val(w@) as int;
            mont_sqr(&mut *w, r, n, nquote0, &mut t);
            proof {
                lemma_mont_mul(before, wexp, before, wexp, val(w@) as int, av, nv, r as nat);
                lemma_pow2_adds(s as nat, 1);
                lemma2_to64();
                assert(wexp + wexp == e0 * pow2((s + 1) as nat)) by (nonlinear_arith)
                    requires
                        wexp == e0 * pow2(s as nat),
                        pow2((s + 1) as nat) == pow2(s as nat) * 2,
                ;
                wexp = wexp + wexp;
            }
            s = s + 1;
        }
        if block_value != 0 {
            let ghost before = val(w@) as int;
            proof {
                assert(mont_rep(val(table@[block_value as int]@) as int, block_value as nat, av, nv, rr));
            }
            mont_mul(&mut *w, r, table[block_value].as_slice(), n, nquote0, &mut t);
            proof {
                lemma_mont_mul(before, wexp, val(table@[block_value as int]@) as int, block_value as nat, val(w@) as int, av, nv, r as nat);
            }
        }
        proof {
            assert(ev / pow2((i * 6) as nat) == e0 * pow2(6) + block_value);
        }
    }
    proof {
        lemma2_to64();
        assert(ev / pow2(0) == ev);
    }
}

/// Montgomery exponentiation that derives `-1 / N` modulo the radix from the
/// low limb of `N` itself, then runs `modpow`.
pub fn modpow_by_montgomery(w: &mut Vec<u64>, r_limbs: usize, n: &[u64], a: &[u64], b: &[u64], bn: usize)
    requires
        0 < r_limbs,
        old(w).len() == r_limbs,
        r_limbs <= n.len(),
        r_limbs <= a.len(),
        bn <= b.len(),
        bn < 0x0200_0000_0000_0000,
        2 * r_limbs + 1 <= usize::MAX,
        val_at(n@, 0, r_limbs as int) % 2 == 1,
        val_at(a@, 0, r_limbs as int) < val_at(n@, 0, r_limbs as int),
        val(old(w)@) == base_pow(r_limbs as nat) % val_at(n@, 0, r_limbs as int),
    ensures
        final(w).len() == r_limbs,
        mont_rep(
            val(final(w)@) as int,
            val_at(b@, 0, bn as int),
            val_at(a@, 0, r_limbs as int) as int,
            val_at(n@, 0, r_limbs as int) as int,
            base_pow(r_limbs as nat) as int,
        ),
{
    let n0 = n[0];
    proof {
        crate::value::lemma_val_low_limb(n@.subrange(0, r_limbs as int));
        let rest = val(n@.subrange(0, r_limbs as int).subrange(1, r_limbs as int)) as int;
        assert(n0 % 2 == 1) by (nonlinear_arith)
            requires
                val_at(n@, 0, r_limbs as int) == n0 + radix() * rest,
                val_at(n@, 0, r_limbs as int) % 2 == 1,
                radix() == 0x1_0000_0000_0000_0000nat,
        ;
    }
    let inv = crate::redc::inv1(n0);
    proof {
        assert(inv % 2 == 1) by (nonlinear_arith)
            requires
                (n0 * inv) % (radix() as int) == 1,
                radix() == 0x1_0000_0000_0000_0000nat,
        {
            if inv % 2 == 0 {
                let h = inv / 2;
                assert(n0 * inv == 2 * (n0 * h));
                assert((2 * (n0 * h)) % 0x1_0000_0000_0000_0000int != 1);
            }
        }
    }
    let nquote0: u64 = u64::MAX - inv + 1;
    proof {
        let bb = radix() as int;
        let iv = inv as int;
        assert(n0 * nquote0 + 1 == bb * n0 + (-(n0 * iv - 1))) by (nonlinear_arith)
            requires
                nquote0 == bb - iv,
        ;
        lemma_mod_multiples_vanish(n0 as int, -(n0 * iv - 1), bb);
        vstd::arithmetic::div_mod::lemma_fundamental_div_mod(n0 * iv, bb);
        let q = (n0 * iv) / bb;
        assert(-(n0 * iv - 1) == bb * (-q));
        lemma_mod_multiples_vanish(-q, 0, bb);
        lemma_small_mod(0, bb as nat);
    }
    modpow(w, r_limbs, n, nquote0, a, b, bn);
}

} // verus!
