use vstd::prelude::*;

use vstd::arithmetic::div_mod::{
    lemma_basic_div, lemma_div_denominator, lemma_fundamental_div_mod,
    lemma_fundamental_div_mod_converse_div, lemma_hoist_over_denominator, lemma_mod_breakdown,
    lemma_mod_multiples_vanish,
};
use vstd::arithmetic::power2::{
    lemma2_to64, lemma2_to64_rest, lemma_pow2_adds, lemma_pow2_pos, lemma_pow2_strictly_increases,
    pow2,
};
use vstd::bits::lemma_u64_shr_is_div;

use crate::limb::radix;
use crate::value::{
    base_pow, lemma_base_pow_pos, lemma_val_bound, lemma_val_single, lemma_val_split,
    lemma_val_zeros, val, val_at,
};

verus! {

/// The weight of limb `q` is `2^(64 q)`.
pub proof fn lemma_base_pow_is_pow2(q: nat)
    ensures
        base_pow(q) == pow2(64 * q),
    decreases q,
{
    lemma2_to64();
    lemma2_to64_rest();
    if q > 0 {
        lemma_base_pow_is_pow2((q - 1) as nat);
        lemma_pow2_adds(64, 64 * (q - 1) as nat);
        assert(64 + 64 * (q - 1) as nat == 64 * q);
    } else {
        assert(base_pow(0) == 1);
    }
}

/// Bit `p` of the value of `b` is bit `p % 64` of limb `p / 64`.
pub proof fn lemma_limb_bit(b: Seq<u64>, p: nat)
    requires
        p / 64 < b.len(),
    ensures
        (val(b) / pow2(p)) % 2 == (b[(p / 64) as int] as nat / pow2(p % 64)) % 2,
{
    let q = p / 64;
    let s = p % 64;
    let n = b.len() as int;
    let x = b[q as int] as int;
    assert(b.subrange(0, n) =~= b);
    lemma_val_split(b, 0, q as int, n);
    lemma_val_split(b, q as int, q + 1 as int, n);
    lemma_val_single(b, q as int);
    lemma_val_bound(b.subrange(0, q as int));
    lemma_base_pow_is_pow2(q);
    assert(base_pow(1) == radix() * base_pow(0));
    assert(base_pow(0) == 1);
    let lo = val_at(b, 0, q as int) as int;
    let hi = val_at(b, q as int + 1, n) as int;
    let pq = base_pow(q) as int;
    let e = val(b) as int;
    let b64 = radix() as int;
    assert(e == (x + b64 * hi) * pq + lo) by (nonlinear_arith)
        requires
            e == lo + (x + hi * b64) * pq,
    ;
    lemma_base_pow_pos(q);
    lemma_fundamental_div_mod_converse_div(e, pq, x + b64 * hi, lo);
    lemma_pow2_adds(64 * q, s);
    assert(64 * q + s == p);
    lemma_pow2_pos(s);
    lemma_div_denominator(e, pq, pow2(s) as int);
    // radix = 2^s * 2 * 2^(63 - s)
    lemma2_to64();
    lemma2_to64_rest();
    lemma_pow2_adds(s, (64 - s) as nat);
    lemma_pow2_adds(1, (63 - s) as nat);
    let ps = pow2(s) as int;
    let k = pow2((63 - s) as nat) as int;
    assert(b64 == ps * (2 * k));
    lemma_hoist_over_denominator(x, (2 * k) * hi, ps as nat);
    assert(x + b64 * hi == x + ((2 * k) * hi) * ps) by (nonlinear_arith)
        requires
            b64 == ps * (2 * k),
    ;
    assert((x + b64 * hi) / ps == x / ps + 2 * (k * hi)) by (nonlinear_arith)
        requires
            x / ps + (2 * k) * hi == (x + ((2 * k) * hi) * ps) / ps,
            x + b64 * hi == x + ((2 * k) * hi) * ps,
    ;
    lemma_mod_multiples_vanish(k * hi, x / ps, 2);
}

/// The number of significant bits of the `bn` limbs of `b`.
pub fn bit_length(b: &[u64], bn: usize) -> (l: u64)
    requires
        bn <= b.len(),
        bn < 0x0200_0000_0000_0000,
    ensures
        l <= 64 * bn,
        val_at(b@, 0, bn as int) < pow2(l as nat),
        l == 0 || val_at(b@, 0, bn as int) >= pow2((l - 1) as nat),
{
    let mut top: usize = bn;
    while top > 0 && b[top - 1] == 0
        invariant
            top <= bn,
            bn <= b.len(),
            forall|k: int| top <= k < bn ==> #[trigger] b@[k] == 0,
        decreases top,
    {
        top = top - 1;
    }
    proof {
        lemma_val_split(b@, 0, top as int, bn as int);
        let z = b@.subrange(top as int, bn as int);
        assert forall|k: int| 0 <= k < z.len() implies z[k] == 0 by {
            assert(z[k] == b@[top + k]);
        }
        lemma_val_zeros(z);
        lemma2_to64();
    }
    if top == 0 {
        assert(b@.subrange(0, 0) =~= Seq::<u64>::empty());
        return 0;
    }
    let x = b[top - 1];
    let mut nb: usize = 0;
    proof {
        lemma_u64_shr_is_div(x, 0);
    }
    while nb < 64 && (x >> (nb as u64)) != 0
        invariant
            nb <= 64,
            x >= 1,
            nb > 0 ==> x as nat >= pow2((nb - 1) as nat),
        decreases 64 - nb,
    {
        proof {
            lemma_u64_shr_is_div(x, nb as u64);
            lemma_pow2_pos(nb as nat);
            let d = pow2(nb as nat) as int;
            assert(x >= d) by (nonlinear_arith)
                requires
                    (x as int) / d != 0,
                    d > 0,
                    x >= 0,
            {
                if x < d {
                    lemma_basic_div(x as int, d);
                }
            }
        }
        nb = nb + 1;
    }
    proof {
        lemma2_to64();
        lemma2_to64_rest();
        if nb < 64 {
            lemma_u64_shr_is_div(x, nb as u64);
            lemma_pow2_pos(nb as nat);
            lemma_fundamental_div_mod(x as int, pow2(nb as nat) as int);
            assert(x < pow2(nb as nat)) by (nonlinear_arith)
                requires
                    x as int == pow2(nb as nat) * ((x as int) / (pow2(nb as nat) as int)) + (x as int) % (pow2(nb as nat) as int),
                    (x as int) / (pow2(nb as nat) as int) == 0,
                    (x as int) % (pow2(nb as nat) as int) < pow2(nb as nat),
            ;
        } else {
            assert(x < pow2(64));
        }
        let q = (top - 1) as nat;
        lemma_val_split(b@, 0, q as int, top as int);
        lemma_val_single(b@, q as int);
        lemma_val_bound(b@.subrange(0, q as int));
        lemma_base_pow_is_pow2(q);
        lemma_pow2_adds(64 * q, nb as nat);
        let lo = val_at(b@, 0, q as int) as int;
        let pq = base_pow(q) as int;
        let v = val_at(b@, 0, bn as int) as int;
        let vt = val_at(b@, 0, top as int) as int;
        let vz = val_at(b@, top as int, bn as int) as int;
        assert(v == vt + vz * base_pow(top as nat));
        assert(vz == 0);
        assert(v == vt) by (nonlinear_arith)
            requires
                v == vt + vz * base_pow(top as nat),
                vz == 0,
        ;
        assert(val_at(b@, q as int, top as int) == x);
        assert(vt == lo + x * pq);
        assert(v == lo + x * pq);
        assert(pq * pow2(nb as nat) == pow2((64 * q + nb) as nat));
        assert(v < (x + 1) * pq) by (nonlinear_arith)
            requires
                v == lo + x * pq,
                lo < pq,
        ;
        assert((x + 1) * pq <= pow2(nb as nat) * pq) by (nonlinear_arith)
            requires
                x + 1 <= pow2(nb as nat),
                pq >= 0,
        ;
        assert(nb >= 1);
        lemma_pow2_adds(64 * q, (nb - 1) as nat);
        assert(v >= pow2((nb - 1) as nat) * pq) by (nonlinear_arith)
            requires
                v == lo + x * pq,
                lo >= 0,
                pq >= 0,
                x >= pow2((nb - 1) as nat),
        ;
    }
    64 * ((top - 1) as u64) + (nb as u64)
}

/// Bit `p` of `e`.
pub open spec fn bit(e: nat, p: nat) -> nat {
    (e / pow2(p)) % 2
}

/// The value of `k` bits of `e` from bit `p` is built bit by bit.
pub proof fn lemma_window_step(e: nat, p: nat, j: nat)
    ensures
        (e / pow2(p)) % pow2(j + 1) == (e / pow2(p)) % pow2(j) + bit(e, p + j) * pow2(j),
{
    lemma_pow2_pos(p);
    lemma_pow2_pos(j);
    lemma_pow2_adds(j, 1);
    lemma2_to64();
    let y = (e / pow2(p)) as int;
    lemma_mod_breakdown(y, pow2(j) as int, 2);
    lemma_div_denominator(e as int, pow2(p) as int, pow2(j) as int);
    lemma_pow2_adds(p, j);
    assert(pow2(1) == 2);
    assert(pow2(j + 1) == pow2(j) * 2);
    assert(y / (pow2(j) as int) == e / pow2(p + j));
    assert(y % (pow2(j) as int * 2) == pow2(j) * ((y / pow2(j) as int) % 2) + y % (pow2(j) as int));
    let bj = (y / pow2(j) as int) % 2;
    assert(bit(e, p + j) == bj);
    assert(pow2(j) * bj == bj * pow2(j)) by (nonlinear_arith);
    assert(y % (pow2(j + 1) as int) == y % (pow2(j) as int * 2));
}

/// Windows of `k` bits, taken from the top, rebuild the exponent.
pub proof fn lemma_window_prefix(e: nat, i: nat, k: nat)
    ensures
        e / pow2(i * k) == (e / pow2((i + 1) * k)) * pow2(k) + (e / pow2(i * k)) % pow2(k),
{
    lemma_pow2_pos(i * k);
    lemma_pow2_pos(k);
    lemma_pow2_adds(i * k, k);
    assert(i * k + k == (i + 1) * k) by (nonlinear_arith);
    lemma_div_denominator(e as int, pow2(i * k) as int, pow2(k) as int);
    lemma_fundamental_div_mod((e / pow2(i * k)) as int, pow2(k) as int);
}

/// Bits at or above the length are zero.
pub proof fn lemma_high_bit_zero(e: nat, l: nat, p: nat)
    requires
        e < pow2(l),
        l <= p,
    ensures
        bit(e, p) == 0,
        e / pow2(p) == 0,
{
    if l < p {
        lemma_pow2_strictly_increases(l, p);
    }
    lemma_basic_div(e as int, pow2(p) as int);
}

/// The value of the `k` exponent bits from bit `i k` of the `bn` limbs of `b`,
/// whose bit length is `l`; bits at or above `l` count as zero and are not read.
pub fn window_value(b: &[u64], bn: usize, l: u64, i: u64, k: usize) -> (v: usize)
    requires
        bn <= b.len(),
        bn < 0x0200_0000_0000_0000,
        l <= 64 * bn,
        val_at(b@, 0, bn as int) < pow2(l as nat),
        1 <= k <= 8,
        i * k < l,
    ensures
        v == (val_at(b@, 0, bn as int) / pow2((i * k) as nat)) % pow2(k as nat),
        v < pow2(k as nat),
{
    let ghost ev = val_at(b@, 0, bn as int);
    let mut v: usize = 0;
    let mut pw: usize = 1;
    let mut j: usize = 0;
    proof {
        lemma2_to64();
        assert(((ev / pow2((i * k) as nat)) as int) % 1 == 0);
    }
    while j < k
        invariant
            j <= k,
            1 <= k <= 8,
            i * k < l,
            pw == pow2(j as nat),
            v == (ev / pow2((i * k) as nat)) % pow2(j as nat),
            bn < 0x0200_0000_0000_0000,
            l <= 64 * bn,
            ev < pow2(l as nat),
            ev == val_at(b@, 0, bn as int),
            bn <= b.len(),
        decreases k - j,
    {
        let p: u64 = i * (k as u64) + j as u64;
        let mut one: bool = false;
        if p < l {
            let limb = b[(p / 64) as usize];
            let s: u64 = p % 64;
            proof {
                lemma_u64_shr_is_div(limb, s);
                assert(((limb >> s) & 1) == (limb >> s) % 2) by (bit_vector);
                lemma_limb_bit(b@.subrange(0, bn as int), p as nat);
                assert(b@.subrange(0, bn as int)[(p / 64) as int] == limb);
            }
            one = (limb >> s) & 1 == 1;
        } else {
            proof {
                lemma_high_bit_zero(ev, l as nat, p as nat);
            }
        }
        proof {
            lemma_window_step(ev, (i * k) as nat, j as nat);
            lemma_pow2_adds(j as nat, 1);
            lemma2_to64();
            lemma_pow2_strictly_increases(j as nat, 8);
            assert((i * k) as nat + j as nat == p as nat);
            let bt = bit(ev, p as nat);
            let pj = pow2(j as nat);
            assert(bt * pj == (if one { pj } else { 0 })) by (nonlinear_arith)
                requires
                    one <==> bt == 1,
                    bt == 0 || bt == 1,
            ;
        }
        if one {
            v = v + pw;
        }
        pw = pw * 2;
        j = j + 1;
    }
    proof {
        lemma_pow2_pos(k as nat);
    }
    v
}

} // verus!
