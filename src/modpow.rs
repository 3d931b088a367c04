use vstd::prelude::*;

use vstd::arithmetic::div_mod::{lemma_mul_mod_noop, lemma_small_mod};
use vstd::arithmetic::power::{lemma_pow0, lemma_pow1, lemma_pow_adds, pow};
use vstd::arithmetic::power2::{lemma2_to64, lemma_pow2_adds, pow2};

use crate::addsub::{copy_incr, zeroed};
use crate::exponent::{bit_length, lemma_high_bit_zero, lemma_window_prefix, window_value};
use crate::mtgy::reduce_mod;
use crate::mul::sqr;
use crate::value::{val, val_at};

verus! {

/// Window width of the exponentiation by division.
pub const WINDOW: usize = 7;

/// `w := w * y mod N` for `mn`-limb values, through a `2 mn`-limb product.
fn mul_mod(w: &mut Vec<u64>, mn: usize, y: &[u64], m: &[u64], t: &mut Vec<u64>)
    requires
        0 < mn,
        2 * mn + 1 <= usize::MAX,
        old(w).len() == mn,
        y.len() == mn,
        mn <= m.len(),
        old(t).len() == 2 * mn,
        val_at(m@, 0, mn as int) > 0,
    ensures
        final(w).len() == mn,
        final(t).len() == 2 * mn,
        val(final(w)@) < val_at(m@, 0, mn as int),
        val(final(w)@) == (val(old(w)@) * val(y@)) % val_at(m@, 0, mn as int),
{
    proof {
        assert(w@.subrange(0, mn as int) =~= w@);
        assert(y@.subrange(0, mn as int) =~= y@);
    }
    crate::mul::mul(t, 0, y, 0, mn, w.as_slice(), 0, mn);
    proof {
        assert(t@.subrange(0, 2 * mn as int) =~= t@);
    }
    let r = reduce_mod(t.as_slice(), 2 * mn, m, mn);
    *w = r;
    proof {
        let a = val(old(w)@) as int;
        let b = val(y@) as int;
        assert(b * a == a * b) by (nonlinear_arith);
    }
}

/// `w := w * w mod N` for an `mn`-limb value, through a `2 mn`-limb square.
fn sqr_mod(w: &mut Vec<u64>, mn: usize, m: &[u64], t: &mut Vec<u64>)
    requires
        0 < mn,
        2 * mn + 1 <= usize::MAX,
        old(w).len() == mn,
        mn <= m.len(),
        old(t).len() == 2 * mn,
        val_at(m@, 0, mn as int) > 0,
    ensures
        final(w).len() == mn,
        final(t).len() == 2 * mn,
        val(final(w)@) < val_at(m@, 0, mn as int),
        val(final(w)@) == (val(old(w)@) * val(old(w)@)) % val_at(m@, 0, mn as int),
{
    proof {
        assert(w@.subrange(0, mn as int) =~= w@);
    }
    sqr(t, 0, w.as_slice(), 0, mn);
    proof {
        assert(t@.subrange(0, 2 * mn as int) =~= t@);
    }
    let r = reduce_mod(t.as_slice(), 2 * mn, m, mn);
    *w = r;
}

/// `(a^e1 mod N)(a^e2 mod N) mod N == a^(e1 + e2) mod N`.
proof fn lemma_pow_mod_mul(a: int, e1: nat, e2: nat, x: int, y: int, nv: int)
    requires
        nv > 0,
        x == pow(a, e1) % nv,
        y == pow(a, e2) % nv,
    ensures
        (x * y) % nv == pow(a, e1 + e2) % nv,
{
    lemma_mul_mod_noop(pow(a, e1), pow(a, e2), nv);
    lemma_pow_adds(a, e1, e2);
}

/// Modular exponentiation by fixed windows, scanned from the top bit down, with
/// a division after each product: writes `a^b mod m` to the `mn` limbs of `w`.
/// `a` has `an <= mn` limbs and is below `m`; `b` has `bn` limbs.
pub fn modpow(w: &mut Vec<u64>, m: &[u64], mn: usize, a: &[u64], an: usize, b: &[u64], bn: usize)
    requires
        0 < mn,
        2 * mn + 1 <= usize::MAX,
        old(w).len() == mn,
        mn <= m.len(),
        an <= mn,
        an <= a.len(),
        bn <= b.len(),
        bn < 0x0200_0000_0000_0000,
        val_at(m@, 0, mn as int) > 0,
        val_at(a@, 0, an as int) < val_at(m@, 0, mn as int),
    ensures
        final(w).len() == mn,
        val(final(w)@) == pow(val_at(a@, 0, an as int) as int, val_at(b@, 0, bn as int)) % (val_at(
            m@,
            0,
            mn as int,
        ) as int),
{
    let k: usize = WINDOW;
    let ghost nv = val_at(m@, 0, mn as int) as int;
    let ghost av = val_at(a@, 0, an as int) as int;
    let ghost ev = val_at(b@, 0, bn as int);
    let mut t = zeroed(2 * mn);

    // a^j mod m for j < 2^k; entry 0 is one.
    let mut table: Vec<Vec<u64>> = Vec::new();
    let mut one = zeroed(1);
    one.set(0, 1);
    proof {
        crate::value::lemma_val_single(one@, 0);
        assert(one@.subrange(0, 1) =~= one@);
        lemma_pow0(av);
    }
    let pow_0 = reduce_mod(one.as_slice(), 1, m, mn);
    table.push(pow_0);
    let mut pow_1 = zeroed(mn);
    copy_incr(a, 0, &mut pow_1, 0, an);
    proof {
        crate::value::lemma_val_split(pow_1@, 0, an as int, mn as int);
        assert(pow_1@.subrange(an as int, mn as int) =~= crate::addsub::zeros((mn - an) as nat));
        crate::value::lemma_val_zeros(crate::addsub::zeros((mn - an) as nat));
        assert(pow_1@.subrange(0, mn as int) =~= pow_1@);
        let lo = val_at(pow_1@, 0, an as int);
        let pp = crate::value::base_pow(an as nat);
        assert(lo + 0 * pp == lo) by (nonlinear_arith);
        lemma_pow1(av);
        lemma_small_mod(av as nat, nv as nat);
    }
    table.push(pow_1);
    let mut j: usize = 2;
    while j < 128
        invariant
            2 <= j <= 128,
            table.len() == j,
            0 < mn,
            2 * mn + 1 <= usize::MAX,
            mn <= m.len(),
            t.len() == 2 * mn,
            nv == val_at(m@, 0, mn as int),
            nv > 0,
            forall|q: int| 0 <= q < j ==> (#[trigger] table@[q]).len() == mn,
            forall|q: int| 0 <= q < j ==> val((#[trigger] table@[q])@) == pow(av, q as nat) % nv,
        decreases 128 - j,
    {
        let mut next = zeroed(mn);
        copy_incr(table[j - 1].as_slice(), 0, &mut next, 0, mn);
        proof {
            assert(next@.subrange(0, mn as int) =~= next@);
            assert(table@[j - 1]@.subrange(0, mn as int) =~= table@[j - 1]@);
            assert(next@ =~= table@[j - 1]@);
            assert(val(table@[j - 1]@) == pow(av, (j - 1) as nat) % nv);
            assert(val(table@[1]@) == pow(av, 1) % nv);
        }
        let ghost prev = val(next@) as int;
        mul_mod(&mut next, mn, table[1].as_slice(), m, &mut t);
        proof {
            lemma_pow_mod_mul(av, (j - 1) as nat, 1, prev, val(table@[1]@) as int, nv);
        }
        table.push(next);
        j = j + 1;
    }

    let mut w1 = zeroed(mn);
    copy_incr(table[0].as_slice(), 0, &mut w1, 0, mn);
    proof {
        assert(w1@.subrange(0, mn as int) =~= w1@);
        assert(table@[0]@.subrange(0, mn as int) =~= table@[0]@);
        assert(w1@ =~= table@[0]@);
    }
    *w = w1;

    let l = bit_length(b, bn);
    let count: u64 = (l + 6) / 7;
    proof {
        assert(b@.subrange(0, bn as int).subrange(0, bn as int) =~= b@.subrange(0, bn as int));
        lemma_high_bit_zero(ev, l as nat, (count * 7) as nat);
    }
    let mut i: u64 = count;
    while i > 0
        invariant
            i <= count,
            bn < 0x0200_0000_0000_0000,
            count == (l + 6) / 7,
            l <= 64 * bn,
            ev < pow2(l as nat),
            ev == val_at(b@, 0, bn as int),
            bn <= b.len(),
            k == 7,
            w.len() == mn,
            0 < mn,
            2 * mn + 1 <= usize::MAX,
            t.len() == 2 * mn,
            mn <= m.len(),
            nv == val_at(m@, 0, mn as int),
            nv > 0,
            table.len() == 128,
            forall|q: int| 0 <= q < 128 ==> (#[trigger] table@[q]).len() == mn,
            forall|q: int| 0 <= q < 128 ==> val((#[trigger] table@[q])@) == pow(av, q as nat) % nv,
            val(w@) == pow(av, ev / pow2((i * 7) as nat)) % nv,
        decreases i,
    {
        i = i - 1;
        let ghost e0 = ev / pow2(((i + 1) * 7) as nat);
        assert(i * 7 < l);
        let block_value = window_value(b, bn, l, i, k);
        proof {
            lemma2_to64();
            lemma_window_prefix(ev, i as nat, 7);
        }
        let mut s: usize = 0;
        let ghost wexp = e0;
        proof {
            let unit = pow2(0);
            assert(e0 * unit == e0) by (nonlinear_arith)
                requires
                    unit == 1,
            ;
        }
        while s < k
            invariant
                s <= k,
                k == 7,
                w.len() == mn,
                0 < mn,
                2 * mn + 1 <= usize::MAX,
                t.len() == 2 * mn,
                mn <= m.len(),
                nv == val_at(m@, 0, mn as int),
                nv > 0,
                wexp == e0 * pow2(s as nat),
                val(w@) == pow(av, wexp) % nv,
            decreases k - s,
        {
            let ghost before = val(w@) as int;
            sqr_mod(w, mn, m, &mut t);
            proof {
                lemma_pow_mod_mul(av, wexp, wexp, before, before, nv);
                lemma_pow2_adds(s as nat, 1);
                lemma2_to64();
                assert(wexp + wexp == e0 * pow2((s + 1) as nat)) by (nonlinear_arith)
                    requires
                        wexp == e0 * pow2(s as nat),
                        pow2((s + 1) as nat) == pow2(s as nat) * 2,
                ;
                wexp = wexp + wexp;
            }
            s = s + 1;
        }
        if block_value != 0 {
            let ghost before = val(w@) as int;
            proof {
                assert(val(table@[block_value as int]@) == pow(av, block_value as nat) % nv);
            }
            mul_mod(w, mn, table[block_value].as_slice(), m, &mut t);
            proof {
                lemma_pow_mod_mul(av, wexp, block_value as nat, before, val(table@[block_value as int]@) as int, nv);
            }
        } else {
            proof {
                assert(wexp + 0 == wexp);
            }
        }
        proof {
            assert(ev / pow2((i * 7) as nat) == e0 * pow2(7) + block_value);
        }
    }
    proof {
        lemma2_to64();
        assert(ev / pow2(0) == ev);
    }
}

} // verus!
