use vstd::prelude::*;

use core::cmp::Ordering;

use vstd::arithmetic::div_mod::{
    lemma_basic_div, lemma_div_denominator, lemma_fundamental_div_mod,
    lemma_fundamental_div_mod_converse_mod, lemma_mod_equivalence, lemma_mod_multiples_vanish,
    lemma_mod_twice, lemma_mul_mod_noop, lemma_mul_mod_noop_left, lemma_small_mod,
};
use vstd::arithmetic::power2::{lemma2_to64, lemma2_to64_rest, lemma_pow2_adds, lemma_pow2_pos, pow2};
use vstd::bits::lemma_u64_shr_is_div;

use crate::addsub::{add_to, cmp, copy_incr, incr, sub_from, zeroed, zeros};
use crate::limb::radix;
use crate::montgomery::{lemma_cancel_radix, modpow, modpow_by_montgomery, mont_mul, mont_rep, mont_sqr};
use vstd::arithmetic::power::{lemma_pow0, lemma_pow1, lemma_pow_adds, lemma_pow_distributes, lemma_pow_mod_noop, pow};

use crate::redc::{inv1, redc};
use crate::value::{
    base_pow, lemma_base_pow_pos, lemma_val_bound, lemma_val_low_limb, lemma_val_single,
    lemma_val_split, lemma_val_zeros, val, val_at,
};

verus! {

/// Limbs with no zero limb at the top.
pub open spec fn normalized(s: Seq<u64>) -> bool {
    s.len() == 0 || s.last() != 0
}

/// A copy of `v` without its zero limbs at the top.
pub fn normalize(v: &Vec<u64>) -> (r: Vec<u64>)
    ensures
        val(r@) == val(v@),
        normalized(r@),
        r.len() <= v.len(),
{
    let mut top: usize = v.len();
    while top > 0 && v[top - 1] == 0
        invariant
            top <= v.len(),
            forall|k: int| top <= k < v.len() ==> #[trigger] v@[k] == 0,
        decreases top,
    {
        top = top - 1;
    }
    let mut r = zeroed(top);
    copy_incr(v.as_slice(), 0, &mut r, 0, top);
    proof {
        assert(r@.subrange(0, top as int) =~= r@);
        lemma_val_split(v@, 0, top as int, v.len() as int);
        assert(v@.subrange(0, v.len() as int) =~= v@);
        let z = v@.subrange(top as int, v.len() as int);
        assert forall|k: int| 0 <= k < z.len() implies z[k] == 0 by {
            assert(z[k] == v@[top + k]);
        }
        lemma_val_zeros(z);
        let lo = val_at(v@, 0, top as int);
        let pt = base_pow(top as nat);
        assert(lo + 0 * pt == lo) by (nonlinear_arith);
    }
    r
}

/// Writes `t mod N` to the `r` limbs of `w`, for `t` (`r + 1` limbs) below `2 N`.
fn reduce_once(w: &mut Vec<u64>, r: usize, t: &[u64], n: &[u64])
    requires
        0 < r,
        old(w).len() == r,
        t.len() == r + 1,
        r <= n.len(),
        val(t@) < 2 * val_at(n@, 0, r as int),
    ensures
        final(w).len() == r,
        val(final(w)@) < val_at(n@, 0, r as int),
        val(final(w)@) == val(t@) % val_at(n@, 0, r as int),
{
    let ghost nv = val_at(n@, 0, r as int) as int;
    let ghost rr = base_pow(r as nat) as int;
    let ghost topv = val(t@) as int;
    let ghost lowv = val_at(t@, 0, r as int) as int;
    let ghost h2 = t@[r as int] as int;
    proof {
        lemma_val_bound(n@.subrange(0, r as int));
        lemma_val_bound(t@.subrange(0, r as int));
        lemma_val_split(t@, 0, r as int, r + 1);
        lemma_val_single(t@, r as int);
        assert(t@.subrange(0, r + 1) =~= t@);
        assert(base_pow(0) == 1);
        assert(topv == lowv + h2 * rr);
    }
    let hi_nz = t[r] != 0;
    let ge = !matches!(cmp(t, 0, n, 0, r), Ordering::Less);
    copy_incr(t, 0, w, 0, r);
    if hi_nz || ge {
        let b = sub_from(w, 0, r, n, 0, r);
        proof {
            assert(w@.subrange(0, r as int) =~= w@);
            let wv = val(w@) as int;
            lemma_val_bound(w@);
            if h2 != 0 {
                assert(h2 * rr >= rr) by (nonlinear_arith)
                    requires
                        h2 >= 1,
                        rr >= 0,
                ;
            }
            assert(topv >= nv);
            let d = h2 - b;
            assert(wv == topv - nv - d * rr) by (nonlinear_arith)
                requires
                    wv - b * rr == lowv - nv,
                    topv == lowv + h2 * rr,
                    d == h2 - b,
            ;
            assert(d == 0) by (nonlinear_arith)
                requires
                    wv == topv - nv - d * rr,
                    0 <= wv < rr,
                    0 <= topv - nv < rr,
            ;
            lemma_fundamental_div_mod_converse_mod(topv, nv, 1, topv - nv);
        }
    } else {
        proof {
            assert(w@.subrange(0, r as int) =~= w@);
            assert(w@ =~= t@.subrange(0, r as int));
            assert(h2 * rr == 0) by (nonlinear_arith)
                requires
                    h2 == 0,
            ;
            lemma_small_mod(topv as nat, nv as nat);
        }
    }
}

/// `x := (2 x + bit) mod N`, for `x` below `N` in `r` limbs.
fn double_add_mod(x: &mut Vec<u64>, r: usize, bit: u64, n: &[u64])
    requires
        0 < r,
        r + 1 <= usize::MAX,
        old(x).len() == r,
        r <= n.len(),
        bit <= 1,
        val(old(x)@) < val_at(n@, 0, r as int),
    ensures
        final(x).len() == r,
        val(final(x)@) < val_at(n@, 0, r as int),
        val(final(x)@) == (2 * val(old(x)@) + bit) % (val_at(n@, 0, r as int) as int),
{
    let mut t = zeroed(r + 1);
    let ghost xv = val(x@) as int;
    let ghost p = base_pow((r + 1) as nat) as int;
    proof {
        assert(t@.subrange(0, r + 1) =~= t@);
        assert(x@.subrange(0, r as int) =~= x@);
        lemma_val_bound(n@.subrange(0, r as int));
        assert(base_pow((r + 1) as nat) == radix() * base_pow(r as nat));
        assert(2 * base_pow(r as nat) <= p) by (nonlinear_arith)
            requires
                p == radix() * base_pow(r as nat),
                radix() == 0x1_0000_0000_0000_0000nat,
        ;
        lemma_base_pow_pos((r + 1) as nat);
    }
    let c1 = add_to(&mut t, 0, r + 1, x.as_slice(), 0, r);
    proof {
        assert(t@.subrange(0, r + 1) =~= t@);
        crate::mul::lemma_no_carry(val(t@) as int, c1 as int, p, xv);
    }
    let c2 = add_to(&mut t, 0, r + 1, x.as_slice(), 0, r);
    proof {
        assert(t@.subrange(0, r + 1) =~= t@);
        crate::mul::lemma_no_carry(val(t@) as int, c2 as int, p, 2 * xv);
    }
    let c3 = incr(&mut t, 0, r + 1, bit);
    proof {
        assert(t@.subrange(0, r + 1) =~= t@);
        crate::mul::lemma_no_carry(val(t@) as int, c3 as int, p, 2 * xv + bit);
    }
    reduce_once(x, r, t.as_slice(), n);
}

/// The parameters of Montgomery arithmetic for one odd modulus `N`:
/// its limb count `r`, `R = radix^r`, and `-1 / N` modulo the radix.
pub struct MtgyModulus {
    modulus: Vec<u64>,
    modulus_inv0: u64,
    limbs: usize,
    one: Vec<u64>,
}

/// An integer in Montgomery form, `a R mod N`, for one `MtgyModulus`.
pub struct MtgyInt {
    limbs: Vec<u64>,
}

impl MtgyInt {
    /// The value of the limbs.
    pub closed spec fn value(&self) -> nat {
        val(self.limbs@)
    }

    /// The limbs, least significant first.
    pub fn to_limbs(&self) -> (r: Vec<u64>)
        ensures
            val(r@) == self.value(),
    {
        self.limbs.clone()
    }
}

impl MtgyModulus {
    /// The modulus `N`.
    pub closed spec fn modulus_value(&self) -> nat {
        val(self.modulus@)
    }

    /// The number of limbs of `N`.
    pub closed spec fn limb_count(&self) -> nat {
        self.limbs as nat
    }

    /// The Montgomery radix `R`.
    pub closed spec fn radix_value(&self) -> nat {
        base_pow(self.limbs as nat)
    }

    pub closed spec fn wf(&self) -> bool {
        &&& 0 < self.limbs
        &&& self.limbs < 0x0200_0000_0000_0000
        &&& 2 * self.limbs + 1 <= usize::MAX
        &&& self.modulus@.len() == self.limbs
        &&& self.modulus_value() % 2 == 1
        &&& (self.modulus@[0] * self.modulus_inv0 + 1) % (radix() as int) == 0
        &&& self.one@.len() == self.limbs
        &&& val(self.one@) == self.radix_value() % self.modulus_value()
    }

    /// `a` is a Montgomery integer of this modulus: `r` limbs, below `N`.
    pub closed spec fn holds(&self, a: &MtgyInt) -> bool {
        &&& a.limbs@.len() == self.limbs
        &&& a.value() < self.modulus_value()
    }

    /// The number of limbs `r`.
    pub fn limbs(&self) -> (r: usize)
        ensures
            r == self.limb_count(),
    {
        self.limbs
    }
}

/// `(2 x + b) mod n` depends on `x` only modulo `n`.
proof fn lemma_double_add_mod(x: int, b: int, nv: int)
    requires
        nv > 0,
    ensures
        (2 * (x % nv) + b) % nv == (2 * x + b) % nv,
{
    lemma_fundamental_div_mod(x, nv);
    let q = x / nv;
    assert(2 * x + b == nv * (2 * q) + (2 * (x % nv) + b)) by (nonlinear_arith)
        requires
            x == nv * q + x % nv,
    ;
    lemma_mod_multiples_vanish(2 * q, 2 * (x % nv) + b, nv);
}

/// `x := x * R mod N` by `64 r` modular doublings, for `x` below `N`.
fn mul_by_radix_mod(x: &mut Vec<u64>, r: usize, n: &[u64])
    requires
        0 < r,
        r < 0x0200_0000_0000_0000,
        r + 1 <= usize::MAX,
        old(x).len() == r,
        r <= n.len(),
        val(old(x)@) < val_at(n@, 0, r as int),
    ensures
        final(x).len() == r,
        val(final(x)@) < val_at(n@, 0, r as int),
        val(final(x)@) == (val(old(x)@) * base_pow(r as nat)) % val_at(n@, 0, r as int),
{
    let ghost nv = val_at(n@, 0, r as int) as int;
    let ghost x0 = val(x@) as int;
    let mut d: u64 = 0;
    proof {
        lemma2_to64();
        lemma_small_mod(x0 as nat, nv as nat);
        assert(x0 * pow2(0) == x0) by (nonlinear_arith)
            requires
                pow2(0) == 1,
        ;
    }
    while d < 64 * (r as u64)
        invariant
            0 < r,
            r < 0x0200_0000_0000_0000,
            r + 1 <= usize::MAX,
            x.len() == r,
            r <= n.len(),
            nv == val_at(n@, 0, r as int),
            nv > 0,
            d <= 64 * r,
            val(x@) < nv,
            val(x@) == (x0 * pow2(d as nat)) % nv,
        decreases 64 * r - d,
    {
        let ghost before = val(x@) as int;
        double_add_mod(x, r, 0, n);
        proof {
            lemma_double_add_mod(x0 * pow2(d as nat), 0, nv);
            lemma_pow2_adds(d as nat, 1);
            lemma2_to64();
            assert(2 * (x0 * pow2(d as nat)) == x0 * pow2((d + 1) as nat)) by (nonlinear_arith)
                requires
                    pow2((d + 1) as nat) == pow2(d as nat) * 2,
            ;
        }
        d = d + 1;
    }
    proof {
        crate::exponent::lemma_base_pow_is_pow2(r as nat);
    }
}

/// The remainder of the `an` limbs of `a` modulo `N` (the `r` limbs of `n`),
/// in `r` limbs, by binary long division.
pub fn reduce_mod(a: &[u64], an: usize, n: &[u64], r: usize) -> (x: Vec<u64>)
    requires
        0 < r,
        r + 1 <= usize::MAX,
        r <= n.len(),
        an <= a.len(),
        val_at(n@, 0, r as int) > 0,
    ensures
        x.len() == r,
        val(x@) < val_at(n@, 0, r as int),
        val(x@) == val_at(a@, 0, an as int) % val_at(n@, 0, r as int),
{
    let ghost nv = val_at(n@, 0, r as int) as int;
    let mut x = zeroed(r);
    // Horner's rule over the bits of `a`, most significant first.
    let mut i: usize = an;
    proof {
        assert(a@.subrange(an as int, an as int) =~= Seq::<u64>::empty());
        lemma_small_mod(0, nv as nat);
    }
    while i > 0
        invariant
            i <= an,
            0 < r,
            r + 1 <= usize::MAX,
            r <= n.len(),
            an <= a.len(),
            nv > 0,
            nv == val_at(n@, 0, r as int),
            x.len() == r,
            val(x@) < nv,
            val(x@) == (val_at(a@, i as int, an as int) as int) % nv,
        decreases i,
    {
        i = i - 1;
        let limb = a[i];
        let ghost hi = val_at(a@, i + 1, an as int) as int;
        let mut s: u64 = 64;
        proof {
            lemma2_to64();
            lemma2_to64_rest();
            lemma_basic_div(limb as int, pow2(64) as int);
            assert(hi * pow2(0) == hi) by (nonlinear_arith)
                requires
                    pow2(0) == 1,
            ;
        }
        while s > 0
            invariant
                s <= 64,
                0 < r,
                r + 1 <= usize::MAX,
                r <= n.len(),
                nv > 0,
                nv == val_at(n@, 0, r as int),
                x.len() == r,
                val(x@) < nv,
                val(x@) == (hi * pow2((64 - s) as nat) + limb as nat / pow2(s as nat)) % nv,
            decreases s,
        {
            s = s - 1;
            proof {
                lemma_u64_shr_is_div(limb, s);
                assert(((limb >> s) & 1) == (limb >> s) % 2) by (bit_vector);
                lemma_pow2_pos(s as nat);
                lemma_pow2_adds(s as nat, 1);
                lemma2_to64();
                let q = limb as nat / pow2(s as nat);
                lemma_div_denominator(limb as int, pow2(s as nat) as int, 2);
                lemma_fundamental_div_mod(q as int, 2);
                lemma_pow2_adds((64 - s - 1) as nat, 1);
                let old_v = hi * pow2((64 - s - 1) as nat) + q / 2;
                lemma_double_add_mod(old_v, (q % 2) as int, nv);
                assert(2 * old_v + q % 2 == hi * pow2((64 - s) as nat) + q) by (nonlinear_arith)
                    requires
                        old_v == hi * pow2((64 - s - 1) as nat) + q / 2,
                        pow2((64 - s) as nat) == pow2((64 - s - 1) as nat) * 2,
                        q == 2 * (q / 2) + q % 2,
                ;
            }
            let b = (limb >> s) & 1;
            double_add_mod(&mut x, r, b, n);
        }
        proof {
            lemma_val_split(a@, i as int, i + 1, an as int);
            lemma_val_single(a@, i as int);
            lemma2_to64();
            assert(base_pow(1) == radix() * base_pow(0));
            assert(base_pow(0) == 1);
            assert(limb as nat / pow2(0) == limb);
        }
    }
    x
}

impl MtgyModulus {
    /// Prepares Montgomery arithmetic for the odd modulus `N`, given in limbs
    /// (least significant first; zero limbs at the top are dropped).
    pub fn new(modulus: &Vec<u64>) -> (m: MtgyModulus)
        requires
            val(modulus@) % 2 == 1,
            modulus.len() < 0x0200_0000_0000_0000,
            2 * modulus.len() + 1 <= usize::MAX,
        ensures
            m.wf(),
            m.modulus_value() == val(modulus@),
    {
        let md = normalize(modulus);
        let r = md.len();
        proof {
            if r == 0 {
                assert(md@ =~= Seq::<u64>::empty());
                assert(val(md@) == 0);
            }
            assert(r > 0);
            lemma_val_low_limb(md@);
            let rest = val(md@.subrange(1, r as int)) as int;
            assert(md@[0] % 2 == 1) by (nonlinear_arith)
                requires
                    val(md@) == md@[0] + radix() * rest,
                    val(md@) % 2 == 1,
                    radix() == 0x1_0000_0000_0000_0000nat,
            ;
        }
        let n0 = md[0];
        let neg: u64 = u64::MAX - n0 + 1;
        proof {
            assert(neg % 2 == 1);
        }
        let inv0 = inv1(neg);
        proof {
            let b = radix() as int;
            let iv = inv0 as int;
            assert(neg * iv == b * iv + (-(n0 * iv))) by (nonlinear_arith)
                requires
                    neg == b - n0,
            ;
            lemma_mod_multiples_vanish(iv, -(n0 * iv), b);
            lemma_mod_equivalence(-(n0 * iv), 1, b);
            let q = (-(n0 * iv) - 1) / b;
            lemma_fundamental_div_mod(-(n0 * iv) - 1, b);
            assert(n0 * iv + 1 == b * (-q) + 0);
            lemma_mod_multiples_vanish(-q, 0, b);
            lemma_small_mod(0, b as nat);
        }
        let mut one = zeroed(r);
        proof {
            assert(md@.subrange(0, r as int) =~= md@);
            lemma_val_low_limb(md@);
        }
        let ghost nv = val(md@) as int;
        if r > 1 || n0 != 1 {
            one.set(0, 1);
            proof {
                lemma_val_low_limb(one@);
                assert(one@.subrange(1, r as int) =~= zeros((r - 1) as nat));
                lemma_val_zeros(zeros((r - 1) as nat));
                let z = val(one@.subrange(1, r as int));
                assert(val(one@) == 1 + radix() * z);
                assert(radix() * z == 0) by (nonlinear_arith)
                    requires
                        z == 0,
                ;
                if r > 1 {
                    lemma_val_split(md@, 0, r - 1, r as int);
                    lemma_val_single(md@, r - 1);
                    assert(md@[r - 1] != 0);
                    lemma_base_pow_pos((r - 1) as nat);
                    let lo = val_at(md@, 0, r - 1);
                    let pp = base_pow((r - 1) as nat);
                    let top = md@[r - 1] as int;
                    assert(base_pow((r - 1) as nat) == radix() * base_pow((r - 2) as nat));
                    lemma_base_pow_pos((r - 2) as nat);
                    assert(pp >= radix()) by (nonlinear_arith)
                        requires
                            pp == radix() * base_pow((r - 2) as nat),
                            base_pow((r - 2) as nat) >= 1,
                    ;
                    assert(lo + top * pp >= 2) by (nonlinear_arith)
                        requires
                            top >= 1,
                            pp >= radix(),
                            radix() == 0x1_0000_0000_0000_0000nat,
                            lo >= 0,
                    ;
                } else {
                    lemma_val_low_limb(md@);
                    assert(md@.subrange(1, 1) =~= Seq::<u64>::empty());
                    assert(nv == n0 + radix() * 0);
                }
                assert(nv != 1);
            }
        } else {
            proof {
                lemma_val_zeros(one@);
                lemma_val_low_limb(md@);
                assert(md@.subrange(1, 1) =~= Seq::<u64>::empty());
                assert(nv == n0 + radix() * 0);
                assert(nv == 1);
            }
        }
        let ghost one_v = val(one@) as int;
        assert(one_v == (if nv == 1 { 0int } else { 1int }));
        mul_by_radix_mod(&mut one, r, md.as_slice());
        proof {
            assert(md@.subrange(0, r as int) =~= md@);
            let rr = base_pow(r as nat) as int;
            if nv == 1 {
                assert(rr % 1 == 0);
                assert(one_v * rr == 0) by (nonlinear_arith)
                    requires
                        one_v == 0,
                ;
            } else {
                assert(one_v * rr == rr) by (nonlinear_arith)
                    requires
                        one_v == 1,
                ;
            }
        }
        let m = MtgyModulus { modulus: md, modulus_inv0: inv0, limbs: r, one };
        proof {
            assert(0 < m.limbs);
            assert(m.limbs < 0x0200_0000_0000_0000);
            assert(2 * m.limbs + 1 <= usize::MAX);
            assert(m.modulus@.len() == m.limbs);
            assert(m.modulus_value() % 2 == 1);
            assert((m.modulus@[0] * m.modulus_inv0 + 1) % (radix() as int) == 0);
            assert(m.one@.len() == m.limbs);
            assert(val(m.one@) == m.radix_value() % m.modulus_value());
        }
        m
    }

    /// The Montgomery form `a R mod N` of `a`.
    pub fn to_mtgy(&self, a: &Vec<u64>) -> (r: MtgyInt)
        requires
            self.wf(),
        ensures
            self.holds(&r),
            r.value() == (val(a@) * self.radix_value()) % self.modulus_value(),
    {
        let r = self.limbs;
        let n = self.modulus.as_slice();
        let ghost nv = val(self.modulus@) as int;
        proof {
            assert(self.modulus@.subrange(0, r as int) =~= self.modulus@);
        }
        proof {
            lemma_val_bound(self.modulus@);
            assert(a@.subrange(0, a.len() as int) =~= a@);
        }
        let mut x = reduce_mod(a.as_slice(), a.len(), n, r);
        let ghost av = val(a@) as int;
        mul_by_radix_mod(&mut x, r, n);
        proof {
            let rr = base_pow(r as nat) as int;
            lemma_mul_mod_noop_left(av, rr, nv);
        }
        MtgyInt { limbs: x }
    }

    /// The natural value of a Montgomery integer: `a / R mod N`, normalized.
    pub fn to_int(&self, a: &MtgyInt) -> (r: Vec<u64>)
        requires
            self.wf(),
            self.holds(a),
        ensures
            normalized(r@),
            val(r@) < self.modulus_value(),
            (val(r@) * self.radix_value()) % self.modulus_value() == a.value() % self.modulus_value(),
    {
        let r = self.limbs;
        let mut t = zeroed(2 * r + 1);
        copy_incr(a.limbs.as_slice(), 0, &mut t, 0, r);
        proof {
            assert(self.modulus@.subrange(0, r as int) =~= self.modulus@);
            assert(a.limbs@.subrange(0, r as int) =~= a.limbs@);
            assert(t@.subrange(0, 2 * r + 1) =~= t@);
            lemma_val_split(t@, 0, r as int, 2 * r + 1);
            assert(t@.subrange(r as int, 2 * r + 1) =~= zeros((r + 1) as nat));
            lemma_val_zeros(zeros((r + 1) as nat));
            let lo = val_at(t@, 0, r as int);
            let pr = base_pow(r as nat);
            lemma_base_pow_pos(r as nat);
            assert(lo + 0 * pr == lo) by (nonlinear_arith);
            assert(val(t@) == a.value());
            assert(val(t@) < val(self.modulus@) * pr) by (nonlinear_arith)
                requires
                    val(t@) < val(self.modulus@),
                    pr >= 1,
            ;
        }
        let mut w = zeroed(r);
        redc(&mut w, r, self.modulus.as_slice(), self.modulus_inv0, &mut t);
        proof {
            assert(w@.subrange(0, r as int) =~= w@);
        }
        normalize(&w)
    }

    /// Montgomery product `a b / R mod N` of two Montgomery integers.
    pub fn mul(&self, a: &MtgyInt, b: &MtgyInt) -> (r: MtgyInt)
        requires
            self.wf(),
            self.holds(a),
            self.holds(b),
        ensures
            self.holds(&r),
            (r.value() * self.radix_value()) % self.modulus_value() == (a.value() * b.value())
                % self.modulus_value(),
    {
        let r = self.limbs;
        let mut w = zeroed(r);
        copy_incr(a.limbs.as_slice(), 0, &mut w, 0, r);
        let mut t = zeroed(2 * r + 1);
        proof {
            assert(self.modulus@.subrange(0, r as int) =~= self.modulus@);
            assert(w@.subrange(0, r as int) =~= w@);
            assert(a.limbs@.subrange(0, r as int) =~= a.limbs@);
        }
        mont_mul(&mut w, r, b.limbs.as_slice(), self.modulus.as_slice(), self.modulus_inv0, &mut t);
        MtgyInt { limbs: w }
    }

    /// Montgomery square `a a / R mod N` of a Montgomery integer.
    pub fn sqr(&self, a: &MtgyInt) -> (r: MtgyInt)
        requires
            self.wf(),
            self.holds(a),
        ensures
            self.holds(&r),
            (r.value() * self.radix_value()) % self.modulus_value() == (a.value() * a.value())
                % self.modulus_value(),
    {
        let r = self.limbs;
        let mut w = zeroed(r);
        copy_incr(a.limbs.as_slice(), 0, &mut w, 0, r);
        let mut t = zeroed(2 * r + 1);
        proof {
            assert(self.modulus@.subrange(0, r as int) =~= self.modulus@);
            assert(w@.subrange(0, r as int) =~= w@);
            assert(a.limbs@.subrange(0, r as int) =~= a.limbs@);
        }
        mont_sqr(&mut w, r, self.modulus.as_slice(), self.modulus_inv0, &mut t);
        MtgyInt { limbs: w }
    }

    /// Montgomery power of a Montgomery integer: the Montgomery form of
    /// `basis^exponent`, for a natural `exponent` given in limbs.
    pub fn pow(&self, basis: &MtgyInt, exponent: &Vec<u64>) -> (r: MtgyInt)
        requires
            self.wf(),
            self.holds(basis),
            exponent.len() < 0x0200_0000_0000_0000,
        ensures
            self.holds(&r),
            mont_rep(
                r.value() as int,
                val(exponent@),
                basis.value() as int,
                self.modulus_value() as int,
                self.radix_value() as int,
            ),
    {
        let r = self.limbs;
        let mut w = zeroed(r);
        copy_incr(self.one.as_slice(), 0, &mut w, 0, r);
        proof {
            assert(self.modulus@.subrange(0, r as int) =~= self.modulus@);
            assert(w@.subrange(0, r as int) =~= w@);
            assert(self.one@.subrange(0, r as int) =~= self.one@);
            assert(basis.limbs@.subrange(0, r as int) =~= basis.limbs@);
            assert(exponent@.subrange(0, exponent.len() as int) =~= exponent@);
            lemma_val_low_limb(self.modulus@);
            let rest = val(self.modulus@.subrange(1, r as int)) as int;
            assert(val(self.modulus@) % 2 == self.modulus@[0] % 2) by (nonlinear_arith)
                requires
                    val(self.modulus@) == self.modulus@[0] + radix() * rest,
                    radix() == 0x1_0000_0000_0000_0000nat,
            ;
        }
        modpow(&mut w, r, self.modulus.as_slice(), self.modulus_inv0, basis.limbs.as_slice(), exponent.as_slice(), exponent.len());
        MtgyInt { limbs: w }
    }
}

/// Multiplying by a power of the Montgomery radix can be undone modulo an odd number.
proof fn lemma_cancel_radix_pow(nv: int, x: int, y: int, r: nat, e: nat)
    requires
        nv > 0,
        nv % 2 == 1,
        (x * pow(base_pow(r) as int, e)) % nv == (y * pow(base_pow(r) as int, e)) % nv,
    ensures
        x % nv == y % nv,
    decreases e,
{
    let rr = base_pow(r) as int;
    if e == 0 {
        lemma_pow0(rr);
        assert(x * 1 == x && y * 1 == y);
    } else {
        let pe = pow(rr, (e - 1) as nat);
        lemma_pow_adds(rr, 1, (e - 1) as nat);
        lemma_pow1(rr);
        assert(pow(rr, e) == rr * pe);
        assert(x * (rr * pe) == (x * rr) * pe) by (nonlinear_arith);
        assert(y * (rr * pe) == (y * rr) * pe) by (nonlinear_arith);
        lemma_cancel_radix_pow(nv, x * rr, y * rr, r, (e - 1) as nat);
        lemma_cancel_radix(nv, x, y, r);
    }
}

impl MtgyModulus {
    /// Round trip: for `a` below `N`, converting to Montgomery form with
    /// `to_mtgy` and back with `to_int` gives `a` again.
    pub proof fn law_round_trip(&self, a: nat, a_bar: &MtgyInt, back: nat)
        requires
            self.wf(),
            a < self.modulus_value(),
            self.holds(a_bar),
            a_bar.value() == (a * self.radix_value()) % self.modulus_value(),
            back < self.modulus_value(),
            (back * self.radix_value()) % self.modulus_value() == a_bar.value() % self.modulus_value(),
        ensures
            back == a,
    {
        let nv = self.modulus_value() as int;
        let rr = self.radix_value() as int;
        lemma_small_mod(a_bar.value(), nv as nat);
        lemma_mod_twice(a * rr, nv);
        lemma_cancel_radix(nv, back as int, a as int, self.limbs as nat);
        lemma_small_mod(back, nv as nat);
        lemma_small_mod(a, nv as nat);
    }

    /// Montgomery multiplication is multiplication modulo `N` in Montgomery
    /// form: the product of `to_mtgy(a)` and `to_mtgy(b)` by `mul` is
    /// `to_mtgy(a b mod N)`.
    pub proof fn law_homomorphism(&self, a: nat, b: nat, x: &MtgyInt, y: &MtgyInt, z: &MtgyInt)
        requires
            self.wf(),
            x.value() == (a * self.radix_value()) % self.modulus_value(),
            y.value() == (b * self.radix_value()) % self.modulus_value(),
            self.holds(z),
            (z.value() * self.radix_value()) % self.modulus_value() == (x.value() * y.value())
                % self.modulus_value(),
        ensures
            z.value() == (((a * b) % self.modulus_value()) * self.radix_value()) % self.modulus_value(),
    {
        let nv = self.modulus_value() as int;
        let rr = self.radix_value() as int;
        let ai = a as int;
        let bi = b as int;
        lemma_mul_mod_noop(ai * rr, bi * rr, nv);
        assert((ai * rr) * (bi * rr) == ((ai * bi) * rr) * rr) by (nonlinear_arith);
        lemma_cancel_radix(nv, z.value() as int, (ai * bi) * rr, self.limbs as nat);
        lemma_small_mod(z.value(), nv as nat);
        lemma_mul_mod_noop_left(ai * bi, rr, nv);
    }

    /// Exponentiation: converting `a` with `to_mtgy`, raising it with `pow` to
    /// `e` and converting back with `to_int` gives `a^e mod N`.
    pub proof fn law_pow(&self, a: nat, e: nat, a_bar: &MtgyInt, p: &MtgyInt, back: nat)
        requires
            self.wf(),
            self.holds(a_bar),
            a_bar.value() == (a * self.radix_value()) % self.modulus_value(),
            mont_rep(
                p.value() as int,
                e,
                a_bar.value() as int,
                self.modulus_value() as int,
                self.radix_value() as int,
            ),
            back < self.modulus_value(),
            (back * self.radix_value()) % self.modulus_value() == p.value() % self.modulus_value(),
        ensures
            back == pow(a as int, e) % (self.modulus_value() as int),
    {
        let nv = self.modulus_value() as int;
        let rr = self.radix_value() as int;
        let ai = a as int;
        let pv = p.value() as int;
        let re = pow(rr, e);
        let ae = pow(ai, e);
        // back R R^e == p R^e == a_bar^e R == (a R)^e R == a^e R^e R
        lemma_mul_mod_noop_left(back as int * rr, re, nv);
        lemma_small_mod(p.value(), nv as nat);
        assert((back as int * rr) * re == (back as int * re) * rr) by (nonlinear_arith);
        lemma_pow_mod_noop(ai * rr, e, nv);
        lemma_pow_distributes(ai, rr, e);
        lemma_mul_mod_noop_left(pow(a_bar.value() as int, e), rr, nv);
        lemma_mul_mod_noop_left(pow(ai * rr, e), rr, nv);
        assert((ae * re) * rr == (ae * rr) * re) by (nonlinear_arith);
        assert(((back as int * re) * rr) % nv == ((ae * re) * rr) % nv);
        lemma_cancel_radix(nv, back as int * re, ae * re, self.limbs as nat);
        lemma_cancel_radix_pow(nv, back as int, ae, self.limbs as nat, e);
        lemma_small_mod(back, nv as nat);
    }
}

/// An integer in Montgomery form for a `Modulus`.
pub struct ModInt {
    inner: MtgyInt,
}

impl ModInt {
    /// The value of the limbs.
    pub closed spec fn value(&self) -> nat {
        self.inner.value()
    }
}

/// Montgomery parameters of an odd modulus, whose exponentiation derives
/// `-1 / N` modulo the radix from `N` at each call.
pub struct Modulus {
    inner: MtgyModulus,
}

impl Modulus {
    pub closed spec fn wf(&self) -> bool {
        self.inner.wf()
    }

    /// The modulus `N`.
    pub closed spec fn modulus_value(&self) -> nat {
        self.inner.modulus_value()
    }

    /// The Montgomery radix `R`.
    pub closed spec fn radix_value(&self) -> nat {
        self.inner.radix_value()
    }

    /// `a` is a Montgomery integer of this modulus.
    pub closed spec fn holds(&self, a: &ModInt) -> bool {
        self.inner.holds(&a.inner)
    }

    /// Prepares Montgomery arithmetic for the odd modulus `N`.
    pub fn new(modulus: &Vec<u64>) -> (m: Modulus)
        requires
            val(modulus@) % 2 == 1,
            modulus.len() < 0x0200_0000_0000_0000,
            2 * modulus.len() + 1 <= usize::MAX,
        ensures
            m.wf(),
            m.modulus_value() == val(modulus@),
    {
        Modulus { inner: MtgyModulus::new(modulus) }
    }

    /// Montgomery product `a b / R mod N`.
    pub fn mul(&self, a: &ModInt, b: &ModInt) -> (r: ModInt)
        requires
            self.wf(),
            self.holds(a),
            self.holds(b),
        ensures
            self.holds(&r),
            (r.value() * self.radix_value()) % self.modulus_value() == (a.value() * b.value())
                % self.modulus_value(),
    {
        ModInt { inner: self.inner.mul(&a.inner, &b.inner) }
    }

    /// Montgomery square `a a / R mod N`.
    pub fn sqr(&self, a: &ModInt) -> (r: ModInt)
        requires
            self.wf(),
            self.holds(a),
        ensures
            self.holds(&r),
            (r.value() * self.radix_value()) % self.modulus_value() == (a.value() * a.value())
                % self.modulus_value(),
    {
        ModInt { inner: self.inner.sqr(&a.inner) }
    }

    /// The Montgomery form of `a^b`, for `a` in Montgomery form and a natural `b`.
    pub fn pow(&self, a: &ModInt, b: &Vec<u64>) -> (r: ModInt)
        requires
            self.wf(),
            self.holds(a),
            b.len() < 0x0200_0000_0000_0000,
        ensures
            self.holds(&r),
            mont_rep(
                r.value() as int,
                val(b@),
                a.value() as int,
                self.modulus_value() as int,
                self.radix_value() as int,
            ),
    {
        let m = &self.inner;
        let r = m.limbs;
        let mut w = zeroed(r);
        copy_incr(m.one.as_slice(), 0, &mut w, 0, r);
        proof {
            assert(m.modulus@.subrange(0, r as int) =~= m.modulus@);
            assert(w@.subrange(0, r as int) =~= w@);
            assert(m.one@.subrange(0, r as int) =~= m.one@);
            assert(a.inner.limbs@.subrange(0, r as int) =~= a.inner.limbs@);
            assert(b@.subrange(0, b.len() as int) =~= b@);
        }
        modpow_by_montgomery(&mut w, r, m.modulus.as_slice(), a.inner.limbs.as_slice(), b.as_slice(), b.len());
        ModInt { inner: MtgyInt { limbs: w } }
    }

    /// The Montgomery form `a R mod N` of `a`.
    pub fn to_montgomery(&self, a: &Vec<u64>) -> (r: ModInt)
        requires
            self.wf(),
        ensures
            self.holds(&r),
            r.value() == (val(a@) * self.radix_value()) % self.modulus_value(),
    {
        ModInt { inner: self.inner.to_mtgy(a) }
    }

    /// The natural value `a / R mod N` of a Montgomery integer, normalized.
    pub fn to_natural(&self, a: ModInt) -> (r: Vec<u64>)
        requires
            self.wf(),
            self.holds(&a),
        ensures
            normalized(r@),
            val(r@) < self.modulus_value(),
            (val(r@) * self.radix_value()) % self.modulus_value() == a.value() % self.modulus_value(),
    {
        self.inner.to_int(&a.inner)
    }
}

} // verus!
