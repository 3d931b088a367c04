use vstd::prelude::*;

use crate::limb::radix;

verus! {

/// `radix()^n`, the weight of limb `n`.
pub open spec fn base_pow(n: nat) -> nat
    decreases n,
{
    if n == 0 {
        1
    } else {
        radix() * base_pow((n - 1) as nat)
    }
}

/// The natural number that a little-endian sequence of limbs stands for.
pub open spec fn val(s: Seq<u64>) -> nat
    decreases s.len(),
{
    if s.len() == 0 {
        0
    } else {
        val(s.drop_last()) + (s.last() as nat) * base_pow((s.len() - 1) as nat)
    }
}

/// The value of the limbs `s[lo..hi]`.
pub open spec fn val_at(s: Seq<u64>, lo: int, hi: int) -> nat {
    val(s.subrange(lo, hi))
}

/// `a` and `b` agree everywhere but on the positions `lo..hi`.
pub open spec fn same_outside(a: Seq<u64>, b: Seq<u64>, lo: int, hi: int) -> bool {
    &&& a.len() == b.len()
    &&& forall|k: int| 0 <= k < a.len() && !(lo <= k < hi) ==> #[trigger] a[k] == b[k]
}

pub proof fn lemma_base_pow_pos(n: nat)
    ensures
        base_pow(n) >= 1,
    decreases n,
{
    if n > 0 {
        lemma_base_pow_pos((n - 1) as nat);
        assert(radix() * base_pow((n - 1) as nat) >= 1) by (nonlinear_arith)
            requires
                base_pow((n - 1) as nat) >= 1,
        ;
    }
}

pub proof fn lemma_base_pow_adds(a: nat, b: nat)
    ensures
        base_pow(a + b) == base_pow(a) * base_pow(b),
    decreases b,
{
    if b == 0 {
        assert(base_pow(0) == 1);
        assert(a + b == a);
    } else {
        lemma_base_pow_adds(a, (b - 1) as nat);
        assert((a + b - 1) as nat == a + (b - 1) as nat);
        assert(base_pow(a + b) == radix() * base_pow((a + b - 1) as nat));
        assert(base_pow(b) == radix() * base_pow((b - 1) as nat));
        assert(radix() * (base_pow(a) * base_pow((b - 1) as nat)) == base_pow(a) * (radix()
            * base_pow((b - 1) as nat))) by (nonlinear_arith);
    }
}

pub proof fn lemma_base_pow_mono(a: nat, b: nat)
    requires
        a <= b,
    ensures
        base_pow(a) <= base_pow(b),
{
    lemma_base_pow_adds(a, (b - a) as nat);
    lemma_base_pow_pos((b - a) as nat);
    lemma_base_pow_pos(a);
    assert(base_pow(a) * base_pow((b - a) as nat) >= base_pow(a)) by (nonlinear_arith)
        requires
            base_pow((b - a) as nat) >= 1,
    ;
}

/// Appending one limb adds it at the next weight.
pub proof fn lemma_val_push(s: Seq<u64>, x: u64)
    ensures
        val(s.push(x)) == val(s) + x * base_pow(s.len()),
{
    assert(s.push(x).drop_last() =~= s);
}

/// The value of a concatenation.
pub proof fn lemma_val_concat(a: Seq<u64>, b: Seq<u64>)
    ensures
        val(a + b) == val(a) + val(b) * base_pow(a.len()),
    decreases b.len(),
{
    if b.len() == 0 {
        assert(a + b =~= a);
        assert(val(b) == 0);
    } else {
        let b0 = b.drop_last();
        lemma_val_concat(a, b0);
        assert((a + b).drop_last() =~= a + b0);
        lemma_base_pow_adds(a.len(), (b.len() - 1) as nat);
        let pa = base_pow(a.len());
        let pb = base_pow((b.len() - 1) as nat);
        let l = b.last() as int;
        assert((a + b).last() == b.last());
        assert(val(b) == val(b0) + l * pb);
        assert(val(a + b) == val(a + b0) + l * base_pow((a.len() + b0.len()) as nat));
        assert(val(a + b) == val(a) + val(b0) * pa + l * (pa * pb));
        assert(val(b0) * pa + l * (pa * pb) == (val(b0) + l * pb) * pa) by (nonlinear_arith);
    }
}

/// A value of `n` limbs is below `radix()^n`.
pub proof fn lemma_val_bound(s: Seq<u64>)
    ensures
        val(s) < base_pow(s.len()),
    decreases s.len(),
{
    if s.len() > 0 {
        let s0 = s.drop_last();
        lemma_val_bound(s0);
        let p = base_pow(s0.len());
        let l = s.last() as int;
        assert(val(s0) + l * p < radix() * p) by (nonlinear_arith)
            requires
                val(s0) < p,
                l < radix(),
        ;
    }
}

/// Splitting a range of limbs at `mid`.
pub proof fn lemma_val_split(s: Seq<u64>, lo: int, mid: int, hi: int)
    requires
        0 <= lo <= mid <= hi <= s.len(),
    ensures
        val_at(s, lo, hi) == val_at(s, lo, mid) + val_at(s, mid, hi) * base_pow((mid - lo) as nat),
{
    assert(s.subrange(lo, hi) =~= s.subrange(lo, mid) + s.subrange(mid, hi));
    lemma_val_concat(s.subrange(lo, mid), s.subrange(mid, hi));
}

/// Extending a range by one limb at the top.
pub proof fn lemma_val_at_step(s: Seq<u64>, lo: int, hi: int)
    requires
        0 <= lo <= hi < s.len(),
    ensures
        val_at(s, lo, hi + 1) == val_at(s, lo, hi) + s[hi] * base_pow((hi - lo) as nat),
{
    assert(s.subrange(lo, hi + 1) =~= s.subrange(lo, hi).push(s[hi]));
    lemma_val_push(s.subrange(lo, hi), s[hi]);
}

/// A single limb's value is the limb.
pub proof fn lemma_val_single(s: Seq<u64>, i: int)
    requires
        0 <= i < s.len(),
    ensures
        val_at(s, i, i + 1) == s[i],
{
    lemma_val_at_step(s, i, i);
    assert(s.subrange(i, i) =~= Seq::<u64>::empty());
    assert(base_pow(0) == 1);
    let v = val_at(s, i, i + 1);
    let p = base_pow(0);
    assert(v == s[i]) by (nonlinear_arith)
        requires
            v == 0 + s[i] * p,
            p == 1,
    ;
}

/// Limbs that are all zero have value zero.
pub proof fn lemma_val_zeros(s: Seq<u64>)
    requires
        forall|k: int| 0 <= k < s.len() ==> s[k] == 0,
    ensures
        val(s) == 0,
    decreases s.len(),
{
    if s.len() > 0 {
        lemma_val_zeros(s.drop_last());
    }
}

/// The lowest limb is the value modulo the radix.
pub proof fn lemma_val_low_limb(s: Seq<u64>)
    requires
        s.len() >= 1,
    ensures
        val(s) % radix() == s[0],
        val(s) == s[0] + radix() * val(s.subrange(1, s.len() as int)),
{
    lemma_val_split(s, 0, 1, s.len() as int);
    assert(s.subrange(0, 1) =~= seq![s[0]]);
    assert(Seq::<u64>::empty().push(s[0]) =~= seq![s[0]]);
    lemma_val_push(Seq::<u64>::empty(), s[0]);
    assert(base_pow(0) == 1);
    let e = Seq::<u64>::empty();
    assert(e.len() == 0);
    assert(val(e) == 0);
    assert(base_pow(e.len()) == 1);
    assert(val(e.push(s[0])) == val(e) + s[0] * base_pow(e.len()));
    let v1 = val(e.push(s[0]));
    let bp = base_pow(e.len());
    assert(v1 == s[0]) by (nonlinear_arith)
        requires
            v1 == 0 + s[0] * bp,
            bp == 1,
    ;
    assert(val(seq![s[0]]) == s[0]);
    assert(base_pow(1) == radix()) by {
        assert(base_pow(1) == radix() * base_pow(0));
    }
    assert(s.subrange(0, s.len() as int) =~= s);
    let r = val(s.subrange(1, s.len() as int));
    assert(val(s) == s[0] + r * base_pow(1));
    assert(r * radix() == radix() * r) by (nonlinear_arith);
    assert(((s[0] as nat) + r * radix()) % radix() == s[0]) by (nonlinear_arith)
        requires
            s[0] < radix(),
    {
        vstd::arithmetic::div_mod::lemma_mod_multiples_vanish(r as int, s[0] as int, radix() as int);
        vstd::arithmetic::div_mod::lemma_small_mod(s[0] as nat, radix());
    }
}

/// Two limb sequences of one length with one value are equal.
pub proof fn lemma_val_injective(a: Seq<u64>, b: Seq<u64>)
    requires
        a.len() == b.len(),
        val(a) == val(b),
    ensures
        a == b,
    decreases a.len(),
{
    if a.len() > 0 {
        let a0 = a.drop_last();
        let b0 = b.drop_last();
        let p = base_pow(a0.len());
        lemma_val_bound(a0);
        lemma_val_bound(b0);
        let la = a.last() as int;
        let lb = b.last() as int;
        assert(la == lb) by (nonlinear_arith)
            requires
                val(a0) + la * p == val(b0) + lb * p,
                0 <= val(a0) < p,
                0 <= val(b0) < p,
        ;
        lemma_val_injective(a0, b0);
        assert(a =~= a0.push(a.last()));
        assert(b =~= b0.push(b.last()));
    }
}

} // verus!
