//! Natural numbers of any size, held as limbs of 64 bits, the least first.

use crate::rounding::{relation, Relation};
use vstd::arithmetic::power2::{lemma2_to64, lemma_pow2_adds, lemma_pow2_pos, pow2};
use vstd::prelude::*;

verus! {

/// The base of the limbs: 2^64.
pub open spec fn radix() -> nat {
    0x1_0000_0000_0000_0000
}

/// The weight of the limb at place `i`: 2^(64 i).
pub open spec fn weight(i: nat) -> nat {
    pow2(64 * i)
}

/// The number that the limbs stand for.
pub open spec fn big_value(limbs: Seq<u64>) -> nat
    decreases limbs.len(),
{
    if limbs.len() == 0 {
        0
    } else {
        big_value(limbs.drop_last()) + (limbs.last() as nat) * weight((limbs.len() - 1) as nat)
    }
}

/// Each weight is the base times the one before.
pub proof fn lemma_weight_step(i: nat)
    ensures
        weight(i + 1) == radix() * weight(i),
        weight(i) > 0,
        weight(0) == 1,
{
    lemma2_to64();
    lemma_pow2_adds(64, 64 * i);
    lemma_pow2_pos(64 * i);
    assert(64 * (i + 1) == 64 + 64 * i);
}

/// A number of `n` limbs lies below the weight of place `n`.
pub proof fn lemma_big_value_bound(limbs: Seq<u64>)
    ensures
        big_value(limbs) < weight(limbs.len()),
    decreases limbs.len(),
{
    lemma_weight_step(0);
    if limbs.len() > 0 {
        let n = (limbs.len() - 1) as nat;
        lemma_big_value_bound(limbs.drop_last());
        lemma_weight_step(n);
        let w = weight(n) as int;
        let top = limbs.last() as int;
        let low = big_value(limbs.drop_last()) as int;
        assert(low + top * w < radix() * w) by (nonlinear_arith)
            requires
                low < w,
                0 <= top < radix(),
                w > 0,
        ;
    }
}

/// Multiplies a number by `m` and adds `a`.
pub fn mul_add(x: &Vec<u64>, m: u64, a: u64) -> (r: Vec<u64>)
    ensures
        big_value(r@) == big_value(x@) * m + a,
{
    let mut out: Vec<u64> = Vec::new();
    let mut carry: u64 = a;
    let mut i: usize = 0;
    proof {
        lemma_weight_step(0);
        assert(x@.take(0) =~= Seq::<u64>::empty());
        assert(big_value(x@.take(0)) * m == 0) by (nonlinear_arith)
            requires
                big_value(x@.take(0)) == 0,
        ;
    }
    while i < x.len()
        invariant
            0 <= i <= x.len(),
            out@.len() == i,
            big_value(out@) + carry * weight(i as nat) == big_value(x@.take(i as int)) * m + a,
        decreases x.len() - i,
    {
        let limb = x[i];
        assert(limb * m + carry < 0x1_0000_0000_0000_0000 * 0x1_0000_0000_0000_0000)
            by (nonlinear_arith)
            requires
                limb < 0x1_0000_0000_0000_0000,
                m < 0x1_0000_0000_0000_0000,
                carry < 0x1_0000_0000_0000_0000,
        ;
        let t: u128 = (limb as u128) * (m as u128) + (carry as u128);
        let low: u64 = (t % 0x1_0000_0000_0000_0000u128) as u64;
        let high: u64 = (t / 0x1_0000_0000_0000_0000u128) as u64;
        proof {
            let w = weight(i as nat) as int;
            lemma_weight_step(i as nat);
            assert(x@.take(i + 1).drop_last() =~= x@.take(i as int));
            assert(x@.take(i + 1).last() == limb);
            assert(out@.push(low).drop_last() =~= out@);
            assert(t == high * radix() + low);
            let before_out = big_value(out@) as int;
            let before_x = big_value(x@.take(i as int)) as int;
            assert(before_out + low * w + high * (radix() * w) == (before_x + limb * w) * m + a)
                by (nonlinear_arith)
                requires
                    before_out + carry * w == before_x * m + a,
                    limb * m + carry == high * radix() + low,
            ;
        }
        out.push(low);
        carry = high;
        i = i + 1;
    }
    proof {
        assert(x@.take(x@.len() as int) =~= x@);
    }
    if carry > 0 {
        proof {
            assert(out@.push(carry).drop_last() =~= out@);
        }
        out.push(carry);
    } else {
        assert(carry * weight(i as nat) == 0);
    }
    out
}

/// Fills a number up with zero limbs to `n` limbs.
fn padded(x: &Vec<u64>, n: usize) -> (r: Vec<u64>)
    requires
        x.len() <= n,
    ensures
        r@.len() == n,
        big_value(r@) == big_value(x@),
{
    let mut out: Vec<u64> = Vec::new();
    let mut i: usize = 0;
    proof {
        assert(x@.take(0) =~= Seq::<u64>::empty());
    }
    while i < x.len()
        invariant
            0 <= i <= x.len(),
            out@ == x@.take(i as int),
        decreases x.len() - i,
    {
        out.push(x[i]);
        proof {
            assert(out@ =~= x@.take(i + 1));
        }
        i = i + 1;
    }
    proof {
        assert(x@.take(x@.len() as int) =~= x@);
    }
    while out.len() < n
        invariant
            out@.len() <= n,
            big_value(out@) == big_value(x@),
        decreases n - out.len(),
    {
        proof {
            assert(out@.push(0u64).drop_last() =~= out@);
            assert(0 * weight(out@.len()) == 0);
        }
        out.push(0);
    }
    out
}

/// Compares two numbers.
pub fn compare(x: &Vec<u64>, y: &Vec<u64>) -> (r: Relation)
    ensures
        r == relation(big_value(x@) as int, big_value(y@) as int),
{
    let n = if x.len() >= y.len() {
        x.len()
    } else {
        y.len()
    };
    let a = padded(x, n);
    let b = padded(y, n);
    let mut i: usize = n;
    proof {
        assert(a@.take(n as int) =~= a@);
        assert(b@.take(n as int) =~= b@);
    }
    while i > 0
        invariant
            0 <= i <= n,
            a@.len() == n,
            b@.len() == n,
            big_value(a@) == big_value(x@),
            big_value(b@) == big_value(y@),
            big_value(a@) - big_value(b@) == big_value(a@.take(i as int)) - big_value(
                b@.take(i as int),
            ),
        decreases i,
    {
        let p = a[i - 1];
        let q = b[i - 1];
        proof {
            let k = (i - 1) as nat;
            assert(a@.take(i as int).drop_last() =~= a@.take(i - 1));
            assert(b@.take(i as int).drop_last() =~= b@.take(i - 1));
            assert(a@.take(i as int).last() == p);
            assert(b@.take(i as int).last() == q);
            lemma_big_value_bound(a@.take(i - 1));
            lemma_big_value_bound(b@.take(i - 1));
            let w = weight(k) as int;
            let la = big_value(a@.take(i - 1)) as int;
            let lb = big_value(b@.take(i - 1)) as int;
            assert(big_value(a@.take(i as int)) == la + p * w);
            assert(big_value(b@.take(i as int)) == lb + q * w);
            assert(p < q ==> la + p * w < lb + q * w) by (nonlinear_arith)
                requires
                    0 <= la < w,
                    0 <= lb < w,
            ;
            assert(p > q ==> la + p * w > lb + q * w) by (nonlinear_arith)
                requires
                    0 <= la < w,
                    0 <= lb < w,
            ;
        }
        if p < q {
            return Relation::Less;
        }
        if p > q {
            return Relation::Greater;
        }
        i = i - 1;
    }
    proof {
        assert(a@.take(0) =~= Seq::<u64>::empty());
        assert(b@.take(0) =~= Seq::<u64>::empty());
    }
    Relation::Equal
}

/// Takes `s` off a number that is no less.
pub fn minus_small(x: &Vec<u64>, s: u64) -> (r: Vec<u64>)
    requires
        big_value(x@) >= s,
    ensures
        big_value(r@) == big_value(x@) - s,
{
    let mut out: Vec<u64> = Vec::new();
    let mut owed: u64 = s;
    let mut i: usize = 0;
    proof {
        lemma_weight_step(0);
        assert(x@.take(0) =~= Seq::<u64>::empty());
    }
    while i < x.len()
        invariant
            0 <= i <= x.len(),
            out@.len() == i,
            big_value(out@) + s == big_value(x@.take(i as int)) + owed * weight(i as nat),
            i > 0 ==> owed <= 1,
        decreases x.len() - i,
    {
        let limb = x[i];
        proof {
            lemma_weight_step(i as nat);
            assert(x@.take(i + 1).drop_last() =~= x@.take(i as int));
            assert(x@.take(i + 1).last() == limb);
        }
        let ghost w = weight(i as nat) as int;
        let ghost before_out = big_value(out@) as int;
        let ghost before_x = big_value(x@.take(i as int)) as int;
        if limb >= owed {
            let low: u64 = limb - owed;
            proof {
                assert(out@.push(low).drop_last() =~= out@);
                assert(before_out + low * w + s == before_x + limb * w + 0 * (radix() * w))
                    by (nonlinear_arith)
                    requires
                        before_out + s == before_x + owed * w,
                        low == limb - owed,
                ;
            }
            out.push(low);
            owed = 0;
        } else {
            let low: u64 = (0xFFFF_FFFF_FFFF_FFFF - owed) + limb + 1;
            proof {
                assert(out@.push(low).drop_last() =~= out@);
                assert(before_out + low * w + s == before_x + limb * w + 1 * (radix() * w))
                    by (nonlinear_arith)
                    requires
                        before_out + s == before_x + owed * w,
                        low == radix() - owed + limb,
                ;
            }
            out.push(low);
            owed = 1;
        }
        i = i + 1;
    }
    proof {
        assert(x@.take(x@.len() as int) =~= x@);
        lemma_big_value_bound(out@);
        lemma_weight_step(i as nat);
        let w = weight(i as nat) as int;
        assert(owed == 0) by (nonlinear_arith)
            requires
                big_value(out@) + s == big_value(x@) + owed * w,
                big_value(out@) < w,
                big_value(x@) >= s,
                owed >= 0,
                w > 0,
        ;
    }
    out
}

/// The number `n` as a number of any size.
pub fn big_from(n: u64) -> (r: Vec<u64>)
    ensures
        big_value(r@) == n,
{
    let mut out: Vec<u64> = Vec::new();
    out.push(n);
    proof {
        assert(out@.drop_last() =~= Seq::<u64>::empty());
        assert(out@.last() == n);
        assert(big_value(Seq::<u64>::empty()) == 0);
        lemma_weight_step(0);
        assert(n * weight(0) == n);
    }
    out
}

} // verus!
