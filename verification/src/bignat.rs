//! Unsigned big integers as little-endian vectors of 64-bit limbs, with
//! only the operations the capacity computation needs: build from a
//! machine word, multiply by a machine word, and compare.

use vstd::prelude::*;
use vstd::arithmetic::power2::pow2;

verus! {

/// The value of the first `i` limbs: limb `j` weighs `2^(64 j)`.
pub open spec fn bn_pre(s: Seq<u64>, i: int) -> nat
    decreases i,
{
    if i <= 0 || i > s.len() {
        0
    } else {
        bn_pre(s, i - 1) + (s[i - 1] * pow2((64 * (i - 1)) as nat)) as nat
    }
}

/// The value of the whole limb vector.
pub open spec fn bn_val(s: Seq<u64>) -> nat {
    bn_pre(s, s.len() as int)
}

/// Prefixes of agreeing limb vectors have the same value.
proof fn lemma_bn_pre_agree(s: Seq<u64>, t: Seq<u64>, i: int)
    requires
        i <= s.len(),
        i <= t.len(),
        forall|j: int| 0 <= j < i ==> s[j] == t[j],
    ensures
        bn_pre(s, i) == bn_pre(t, i),
    decreases i,
{
    if i > 0 {
        lemma_bn_pre_agree(s, t, i - 1);
    }
}

/// A prefix of `i` limbs is worth less than `2^(64 i)`.
proof fn lemma_bn_pre_bound(s: Seq<u64>, i: int)
    requires
        0 <= i <= s.len(),
    ensures
        bn_pre(s, i) < pow2((64 * i) as nat),
    decreases i,
{
    vstd::arithmetic::power2::lemma_pow2_pos((64 * i) as nat);
    if i > 0 {
        lemma_bn_pre_bound(s, i - 1);
        let p = pow2((64 * (i - 1)) as nat);
        vstd::arithmetic::power2::lemma_pow2_adds((64 * (i - 1)) as nat, 64);
        vstd::arithmetic::power2::lemma2_to64();
        assert(s[i - 1] * p <= 0xFFFFFFFFFFFFFFFF * p) by (nonlinear_arith)
            requires
                s[i - 1] <= 0xFFFFFFFFFFFFFFFFu64,
                p >= 0,
        ;
        assert(p + 0xFFFFFFFFFFFFFFFF * p == 0x10000000000000000 * p) by (nonlinear_arith);
    }
}

/// If the limbs agree at and above `i` and differ at `i - 1`, the vector
/// with the smaller limb there has the smaller value.
proof fn lemma_bn_lt(s: Seq<u64>, t: Seq<u64>, i: int)
    requires
        s.len() == t.len(),
        1 <= i <= s.len(),
        forall|j: int| i <= j < s.len() ==> s[j] == t[j],
        s[i - 1] < t[i - 1],
    ensures
        bn_val(s) < bn_val(t),
    decreases s.len() - i,
{
    if i == s.len() {
        lemma_bn_pre_bound(s, i - 1);
        let p = pow2((64 * (i - 1)) as nat);
        lemma_bn_pre_agree(t, t, i - 1);
        assert(s[i - 1] * p + p <= t[i - 1] * p) by (nonlinear_arith)
            requires
                s[i - 1] < t[i - 1],
                p >= 1,
        ;
        assert(bn_pre(t, i) >= t[i - 1] * p);
    } else {
        lemma_bn_lt(s.take(s.len() - 1), t.take(t.len() - 1), i);
        let n = s.len() as int;
        lemma_bn_pre_agree(s.take(n - 1), s, n - 1);
        lemma_bn_pre_agree(t.take(n - 1), t, n - 1);
        assert(bn_val(s.take(n - 1)) == bn_pre(s, n - 1));
        assert(bn_val(t.take(n - 1)) == bn_pre(t, n - 1));
        assert(s[n - 1] == t[n - 1]);
    }
}

/// The single-limb vector for a machine word.
pub fn bn_from(x: usize) -> (r: Vec<u64>)
    ensures
        bn_val(r@) == x,
{
    let mut r: Vec<u64> = Vec::new();
    r.push(x as u64);
    proof {
        vstd::arithmetic::power2::lemma2_to64();
        assert(bn_pre(r@, 1) == bn_pre(r@, 0) + r@[0] * pow2(0));
    }
    r
}

/// Multiply by a machine word, schoolbook style with a carry.
pub fn bn_mul_small(a: &Vec<u64>, m: usize) -> (r: Vec<u64>)
    ensures
        bn_val(r@) == bn_val(a@) * m,
{
    let mut out: Vec<u64> = Vec::new();
    let mut carry: u64 = 0;
    let mut i: usize = 0;
    proof {
        assert(bn_pre(out@, 0) == 0);
        assert(bn_pre(a@, 0) == 0);
        assert((0 as nat) * pow2(0) == 0) by (nonlinear_arith);
        assert((0 as nat) * (m as nat) == 0) by (nonlinear_arith);
    }
    while i < a.len()
        invariant
            i <= a@.len(),
            out@.len() == i,
            bn_pre(out@, i as int) + (carry as nat) * pow2((64 * i) as nat) == bn_pre(
                a@,
                i as int,
            ) * m,
        decreases a@.len() - i,
    {
        proof {
            assert((a@[i as int] as nat) * (m as nat) + carry < 0x100000000000000000000000000000000)
                by (nonlinear_arith)
                requires
                    a@[i as int] <= 0xFFFFFFFFFFFFFFFFu64,
                    m <= 0xFFFFFFFFFFFFFFFFu128,
                    carry <= 0xFFFFFFFFFFFFFFFFu64,
            ;
        }
        let t: u128 = (a[i] as u128) * (m as u128) + (carry as u128);
        let lo: u64 = (t % 0x10000000000000000u128) as u64;
        let hi: u64 = (t / 0x10000000000000000u128) as u64;
        proof {
            assert(t / 0x10000000000000000u128 < 0x10000000000000000) by (nonlinear_arith)
                requires
                    t < 0x100000000000000000000000000000000,
            ;
        }
        let ghost carry0 = carry as nat;
        let ghost p = pow2((64 * i) as nat);
        let ghost out0 = out@;
        out.push(lo);
        carry = hi;
        i += 1;
        proof {
            let ii = i as int;
            vstd::arithmetic::power2::lemma_pow2_adds((64 * (ii - 1)) as nat, 64);
            vstd::arithmetic::power2::lemma2_to64();
            assert(pow2((64 * ii) as nat) == p * 0x10000000000000000);
            lemma_bn_pre_agree(out@, out0, ii - 1);
            assert(bn_pre(out@, ii) == bn_pre(out@, ii - 1) + (lo as nat) * p);
            vstd::arithmetic::div_mod::lemma_fundamental_div_mod(
                t as int,
                0x10000000000000000,
            );
            assert((lo as nat) + (hi as nat) * 0x10000000000000000 == t);
            assert((lo as nat) * p + (hi as nat) * (p * 0x10000000000000000) == (t as nat) * p)
                by (nonlinear_arith)
                requires
                    (lo as nat) + (hi as nat) * 0x10000000000000000 == t as nat,
                    p >= 0,
            ;
            assert((t as nat) * p == (a@[ii - 1] as nat) * (m as nat) * p + carry0 * p)
                by (nonlinear_arith)
                requires
                    t as nat == (a@[ii - 1] as nat) * (m as nat) + carry0,
                    p >= 0,
            ;
            assert(bn_pre(a@, ii) * m == bn_pre(a@, ii - 1) * m + (a@[ii - 1] as nat) * (
            m as nat) * p) by (nonlinear_arith)
                requires
                    bn_pre(a@, ii) == bn_pre(a@, ii - 1) + (a@[ii - 1] as nat) * p,
            ;
        }
    }
    let ghost p = pow2((64 * i) as nat);
    let ghost out0 = out@;
    out.push(carry);
    proof {
        let ii = i as int;
        lemma_bn_pre_agree(out@, out0, ii);
        assert(bn_pre(out@, ii + 1) == bn_pre(out@, ii) + (carry as nat) * p);
    }
    out
}

/// Whether the first value is at most the second; the vectors must have
/// the same number of limbs (pad with zero limbs first).
pub fn bn_le(a: &Vec<u64>, b: &Vec<u64>) -> (r: bool)
    requires
        a@.len() == b@.len(),
    ensures
        r == (bn_val(a@) <= bn_val(b@)),
{
    let n = a.len();
    let mut i: usize = n;
    while i > 0
        invariant
            i <= n,
            n == a@.len(),
            n == b@.len(),
            forall|j: int| i <= j < n ==> a@[j] == b@[j],
        decreases i,
    {
        let x = a[i - 1];
        let y = b[i - 1];
        if x < y {
            proof {
                lemma_bn_lt(a@, b@, i as int);
            }
            return true;
        }
        if x > y {
            proof {
                lemma_bn_lt(b@, a@, i as int);
            }
            return false;
        }
        i -= 1;
    }
    proof {
        lemma_bn_pre_agree(a@, b@, n as int);
    }
    true
}

/// A limb-for-limb copy.
pub fn bn_copy(a: &Vec<u64>) -> (r: Vec<u64>)
    ensures
        r@ == a@,
{
    let mut r: Vec<u64> = Vec::new();
    let mut i: usize = 0;
    while i < a.len()
        invariant
            i <= a@.len(),
            r@ == a@.take(i as int),
        decreases a@.len() - i,
    {
        r.push(a[i]);
        proof {
            assert(a@.take(i + 1) =~= a@.take(i as int).push(a@[i as int]));
        }
        i += 1;
    }
    proof {
        assert(a@.take(a@.len() as int) =~= a@);
    }
    r
}

/// Append zero limbs until the vector has `n` limbs; the value is kept.
pub fn bn_pad(v: &mut Vec<u64>, n: usize)
    ensures
        final(v)@.len() == if old(v)@.len() >= n {
            old(v)@.len() as int
        } else {
            n as int
        },
        bn_val(final(v)@) == bn_val(old(v)@),
{
    while v.len() < n
        invariant
            bn_val(v@) == bn_val(old(v)@),
            v@.len() >= old(v)@.len(),
            v@.len() <= if old(v)@.len() >= n {
                old(v)@.len() as int
            } else {
                n as int
            },
        decreases n - v@.len(),
    {
        let ghost len0 = v@.len() as int;
        let ghost v0 = v@;
        v.push(0);
        proof {
            lemma_bn_pre_agree(v@, v0, len0);
            assert(bn_pre(v@, len0 + 1) == bn_pre(v@, len0) + 0 * pow2((64 * len0) as nat));
        }
    }
}

} // verus!
