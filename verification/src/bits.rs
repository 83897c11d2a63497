//! Bit-level ground truth for the card masks: single-bit reads, popcount,
//! and the handful of lemmas the card algebra is proved from.

use vstd::arithmetic::power2::{lemma2_to64, lemma2_to64_rest, lemma_pow2_unfold, pow2};
use vstd::prelude::*;

verus! {

/// True when bit `i` of `m` is set.
pub open spec fn bit64(m: u64, i: u64) -> bool
    recommends
        i < 64,
{
    (m >> i) & 1 == 1
}

/// True when bit `i` of `m` is set.
pub open spec fn bit16(m: u16, i: u16) -> bool
    recommends
        i < 16,
{
    (m >> i) & 1 == 1
}

/// The number of set bits of `m`.
pub open spec fn pop64(m: u64) -> nat
    decreases m,
{
    if m == 0 {
        0
    } else {
        (m % 2) as nat + pop64(m / 2)
    }
}

/// The number of set bits of `m`.
pub open spec fn pop16(m: u16) -> nat {
    pop64(m as u64)
}

pub proof fn lemma_bit64_or(a: u64, b: u64)
    by (bit_vector)
    ensures
        forall|i: u64| i < 64 ==> #[trigger] bit64(a | b, i) == (bit64(a, i) || bit64(b, i)),
{
}

pub proof fn lemma_bit64_and(a: u64, b: u64)
    by (bit_vector)
    ensures
        forall|i: u64| i < 64 ==> #[trigger] bit64(a & b, i) == (bit64(a, i) && bit64(b, i)),
{
}

pub proof fn lemma_bit64_diff(a: u64, b: u64)
    by (bit_vector)
    ensures
        forall|i: u64| i < 64 ==> #[trigger] bit64(a & !b, i) == (bit64(a, i) && !bit64(b, i)),
{
}

pub proof fn lemma_bit64_single(j: u64)
    by (bit_vector)
    requires
        j < 64,
    ensures
        forall|i: u64| i < 64 ==> #[trigger] bit64(1u64 << j, i) == (i == j),
{
}

pub proof fn lemma_pop64_le(m: u64, k: nat)
    requires
        m < pow2(k),
        k <= 64,
    ensures
        pop64(m) <= k,
    decreases k,
{
    if k == 0 {
        reveal(pow2);
        assert(pow2(0) == 1) by {
            lemma2_to64();
        }
    } else {
        lemma_pow2_unfold(k);
        assert(m / 2 < pow2((k - 1) as nat));
        lemma_pop64_le(m / 2, (k - 1) as nat);
    }
}

pub proof fn lemma_pop64_le64(m: u64)
    ensures
        pop64(m) <= 64,
{
    lemma2_to64_rest();
    lemma_pop64_le(m, 64);
}

/// The bits of a disjoint union add up.
pub proof fn lemma_pop64_disjoint(a: u64, b: u64)
    requires
        a & b == 0,
    ensures
        pop64(a | b) == pop64(a) + pop64(b),
    decreases a, b,
{
    if a | b == 0 {
        assert(a == 0 && b == 0) by (bit_vector)
            requires
                a | b == 0,
        ;
    } else {
        assert((a | b) % 2 == a % 2 + b % 2 && (a | b) / 2 == (a / 2) | (b / 2) && (a / 2) & (b / 2)
            == 0 && (a / 2) <= a && (b / 2) <= b && a + b > 0) by (bit_vector)
            requires
                a & b == 0,
                a | b != 0,
        ;
        lemma_pop64_disjoint(a / 2, b / 2);
    }
}

pub proof fn lemma_pop64_single(j: u64)
    requires
        j < 64,
    ensures
        pop64(1u64 << j) == 1,
    decreases j,
{
    if j == 0 {
        assert(1u64 << 0 == 1) by (bit_vector);
        assert(pop64(0) == 0);
        assert(pop64(1) == 1);
    } else {
        assert((1u64 << j) % 2 == 0 && (1u64 << j) / 2 == 1u64 << ((j - 1) as u64) && (1u64 << j)
            != 0) by (bit_vector)
            requires
                0 < j < 64,
        ;
        lemma_pop64_single((j - 1) as u64);
        assert(pop64(1u64 << j) == 0 + pop64((1u64 << j) / 2));
    }
}

/// Setting a clear bit raises the count by one.
pub proof fn lemma_pop64_add_bit(m: u64, j: u64)
    requires
        j < 64,
        !bit64(m, j),
    ensures
        pop64(m | (1u64 << j)) == pop64(m) + 1,
{
    assert(m & (1u64 << j) == 0) by (bit_vector)
        requires
            j < 64,
            !bit64(m, j),
    ;
    lemma_pop64_disjoint(m, 1u64 << j);
    lemma_pop64_single(j);
}

/// Clearing a set bit lowers the count by one.
pub proof fn lemma_pop64_sub_bit(m: u64, j: u64)
    requires
        j < 64,
        bit64(m, j),
    ensures
        pop64(m & !(1u64 << j)) + 1 == pop64(m),
{
    assert((m & !(1u64 << j)) & (1u64 << j) == 0 && ((m & !(1u64 << j)) | (1u64 << j)) == m)
        by (bit_vector)
        requires
            j < 64,
            bit64(m, j),
    ;
    lemma_pop64_disjoint(m & !(1u64 << j), 1u64 << j);
    lemma_pop64_single(j);
}

/// A submask has at most as many bits.
pub proof fn lemma_pop64_subset(a: u64, b: u64)
    requires
        a & b == a,
    ensures
        pop64(a) <= pop64(b),
{
    assert(a & (b & !a) == 0 && (a | (b & !a)) == b) by (bit_vector)
        requires
            a & b == a,
    ;
    lemma_pop64_disjoint(a, b & !a);
}

pub proof fn lemma_pop64_zero(m: u64)
    ensures
        pop64(m) == 0 <==> m == 0,
    decreases m,
{
    if m != 0 && m % 2 == 0 {
        lemma_pop64_zero(m / 2);
    }
}

/// The empty mask has no bits.
pub proof fn lemma_bit64_zero()
    by (bit_vector)
    ensures
        forall|j: u64| j < 64 ==> !(#[trigger] bit64(0u64, j)),
{
}

/// A bit test yields zero or one, never more.
pub proof fn lemma_bit_val(m: u64, j: u64)
    by (bit_vector)
    ensures
        (m >> j) & 1 == 0 || (m >> j) & 1 == 1,
{
}

} // verus!
