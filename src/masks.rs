//! Node sets as 64-bit masks: bit `v` is set when node `v` belongs to the set.
use vstd::prelude::*;
use crate::model::nodes_below;

verus! {

/// Bit `v` of `m` is set.
pub open spec fn has_bit(m: u64, v: u64) -> bool {
    (m >> v) & 1u64 == 1u64
}

/// The mask of every node below `n`.
pub open spec fn full_mask(n: u64) -> u64 {
    ((1u64 << n) - 1) as u64
}

/// The mask of the nodes of `q`.
pub open spec fn mask_of(q: Seq<usize>) -> u64
    decreases q.len(),
{
    if q.len() == 0 {
        0
    } else {
        mask_of(q.drop_last()) | (1u64 << (q.last() as u64))
    }
}

/// The number of set bits of `m` below position `k`.
pub open spec fn bits_below(m: u64, k: nat) -> nat
    decreases k,
{
    if k == 0 {
        0
    } else {
        bits_below(m, (k - 1) as nat) + if has_bit(m, (k - 1) as u64) {
            1nat
        } else {
            0nat
        }
    }
}

pub proof fn lemma_bit_set(m: u64, v: u64, w: u64)
    requires
        v < 64,
        w < 64,
    ensures
        has_bit(m | (1u64 << v), w) == (has_bit(m, w) || w == v),
{
    assert(((((m | (1u64 << v)) >> w) & 1u64) == 1u64) == ((((m >> w) & 1u64) == 1u64) || w
        == v)) by (bit_vector)
        requires
            v < 64,
            w < 64,
    ;
}

pub proof fn lemma_bit_clear(m: u64, v: u64, w: u64)
    requires
        v < 64,
        w < 64,
    ensures
        has_bit(m & !(1u64 << v), w) == (has_bit(m, w) && w != v),
{
    assert(((((m & !(1u64 << v)) >> w) & 1u64) == 1u64) == ((((m >> w) & 1u64) == 1u64) && w
        != v)) by (bit_vector)
        requires
            v < 64,
            w < 64,
    ;
}

/// Adding an absent node makes the mask larger; removing it again gives it back.
pub proof fn lemma_set_absent(m: u64, v: u64)
    requires
        v < 64,
        !has_bit(m, v),
    ensures
        m < (m | (1u64 << v)),
        (m | (1u64 << v)) & !(1u64 << v) == m,
{
    assert(m < (m | (1u64 << v)) && (m | (1u64 << v)) & !(1u64 << v) == m) by (bit_vector)
        requires
            v < 64,
            (m >> v) & 1u64 != 1u64,
    ;
}

/// Removing a present node makes the mask smaller; adding it again gives it back.
pub proof fn lemma_clear_present(m: u64, v: u64)
    requires
        v < 64,
        has_bit(m, v),
    ensures
        (m & !(1u64 << v)) < m,
        (m & !(1u64 << v)) | (1u64 << v) == m,
{
    assert((m & !(1u64 << v)) < m && (m & !(1u64 << v)) | (1u64 << v) == m) by (bit_vector)
        requires
            v < 64,
            (m >> v) & 1u64 == 1u64,
    ;
}

/// The masks below `2^n` are those with no bit at or above `n`.
pub proof fn lemma_below_pow(m: u64, n: u64, v: u64)
    requires
        n < 64,
        v < 64,
    ensures
        m < (1u64 << n) && v >= n ==> !has_bit(m, v),
        m < (1u64 << n) && v < n ==> (m | (1u64 << v)) < (1u64 << n),
        has_bit(full_mask(n), v) == (v < n),
        has_bit(1u64 << v, n) == (n == v),
{
    assert(m < (1u64 << n) && v >= n ==> (m >> v) & 1u64 != 1u64) by (bit_vector)
        requires
            n < 64,
            v < 64,
    ;
    assert(m < (1u64 << n) && v < n ==> (m | (1u64 << v)) < (1u64 << n)) by (bit_vector)
        requires
            n < 64,
            v < 64,
    ;
    assert(((((((1u64 << n) - 1) as u64) >> v) & 1u64) == 1u64) == (v < n)) by (bit_vector)
        requires
            n < 64,
            v < 64,
    ;
    assert((((1u64 << v) >> n) & 1u64 == 1u64) == (n == v)) by (bit_vector)
        requires
            n < 64,
            v < 64,
    ;
}

proof fn lemma_shift_eq(a: u64, b: u64, k: u64)
    requires
        k < 64,
        forall|w: u64| k <= w < 64 ==> has_bit(a, w) == has_bit(b, w),
    ensures
        a >> k == b >> k,
    decreases 64 - k,
{
    assert(has_bit(a, k) == has_bit(b, k));
    if k == 63 {
        assert(((a >> 63u64) & 1u64 == 1u64) == ((b >> 63u64) & 1u64 == 1u64) ==> a >> 63u64
            == b >> 63u64) by (bit_vector);
    } else {
        lemma_shift_eq(a, b, (k + 1) as u64);
        let k1 = (k + 1) as u64;
        assert(a >> k1 == b >> k1 && ((a >> k) & 1u64 == 1u64) == ((b >> k) & 1u64 == 1u64)
            ==> a >> k == b >> k) by (bit_vector)
            requires
                k < 63,
                k1 == k + 1,
        ;
    }
}

/// Two masks with the same bits are equal.
pub proof fn lemma_bits_ext(a: u64, b: u64)
    requires
        forall|w: u64| w < 64 ==> has_bit(a, w) == has_bit(b, w),
    ensures
        a == b,
{
    lemma_shift_eq(a, b, 0);
    assert(a >> 0u64 == a && b >> 0u64 == b) by (bit_vector);
}

/// The bits of `mask_of(q)` are the nodes of `q`.
pub proof fn lemma_mask_of_bits(q: Seq<usize>, w: u64)
    requires
        nodes_below(64, q),
        w < 64,
    ensures
        has_bit(mask_of(q), w) == q.contains(w as usize),
    decreases q.len(),
{
    if q.len() > 0 {
        let p = q.drop_last();
        lemma_mask_of_bits(p, w);
        lemma_bit_set(mask_of(p), q.last() as u64, w);
        assert(q =~= p.push(q.last()));
        if q.contains(w as usize) && w as usize != q.last() {
            let i = choose|i: int| 0 <= i < q.len() && q[i] == w as usize;
            assert(p[i] == w as usize);
        }
    } else {
        assert(0u64 >> w & 1u64 != 1u64) by (bit_vector);
    }
}

/// A mask of nodes below `n` is below `2^n`.
pub proof fn lemma_mask_of_bound(q: Seq<usize>, n: u64)
    requires
        n < 64,
        nodes_below(n as nat, q),
    ensures
        mask_of(q) < (1u64 << n),
    decreases q.len(),
{
    if q.len() == 0 {
        assert(0u64 < (1u64 << n)) by (bit_vector)
            requires
                n < 64,
        ;
    } else {
        let p = q.drop_last();
        lemma_mask_of_bound(p, n);
        lemma_below_pow(mask_of(p), n, q.last() as u64);
    }
}

/// Clearing a set bit below `k` takes one from the count below `k`.
pub proof fn lemma_bits_below_clear(m: u64, v: u64, k: nat)
    requires
        v < k <= 64,
        has_bit(m, v),
    ensures
        bits_below(m & !(1u64 << v), k) + 1 == bits_below(m, k),
    decreases k,
{
    let c = m & !(1u64 << v);
    lemma_bit_clear(m, v, (k - 1) as u64);
    if k - 1 == v {
        assert forall|w: u64| w < v implies has_bit(m, w) == has_bit(c, w) by {
            lemma_bit_clear(m, v, w);
        }
        lemma_bits_below_same(m, c, v as nat);
    } else {
        lemma_bits_below_clear(m, v, (k - 1) as nat);
    }
}

proof fn lemma_bits_below_same(a: u64, b: u64, k: nat)
    requires
        k <= 64,
        forall|w: u64| w < k ==> has_bit(a, w) == has_bit(b, w),
    ensures
        bits_below(a, k) == bits_below(b, k),
    decreases k,
{
    if k > 0 {
        lemma_bits_below_same(a, b, (k - 1) as nat);
    }
}

/// The mask of every node below `n` has `n` bits, and a single node's mask one.
pub proof fn lemma_bits_below_full(n: u64, s: u64, k: nat)
    requires
        s < n < 64,
        k <= n,
    ensures
        bits_below(full_mask(n), k) == k,
        bits_below(1u64 << s, k) == if k > s {
            1nat
        } else {
            0nat
        },
    decreases k,
{
    if k > 0 {
        lemma_bits_below_full(n, s, (k - 1) as nat);
        lemma_below_pow(0, (k - 1) as u64, n);
        lemma_below_pow(0, n, (k - 1) as u64);
        lemma_below_pow(0, (k - 1) as u64, s);
    }
}

} // verus!
