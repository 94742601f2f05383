//! A Bloom filter: a fixed-length bit array plus a draw count `k`, tuned at
//! construction from a table of near-optimal parameter pairs. Membership
//! answers may be falsely positive but never falsely negative: once a bit is
//! set it is never cleared.

use bit_vec::BitVec;
use core::marker::PhantomData;
use crate::bits::bits_of;
use crate::bits::bv_from_elem;
use crate::bits::bv_get;
use crate::bits::bv_len;
use crate::bits::bv_or;
use crate::bits::bv_set;
use crate::hash::hash1_of;
use crate::hash::hash2_of;
use crate::hash::indexes;
use crate::hash::nth_draw;
use crate::hash::nth_index;
use crate::hash::hit_upto;
use crate::hash::lemma_hit_step;
use crate::hash::Hashable;
use vstd::prelude::*;

verus! {

/// The abstract state of a Bloom filter: how many indices each operation
/// draws, and the bit array.
pub ghost struct BloomModel {
    pub k: nat,
    pub bits: Seq<bool>,
}

/// A well-formed filter draws at least one index into a non-empty bit array.
pub open spec fn bloom_wf(m: BloomModel) -> bool {
    &&& 1 <= m.k <= usize::MAX
    &&& 1 <= m.bits.len() <= usize::MAX
}

/// Whether inserting an element with fed bytes `v` into a filter in state `m`
/// sets the bit at `i`: some draw among the first `k` lands on `i`.
pub open spec fn bloom_sets_bit(m: BloomModel, v: Seq<Seq<u8>>, i: int) -> bool {
    hit_upto(v, m.bits.len() as u64, m.k as u64, i)
}


/// How one insert changes the filter: exactly the bits drawn for `v` are
/// newly set, and every other bit keeps its value.
pub open spec fn bloom_insert_rel(pre: BloomModel, post: BloomModel, v: Seq<Seq<u8>>) -> bool {
    &&& post.k == pre.k
    &&& post.bits.len() == pre.bits.len()
    &&& forall|i: int|
        0 <= i < post.bits.len() ==> post.bits[i] == (pre.bits[i] || bloom_sets_bit(pre, v, i))
}

/// What a membership query reports: every one of the `k` drawn bits is set.
pub open spec fn bloom_contains(m: BloomModel, v: Seq<Seq<u8>>) -> bool {
    forall|n: u64| 1 <= n <= m.k ==> m.bits[#[trigger] nth_draw(v, m.bits.len() as u64, n) as int]
}

/// The bitwise union of two equal-length bit arrays.
pub open spec fn bloom_union(a: Seq<bool>, b: Seq<bool>) -> Seq<bool> {
    Seq::new(a.len(), |i: int| a[i] || b[i])
}

/// The bit array after the first `j` draws for `v` have each set their bit.
pub open spec fn mark_upto(bits: Seq<bool>, v: Seq<Seq<u8>>, len: u64, j: u64) -> Seq<bool>
    decreases j,
{
    if j == 0 {
        bits
    } else {
        mark_upto(bits, v, len, (j - 1) as u64).update(nth_draw(v, len, j) as int, true)
    }
}

/// Pointwise reading of `mark_upto`: a bit is set afterwards exactly when it
/// was set before or one of the first `j` draws lands on it.
pub proof fn lemma_mark_upto_pointwise(bits: Seq<bool>, v: Seq<Seq<u8>>, len: u64, j: u64)
    requires
        1 <= len,
        bits.len() == len,
    ensures
        mark_upto(bits, v, len, j).len() == bits.len(),
        forall|i: int|
            0 <= i < bits.len() ==> mark_upto(bits, v, len, j)[i] == (bits[i] || hit_upto(
                v,
                len,
                j,
                i,
            )),
    decreases j,
{
    if j == 0 {
        assert forall|i: int|
            0 <= i < bits.len() implies mark_upto(bits, v, len, j)[i] == (bits[i] || hit_upto(
            v,
            len,
            j,
            i,
        )) by {
            if hit_upto(v, len, 0, i) {
                let n = choose|n: u64| 1 <= n <= 0 && #[trigger] nth_draw(v, len, n) == i;
                assert(false);
            }
        }
    } else {
        let jp = (j - 1) as u64;
        lemma_mark_upto_pointwise(bits, v, len, jp);
        assert forall|i: int|
            0 <= i < bits.len() implies mark_upto(bits, v, len, j)[i] == (bits[i] || hit_upto(
            v,
            len,
            j,
            i,
        )) by {
            lemma_hit_step(v, len, j, i);
            assert((j - 1) as u64 == jp);
            let d = nth_draw(v, len, j) as int;
            assert(mark_upto(bits, v, len, jp)[i] == (bits[i] || hit_upto(v, len, jp, i)));
            if i == d {
                assert(mark_upto(bits, v, len, j)[i]);
            } else {
                assert(mark_upto(bits, v, len, j)[i] == mark_upto(bits, v, len, jp)[i]);
            }
        }
    }
}

pub open spec fn spec_opt_k(b: int) -> int {
    if b == 2 {
        1
    } else if b == 3 {
        2
    } else if b == 4 {
        3
    } else if b == 5 {
        3
    } else if b == 6 {
        4
    } else if b == 7 {
        5
    } else if b == 8 {
        5
    } else if b == 9 {
        6
    } else if b == 10 {
        7
    } else if b == 11 {
        8
    } else if b == 12 {
        8
    } else if b == 13 {
        9
    } else if b == 14 {
        10
    } else {
        10
    }
}

pub open spec fn table_prob(b: int, k: int) -> u64 {
    if b == 2 {
        if k == 0 { 10000000 } else { 3930000 }
    } else if b == 3 {
        if k == 0 { 10000000 } else if k == 1 { 2830000 } else { 2370000 }
    } else if b == 4 {
        if k == 0 { 10000000 } else if k == 1 { 2210000 } else if k == 2 { 1550000 } else { 1470000 }
    } else if b == 5 {
        if k == 0 { 10000000 } else if k == 1 { 1810000 } else if k == 2 { 1090000 } else { 920000 }
    } else if b == 6 {
        if k == 0 { 10000000 } else if k == 1 { 1540000 } else if k == 2 { 804000 } else if k == 3 { 609000 } else { 561000 }
    } else if b == 7 {
        if k == 0 { 10000000 } else if k == 1 { 1330000 } else if k == 2 { 618000 } else if k == 3 { 423000 } else if k == 4 { 359000 } else { 347000 }
    } else if b == 8 {
        if k == 0 { 10000000 } else if k == 1 { 1180000 } else if k == 2 { 489000 } else if k == 3 { 306000 } else if k == 4 { 240000 } else { 217000 }
    } else if b == 9 {
        if k == 0 { 10000000 } else if k == 1 { 1050000 } else if k == 2 { 397000 } else if k == 3 { 228000 } else if k == 4 { 166000 } else if k == 5 { 141000 } else { 133000 }
    } else if b == 10 {
        if k == 0 { 10000000 } else if k == 1 { 952000 } else if k == 2 { 329000 } else if k == 3 { 174000 } else if k == 4 { 118000 } else if k == 5 { 94300 } else if k == 6 { 84400 } else { 81900 }
    } else if b == 11 {
        if k == 0 { 10000000 } else if k == 1 { 869000 } else if k == 2 { 276000 } else if k == 3 { 136000 } else if k == 4 { 86400 } else if k == 5 { 65000 } else if k == 6 { 55200 } else if k == 7 { 51300 } else { 50900 }
    } else if b == 12 {
        if k == 0 { 10000000 } else if k == 1 { 800000 } else if k == 2 { 236000 } else if k == 3 { 108000 } else if k == 4 { 64600 } else if k == 5 { 45900 } else if k == 6 { 37100 } else if k == 7 { 32900 } else { 31400 }
    } else if b == 13 {
        if k == 0 { 10000000 } else if k == 1 { 740000 } else if k == 2 { 203000 } else if k == 3 { 87500 } else if k == 4 { 49200 } else if k == 5 { 33200 } else if k == 6 { 25500 } else if k == 7 { 21700 } else if k == 8 { 19900 } else { 19400 }
    } else if b == 14 {
        if k == 0 { 10000000 } else if k == 1 { 689000 } else if k == 2 { 177000 } else if k == 3 { 71800 } else if k == 4 { 38100 } else if k == 5 { 24400 } else if k == 6 { 17900 } else if k == 7 { 14600 } else if k == 8 { 12900 } else if k == 9 { 12100 } else { 12000 }
    } else {
        if k == 0 { 10000000 } else if k == 1 { 645000 } else if k == 2 { 156000 } else if k == 3 { 59600 } else if k == 4 { 30000 } else if k == 5 { 18300 } else if k == 6 { 12800 } else if k == 7 { 10000 } else if k == 8 { 8520 } else if k == 9 { 7750 } else { 7440 }
    }
}

fn opt_k_at(b: usize) -> (r: usize)
    requires
        2 <= b <= 15,
    ensures
        r == spec_opt_k(b as int),
{
    if b == 2 {
        1usize
    } else if b == 3 {
        2usize
    } else if b == 4 {
        3usize
    } else if b == 5 {
        3usize
    } else if b == 6 {
        4usize
    } else if b == 7 {
        5usize
    } else if b == 8 {
        5usize
    } else if b == 9 {
        6usize
    } else if b == 10 {
        7usize
    } else if b == 11 {
        8usize
    } else if b == 12 {
        8usize
    } else if b == 13 {
        9usize
    } else if b == 14 {
        10usize
    } else {
        10usize
    }
}

fn table_prob_at(b: usize, k: usize) -> (r: u64)
    requires
        2 <= b <= 15,
    ensures
        r == table_prob(b as int, k as int),
{
    if b == 2 {
        if k == 0 { 10000000u64 } else { 3930000u64 }
    } else if b == 3 {
        if k == 0 { 10000000u64 } else if k == 1 { 2830000u64 } else { 2370000u64 }
    } else if b == 4 {
        if k == 0 { 10000000u64 } else if k == 1 { 2210000u64 } else if k == 2 { 1550000u64 } else { 1470000u64 }
    } else if b == 5 {
        if k == 0 { 10000000u64 } else if k == 1 { 1810000u64 } else if k == 2 { 1090000u64 } else { 920000u64 }
    } else if b == 6 {
        if k == 0 { 10000000u64 } else if k == 1 { 1540000u64 } else if k == 2 { 804000u64 } else if k == 3 { 609000u64 } else { 561000u64 }
    } else if b == 7 {
        if k == 0 { 10000000u64 } else if k == 1 { 1330000u64 } else if k == 2 { 618000u64 } else if k == 3 { 423000u64 } else if k == 4 { 359000u64 } else { 347000u64 }
    } else if b == 8 {
        if k == 0 { 10000000u64 } else if k == 1 { 1180000u64 } else if k == 2 { 489000u64 } else if k == 3 { 306000u64 } else if k == 4 { 240000u64 } else { 217000u64 }
    } else if b == 9 {
        if k == 0 { 10000000u64 } else if k == 1 { 1050000u64 } else if k == 2 { 397000u64 } else if k == 3 { 228000u64 } else if k == 4 { 166000u64 } else if k == 5 { 141000u64 } else { 133000u64 }
    } else if b == 10 {
        if k == 0 { 10000000u64 } else if k == 1 { 952000u64 } else if k == 2 { 329000u64 } else if k == 3 { 174000u64 } else if k == 4 { 118000u64 } else if k == 5 { 94300u64 } else if k == 6 { 84400u64 } else { 81900u64 }
    } else if b == 11 {
        if k == 0 { 10000000u64 } else if k == 1 { 869000u64 } else if k == 2 { 276000u64 } else if k == 3 { 136000u64 } else if k == 4 { 86400u64 } else if k == 5 { 65000u64 } else if k == 6 { 55200u64 } else if k == 7 { 51300u64 } else { 50900u64 }
    } else if b == 12 {
        if k == 0 { 10000000u64 } else if k == 1 { 800000u64 } else if k == 2 { 236000u64 } else if k == 3 { 108000u64 } else if k == 4 { 64600u64 } else if k == 5 { 45900u64 } else if k == 6 { 37100u64 } else if k == 7 { 32900u64 } else { 31400u64 }
    } else if b == 13 {
        if k == 0 { 10000000u64 } else if k == 1 { 740000u64 } else if k == 2 { 203000u64 } else if k == 3 { 87500u64 } else if k == 4 { 49200u64 } else if k == 5 { 33200u64 } else if k == 6 { 25500u64 } else if k == 7 { 21700u64 } else if k == 8 { 19900u64 } else { 19400u64 }
    } else if b == 14 {
        if k == 0 { 10000000u64 } else if k == 1 { 689000u64 } else if k == 2 { 177000u64 } else if k == 3 { 71800u64 } else if k == 4 { 38100u64 } else if k == 5 { 24400u64 } else if k == 6 { 17900u64 } else if k == 7 { 14600u64 } else if k == 8 { 12900u64 } else if k == 9 { 12100u64 } else { 12000u64 }
    } else {
        if k == 0 { 10000000u64 } else if k == 1 { 645000u64 } else if k == 2 { 156000u64 } else if k == 3 { 59600u64 } else if k == 4 { 30000u64 } else if k == 5 { 18300u64 } else if k == 6 { 12800u64 } else if k == 7 { 10000u64 } else if k == 8 { 8520u64 } else if k == 9 { 7750u64 } else { 7440u64 }
    }
}

/// The bits-per-element the table search settles on, scanning upward from
/// the smallest row until the row's best probability meets the ceiling `p`.
pub open spec fn spec_buckets_from(p: u64, b: int) -> int
    decreases 15 - b,
{
    if b < 2 || b >= 15 {
        15
    } else if table_prob(b, spec_opt_k(b)) <= p {
        b
    } else {
        spec_buckets_from(p, b + 1)
    }
}

/// The draw count after relaxing downward from `k` while the probability one
/// step down still meets the ceiling `p`.
pub open spec fn spec_relax_k(p: u64, b: int, k: int) -> int
    decreases k,
{
    if k <= 1 {
        1
    } else if table_prob(b, k - 1) > p {
        k
    } else {
        spec_relax_k(p, b, k - 1)
    }
}

/// The bits-per-element chosen for a false-positive ceiling of `p`
/// ten-millionths, saturating at the table's boundary rows.
pub open spec fn spec_buckets(p: u64) -> int {
    if p >= 3930000 {
        2
    } else if p < 8520 {
        15
    } else {
        spec_buckets_from(p, 2)
    }
}

/// The draw count chosen for a false-positive ceiling of `p` ten-millionths,
/// clamped to the table's range of one to eight draws.
pub open spec fn spec_k(p: u64) -> int {
    if p >= 3930000 {
        1
    } else if p < 8520 {
        8
    } else {
        let b = spec_buckets_from(p, 2);
        let k = spec_relax_k(p, b, spec_opt_k(b));
        if k > 8 {
            8
        } else {
            k
        }
    }
}

fn best_buckets_and_k(p: u64) -> (r: (usize, usize))
    ensures
        r.0 == spec_buckets(p),
        r.1 == spec_k(p),
        2 <= r.0 <= 15,
        1 <= r.1 <= 8,
{
    if p >= 3930000 {
        return (2, 1);
    }
    if p < 8520 {
        return (15, 8);
    }
    let mut b: usize = 2;
    let mut k: usize = opt_k_at(2);
    while b < 15 && table_prob_at(b, k) > p
        invariant
            2 <= b <= 15,
            k == spec_opt_k(b as int),
            spec_buckets_from(p, 2) == spec_buckets_from(p, b as int),
        decreases 15 - b,
    {
        b = b + 1;
        k = opt_k_at(b);
    }
    proof {
        assert(spec_buckets_from(p, b as int) == b);
        assert(1 <= spec_opt_k(b as int) <= 10);
    }
    while k > 1 && table_prob_at(b, k - 1) <= p
        invariant
            2 <= b <= 15,
            b == spec_buckets(p),
            1 <= k <= spec_opt_k(b as int),
            spec_relax_k(p, b as int, spec_opt_k(b as int)) == spec_relax_k(p, b as int, k as int),
        decreases k,
    {
        k = k - 1;
    }
    proof {
        assert(spec_relax_k(p, b as int, k as int) == k);
    }
    if k > 8 {
        (b, 8)
    } else {
        (b, k)
    }
}


/// No false negatives, immediate form: right after an element is inserted, a
/// query for that element reports it present.
pub proof fn lemma_no_false_negative_after_insert(
    pre: BloomModel,
    post: BloomModel,
    v: Seq<Seq<u8>>,
)
    requires
        bloom_wf(pre),
        bloom_insert_rel(pre, post, v),
    ensures
        bloom_contains(post, v),
{
    assert forall|n: u64| 1 <= n <= post.k implies post.bits[#[trigger] nth_draw(
        v,
        post.bits.len() as u64,
        n,
    ) as int] by {
        let i = nth_draw(v, post.bits.len() as u64, n) as int;
        assert(0 <= i < post.bits.len());
        assert(1 <= n <= pre.k as u64 && nth_draw(v, pre.bits.len() as u64, n) == i);
        assert(bloom_sets_bit(pre, v, i));
    }
}

/// No false negatives, preserved form: a membership answer stays positive
/// under any operation that only sets bits (an insert of any element, or a
/// merge), so an inserted element is reported present ever after.
pub proof fn lemma_contains_monotone(m1: BloomModel, m2: BloomModel, v: Seq<Seq<u8>>)
    requires
        m1.k == m2.k,
        m1.bits.len() == m2.bits.len(),
        forall|i: int| 0 <= i < m1.bits.len() ==> m1.bits[i] ==> m2.bits[i],
        bloom_wf(m1),
        bloom_contains(m1, v),
    ensures
        bloom_contains(m2, v),
{
    assert forall|n: u64| 1 <= n <= m2.k implies m2.bits[#[trigger] nth_draw(
        v,
        m2.bits.len() as u64,
        n,
    ) as int] by {
        let i = nth_draw(v, m1.bits.len() as u64, n) as int;
        assert(m1.bits[i]);
    }
}

/// Merging a filter with one in an identical state changes nothing: the
/// union of a bit array with itself is itself, so `merge` reports no change.
pub proof fn lemma_merge_self_is_no_change(m: BloomModel)
    ensures
        bloom_union(m.bits, m.bits) == m.bits,
{
    assert(bloom_union(m.bits, m.bits) =~= m.bits);
}


/// A Bloom filter over elements of type `E`. The element type only selects
/// which hash feeding is used; no element is ever stored.
pub struct BloomFilter<E> {
    k: usize,
    bits: BitVec<u32>,
    marker: PhantomData<E>,
}

impl<E> View for BloomFilter<E> {
    type V = BloomModel;

    closed spec fn view(&self) -> BloomModel {
        BloomModel { k: self.k as nat, bits: bits_of(self.bits) }
    }
}

impl<E: Hashable> BloomFilter<E> {
    /// Whether this filter is well formed.
    pub open spec fn wf(&self) -> bool {
        bloom_wf(self@)
    }

    /// Build a filter tuned for `n` expected elements with the requested
    /// ceiling on the false-positive probability, given in ten-millionths
    /// (so `100_000` asks for a probability of at most 0.01). The table
    /// search picks the least bits-per-element whose best achievable
    /// probability meets the ceiling, then relaxes the draw count downward
    /// while the ceiling still holds; requests outside the table saturate at
    /// its boundary.
    pub fn new(n: usize, max_false_pos_tenmillionths: u64) -> (r: Self)
        requires
            15 * n + 20 <= usize::MAX,
        ensures
            r.wf(),
            r@.k == spec_k(max_false_pos_tenmillionths),
            r@.bits =~= Seq::new(
                (n * spec_buckets(max_false_pos_tenmillionths) + 20) as nat,
                |i: int| false,
            ),
    {
        let (buckets, k) = best_buckets_and_k(max_false_pos_tenmillionths);
        proof {
            assert(n * buckets <= n * 15) by (nonlinear_arith)
                requires
                    buckets <= 15,
                    0 <= n,
            ;
        }
        let len = n * buckets + 20;
        BloomFilter { k, bits: bv_from_elem(len, false), marker: PhantomData }
    }

    /// Add a value to the set: draw `k` indices for it and set each bit.
    #[verifier::loop_isolation(false)]
    pub fn insert(&mut self, e: E)
        requires
            old(self).wf(),
        ensures
            final(self).wf(),
            bloom_insert_rel(old(self)@, final(self)@, e.feed_view()),
            bloom_contains(final(self)@, e.feed_view()),
    {
        let ghost v = e.feed_view();
        let ghost pre = self@;
        let len = bv_len(&self.bits);
        let mut gen = indexes(&e, len);
        let mut j: usize = 0;
        while j < self.k
            invariant
                bloom_wf(pre),
                j <= self.k,
                self.k == pre.k,
                len == pre.bits.len(),
                gen.first_hash() == hash1_of(v),
                gen.second_hash() == hash2_of(v),
                gen.bound() == len as u64,
                gen.draws() == j,
                bits_of(self.bits) == mark_upto(pre.bits, v, len as u64, j as u64),
            decreases self.k - j,
        {
            let ghost jpre: u64 = j as u64;
            let idx = gen.next();
            proof {
                lemma_mark_upto_pointwise(pre.bits, v, len as u64, jpre);
            }
            bv_set(&mut self.bits, idx, true);
            j = j + 1;
            proof {
                let jnew: u64 = (jpre + 1) as u64;
                assert(j as u64 == jnew);
                assert(gen.draws() == jnew);
                assert(idx as u64 == nth_index(
                    gen.first_hash(),
                    gen.second_hash(),
                    gen.bound(),
                    gen.draws(),
                ));
                assert(nth_draw(v, len as u64, jnew) == idx as u64);
                lemma_mark_upto_pointwise(pre.bits, v, len as u64, jpre);
                assert((jnew - 1) as u64 == jpre);
                assert(mark_upto(pre.bits, v, len as u64, jnew) == mark_upto(
                    pre.bits,
                    v,
                    len as u64,
                    jpre,
                ).update(idx as int, true));
            }
        }
        proof {
            lemma_mark_upto_pointwise(pre.bits, v, len as u64, j as u64);
            assert(pre.bits.len() as u64 == len as u64);
            assert(j as u64 == pre.k as u64);
            assert forall|i: int|
                0 <= i < pre.bits.len() implies bits_of(self.bits)[i] == (pre.bits[i]
                || bloom_sets_bit(pre, v, i)) by {
                assert(bits_of(self.bits)[i] == (pre.bits[i] || hit_upto(
                    v,
                    len as u64,
                    j as u64,
                    i,
                )));
                assert(hit_upto(v, len as u64, j as u64, i) == hit_upto(
                    v,
                    pre.bits.len() as u64,
                    pre.k as u64,
                    i,
                ));
            }
            lemma_no_false_negative_after_insert(pre, self@, v);
        }
    }

    /// Report whether the set possibly holds the element: true exactly when
    /// all `k` of its drawn bits are set. A true answer can be a false
    /// positive; a false answer is always right.
    #[verifier::loop_isolation(false)]
    pub fn contains(&mut self, e: &E) -> (r: bool)
        requires
            old(self).wf(),
        ensures
            final(self)@ == old(self)@,
            r == bloom_contains(old(self)@, e.feed_view()),
    {
        let ghost v = e.feed_view();
        let len = bv_len(&self.bits);
        let mut gen = indexes(e, len);
        let mut j: usize = 0;
        while j < self.k
            invariant
                self.wf(),
                self@ == old(self)@,
                j <= self.k,
                len == self@.bits.len(),
                gen.first_hash() == hash1_of(v),
                gen.second_hash() == hash2_of(v),
                gen.bound() == len as u64,
                gen.draws() == j,
                forall|n: u64| 1 <= n <= j ==> self@.bits[#[trigger] nth_draw(v, len as u64, n) as int],
            decreases self.k - j,
        {
            let ghost jpre: u64 = j as u64;
            let idx = gen.next();
            if !bv_get(&self.bits, idx) {
                proof {
                    let n: u64 = (jpre + 1) as u64;
                    assert(gen.draws() == n);
                    assert(idx as u64 == nth_index(
                        gen.first_hash(),
                        gen.second_hash(),
                        gen.bound(),
                        gen.draws(),
                    ));
                    assert(old(self)@.bits.len() as u64 == len as u64);
                    assert(nth_draw(v, old(self)@.bits.len() as u64, n) == idx as u64);
                    assert(1 <= n <= old(self)@.k);
                    assert(!old(self)@.bits[nth_draw(
                        e.feed_view(),
                        old(self)@.bits.len() as u64,
                        n,
                    ) as int]);
                    assert(!bloom_contains(old(self)@, e.feed_view()));
                }
                return false;
            }
            j = j + 1;
        }
        true
    }

    /// Merge the other filter into this one in place, as the bitwise union.
    /// Returns whether any bit changed from unset to set. Both filters must
    /// have identical parameters; a mismatch is a caller contract violation.
    pub fn merge(&mut self, other: &BloomFilter<E>) -> (changed: bool)
        requires
            old(self).wf(),
            other.wf(),
            old(self)@.k == other@.k,
            old(self)@.bits.len() == other@.bits.len(),
        ensures
            final(self).wf(),
            final(self)@.k == old(self)@.k,
            final(self)@.bits == bloom_union(old(self)@.bits, other@.bits),
            changed == (final(self)@.bits != old(self)@.bits),
    {
        bv_or(&mut self.bits, &other.bits)
    }
}

} // verus!
