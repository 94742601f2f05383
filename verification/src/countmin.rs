//! A Count-Min sketch: a `depth` by `width` matrix of counters, fixed at
//! construction. Each insert bumps one counter per row at a column drawn by
//! the double-hash generator; a frequency estimate reads the same cells and
//! takes their minimum, so hash collisions can only inflate it, never deflate
//! it. The model tracks, as ghost state, the total weight inserted and the
//! recorded weight of every fed byte view, so one-sided error is a proved
//! invariant rather than a convention.

use core::marker::PhantomData;
use crate::hash::hash1_of;
use crate::hash::hash2_of;
use crate::hash::indexes;
use crate::hash::nth_draw;
use crate::hash::Hashable;
use vstd::prelude::*;
use vstd::relations::sorted_by;
use vstd::relations::total_ordering;
use vstd::seq_lib::lemma_sorted_unique;

verus! {

broadcast use {vstd::seq_lib::group_to_multiset_ensures, vstd::multiset::group_multiset_axioms};

/// The abstract state of a sketch: its shape, its counters, the total weight
/// of all inserts so far, and the weight recorded per fed byte view.
pub ghost struct SketchModel {
    pub depth: nat,
    pub width: nat,
    pub counters: Seq<Seq<u64>>,
    pub total: nat,
    pub counts: Map<Seq<Seq<u8>>, nat>,
}

/// The weight recorded for the byte view `v`, zero if never inserted.
pub open spec fn count_of(m: SketchModel, v: Seq<Seq<u8>>) -> nat {
    if m.counts.dom().contains(v) {
        m.counts[v]
    } else {
        0
    }
}

/// The column that row `r` uses for the byte view `v`: the `r + 1`-st draw
/// of the generator bounded by the sketch width.
pub open spec fn slot(m: SketchModel, v: Seq<Seq<u8>>, r: int) -> int {
    nth_draw(v, m.width as u64, (r + 1) as u64) as int
}

/// Row `r`'s counter at `v`'s column is at least the weight recorded for `v`.
pub open spec fn row_dominates(m: SketchModel, v: Seq<Seq<u8>>, r: int) -> bool {
    count_of(m, v) <= m.counters[r][slot(m, v, r)]
}

/// A well-formed sketch: a full `depth` by `width` matrix, every counter at
/// most the total inserted weight, and every row's counter dominating the
/// weight recorded for every view (the source of one-sided error).
pub open spec fn cm_wf(m: SketchModel) -> bool {
    &&& 1 <= m.depth <= usize::MAX
    &&& 1 <= m.width <= usize::MAX
    &&& m.counters.len() == m.depth
    &&& forall|r: int| 0 <= r < m.depth ==> (#[trigger] m.counters[r]).len() == m.width
    &&& m.total <= u64::MAX
    &&& forall|r: int, c: int|
        0 <= r < m.depth && 0 <= c < m.width ==> #[trigger] m.counters[r][c] <= m.total
    &&& forall|v: Seq<Seq<u8>>, r: int| 0 <= r < m.depth ==> #[trigger] row_dominates(m, v, r)
}

/// The counter row `r` holds for `v`.
pub open spec fn row_val(m: SketchModel, v: Seq<Seq<u8>>, r: int) -> u64 {
    m.counters[r][slot(m, v, r)]
}

/// The smaller of two counters.
pub open spec fn min2(a: u64, b: u64) -> u64 {
    if a <= b {
        a
    } else {
        b
    }
}

/// The minimum of `v`'s counters over the first `k` rows.
pub open spec fn est_upto(m: SketchModel, v: Seq<Seq<u8>>, k: int) -> u64
    recommends
        1 <= k,
    decreases k,
{
    if k <= 1 {
        row_val(m, v, 0)
    } else {
        min2(est_upto(m, v, k - 1), row_val(m, v, k - 1))
    }
}

/// The Count-Min estimate for `v`: the minimum counter over all rows.
pub open spec fn est(m: SketchModel, v: Seq<Seq<u8>>) -> u64 {
    est_upto(m, v, m.depth as int)
}

/// How inserting weight `n` for the byte view `v` changes a sketch: the shape
/// is kept, each row's counter at `v`'s column grows by `n` and every other
/// counter keeps its value, the total grows by `n`, and `v`'s recorded weight
/// grows by `n`.
pub open spec fn cm_insert_rel(pre: SketchModel, post: SketchModel, v: Seq<Seq<u8>>, n: u64) -> bool {
    &&& post.depth == pre.depth
    &&& post.width == pre.width
    &&& post.total == pre.total + n
    &&& post.counts == pre.counts.insert(v, (count_of(pre, v) + n) as nat)
    &&& post.counters.len() == pre.counters.len()
    &&& forall|r: int|
        0 <= r < pre.depth ==> #[trigger] post.counters[r] == pre.counters[r].update(
            slot(pre, v, r),
            (pre.counters[r][slot(pre, v, r)] + n) as u64,
        )
}

/// The per-view weights of two sketches, summed pointwise.
pub open spec fn merged_counts(
    a: Map<Seq<Seq<u8>>, nat>,
    b: Map<Seq<Seq<u8>>, nat>,
) -> Map<Seq<Seq<u8>>, nat> {
    Map::new(
        |v: Seq<Seq<u8>>| a.dom().contains(v) || b.dom().contains(v),
        |v: Seq<Seq<u8>>|
            (if a.dom().contains(v) {
                a[v]
            } else {
                0
            }) + (if b.dom().contains(v) {
                b[v]
            } else {
                0
            }),
    )
}

/// One-sided error: in a well-formed sketch the estimate for a view is never
/// below the weight actually recorded for it, whatever was inserted besides.
pub proof fn lemma_estimate_never_undercounts(m: SketchModel, v: Seq<Seq<u8>>)
    requires
        cm_wf(m),
    ensures
        count_of(m, v) <= est(m, v),
{
    lemma_est_upto_ge(m, v, m.depth as int);
}

proof fn lemma_est_upto_ge(m: SketchModel, v: Seq<Seq<u8>>, k: int)
    requires
        cm_wf(m),
        1 <= k <= m.depth,
    ensures
        count_of(m, v) <= est_upto(m, v, k),
    decreases k,
{
    assert(row_dominates(m, v, k - 1));
    if k > 1 {
        lemma_est_upto_ge(m, v, k - 1);
    }
}

/// Monotonicity: growing counters pointwise can only raise an estimate, so
/// `estimate(e)` is non-decreasing over any sequence of inserts or merges.
pub proof fn lemma_estimate_monotone(m1: SketchModel, m2: SketchModel, v: Seq<Seq<u8>>)
    requires
        m1.depth == m2.depth,
        m1.width == m2.width,
        1 <= m1.depth,
        forall|r: int, c: int|
            0 <= r < m1.counters.len() && 0 <= c < m1.counters[r].len()
                ==> #[trigger] m1.counters[r][c] <= #[trigger] m2.counters[r][c],
        cm_wf(m1),
        cm_wf(m2),
    ensures
        est(m1, v) <= est(m2, v),
{
    lemma_est_upto_monotone(m1, m2, v, m1.depth as int);
}

proof fn lemma_est_upto_monotone(m1: SketchModel, m2: SketchModel, v: Seq<Seq<u8>>, k: int)
    requires
        m1.depth == m2.depth,
        m1.width == m2.width,
        cm_wf(m1),
        cm_wf(m2),
        forall|r: int, c: int|
            0 <= r < m1.counters.len() && 0 <= c < m1.counters[r].len()
                ==> #[trigger] m1.counters[r][c] <= #[trigger] m2.counters[r][c],
        1 <= k <= m1.depth,
    ensures
        est_upto(m1, v, k) <= est_upto(m2, v, k),
    decreases k,
{
    assert(0 <= slot(m1, v, k - 1) < m1.width);
    assert(m1.counters[k - 1][slot(m1, v, k - 1)] <= m2.counters[k - 1][slot(m2, v, k - 1)]);
    if k > 1 {
        lemma_est_upto_monotone(m1, m2, v, k - 1);
    }
}


/// The order the median computation sorts counters by.
pub open spec fn counter_le() -> spec_fn(u64, u64) -> bool {
    |a: u64, b: u64| a <= b
}

/// Row `r`'s counter for `v` with its estimated collision noise subtracted,
/// saturating at zero: the noise term is the weight that landed in the row
/// for other views, spread over the remaining `width - 1` columns.
pub open spec fn corrected(m: SketchModel, v: Seq<Seq<u8>>, n: u64, r: int) -> u64
    recommends
        2 <= m.width,
        row_val(m, v, r) <= n,
{
    let cv = row_val(m, v, r) as int;
    let noise = (n - cv) / (m.width - 1) as int;
    if noise <= cv {
        (cv - noise) as u64
    } else {
        0u64
    }
}

/// The noise-corrected counters for `v`, one per row.
pub open spec fn corrected_rows(m: SketchModel, v: Seq<Seq<u8>>, n: u64) -> Seq<u64> {
    Seq::new(m.depth, |r: int| corrected(m, v, n, r))
}

/// The median of a sequence of counters: sort, then take the middle value,
/// or the rounded-down mean of the two middle values when the length is even.
pub open spec fn median_of(s: Seq<u64>) -> u64
    recommends
        1 <= s.len(),
{
    let sorted = s.sort_by(counter_le());
    if s.len() % 2 == 0 {
        ((sorted[s.len() / 2 - 1] + sorted[(s.len() / 2) as int]) / 2) as u64
    } else {
        sorted[(s.len() / 2) as int]
    }
}

proof fn lemma_counter_le_total()
    ensures
        total_ordering(counter_le()),
{
}

/// Sort counters ascending: selection sort, moving the least remaining value
/// across each round.
fn sort_counters(v: Vec<u64>) -> (r: Vec<u64>)
    ensures
        r@.len() == v@.len(),
        sorted_by(r@, counter_le()),
        r@.to_multiset() == v@.to_multiset(),
{
    let mut src = v;
    let mut out: Vec<u64> = Vec::new();
    proof {
        assert(out@.to_multiset().add(src@.to_multiset()) =~= v@.to_multiset());
    }
    while src.len() > 0
        invariant
            out@.len() + src@.len() == v@.len(),
            out@.to_multiset().add(src@.to_multiset()) == v@.to_multiset(),
            sorted_by(out@, counter_le()),
            forall|x: int, y: int|
                0 <= x < out@.len() && 0 <= y < src@.len() ==> out@[x] <= src@[y],
        decreases src@.len(),
    {
        let mut mi: usize = 0;
        let mut q: usize = 1;
        while q < src.len()
            invariant
                mi < src@.len(),
                q <= src@.len(),
                forall|t: int| 0 <= t < q ==> src@[mi as int] <= src@[t],
            decreases src@.len() - q,
        {
            if src[q] < src[mi] {
                mi = q;
            }
            q = q + 1;
        }
        let ghost srcpre = src@;
        let ghost outpre = out@;
        let x = src.remove(mi);
        out.push(x);
        proof {
            assert(x == srcpre[mi as int]);
            assert(src@ == srcpre.remove(mi as int));
            srcpre.remove_ensures(mi as int);
            assert(srcpre.to_multiset().count(x) > 0) by {
                assert(srcpre.contains(x));
            }
            assert(src@.to_multiset() =~= srcpre.to_multiset().remove(x));
            assert(out@.to_multiset() =~= outpre.to_multiset().insert(x));
            assert(out@.to_multiset().add(src@.to_multiset()) =~= outpre.to_multiset().add(
                srcpre.to_multiset(),
            ));
            assert forall|a: int, b: int| 0 <= a < b < out@.len() implies counter_le()(
                out@[a],
                out@[b],
            ) by {
                if b < out@.len() - 1 {
                    assert(counter_le()(outpre[a], outpre[b]));
                }
            }
            assert(sorted_by(out@, counter_le()));
            assert forall|a: int, y: int|
                0 <= a < out@.len() && 0 <= y < src@.len() implies out@[a] <= src@[y] by {
                if y < mi {
                    assert(src@[y] == srcpre[y]);
                } else {
                    assert(src@[y] == srcpre[y + 1]);
                }
                if a < out@.len() - 1 {
                    assert(outpre[a] <= srcpre[mi as int]);
                }
            }
        }
    }
    proof {
        assert(src@.to_multiset() =~= Seq::<u64>::empty().to_multiset());
        assert(out@.to_multiset().add(src@.to_multiset()) =~= out@.to_multiset());
    }
    out
}

/// A Count-Min sketch over elements of type `E`. The element type only
/// selects which hash feeding is used; no element is ever stored.
pub struct CountMinSketch<E> {
    depth: usize,
    width: usize,
    counters: Vec<Vec<u64>>,
    total: Ghost<nat>,
    hist: Ghost<Map<Seq<Seq<u8>>, nat>>,
    marker: PhantomData<E>,
}

impl<E> View for CountMinSketch<E> {
    type V = SketchModel;

    closed spec fn view(&self) -> SketchModel {
        SketchModel {
            depth: self.depth as nat,
            width: self.width as nat,
            counters: Seq::new(self.counters@.len(), |r: int| self.counters@[r]@),
            total: self.total@,
            counts: self.hist@,
        }
    }
}

impl<E: Hashable> CountMinSketch<E> {
    /// Whether this sketch is well formed.
    pub open spec fn wf(&self) -> bool {
        cm_wf(self@)
    }

    /// Build a sketch of the given shape with every counter zero and nothing
    /// recorded. Zero depth or width is a caller contract violation.
    pub fn new(depth: usize, width: usize) -> (r: Self)
        requires
            1 <= depth,
            1 <= width,
        ensures
            r.wf(),
            r@.depth == depth,
            r@.width == width,
            r@.total == 0,
            r@.counts == Map::<Seq<Seq<u8>>, nat>::empty(),
            forall|row: int, c: int|
                0 <= row < depth && 0 <= c < width ==> #[trigger] r@.counters[row][c] == 0,
    {
        let mut counters: Vec<Vec<u64>> = Vec::new();
        let mut i: usize = 0;
        while i < depth
            invariant
                i <= depth,
                counters@.len() == i,
                forall|r: int| 0 <= r < i ==> (#[trigger] counters@[r])@ =~= Seq::new(
                    width as nat,
                    |c: int| 0u64,
                ),
            decreases depth - i,
        {
            let mut row: Vec<u64> = Vec::new();
            let mut j: usize = 0;
            while j < width
                invariant
                    j <= width,
                    row@ =~= Seq::new(j as nat, |c: int| 0u64),
                decreases width - j,
            {
                row.push(0);
                j = j + 1;
            }
            counters.push(row);
            i = i + 1;
        }
        let r = CountMinSketch {
            depth,
            width,
            counters,
            total: Ghost(0nat),
            hist: Ghost(Map::empty()),
            marker: PhantomData,
        };
        proof {
            assert forall|v: Seq<Seq<u8>>, row: int| 0 <= row < r@.depth implies #[trigger] row_dominates(
                r@,
                v,
                row,
            ) by {
                assert(count_of(r@, v) == 0);
            }
        }
        r
    }

    /// Add `n` occurrences of the element: bump one counter per row at the
    /// element's column. The total weight must stay within a 64-bit counter;
    /// beyond that is a caller contract violation.
    #[verifier::loop_isolation(false)]
    pub fn insert_n(&mut self, e: E, n: u64)
        requires
            old(self).wf(),
            old(self)@.total + n <= u64::MAX,
        ensures
            final(self).wf(),
            cm_insert_rel(old(self)@, final(self)@, e.feed_view(), n),
            forall|w: Seq<Seq<u8>>| #[trigger] est(old(self)@, w) <= est(final(self)@, w),
    {
        let ghost v = e.feed_view();
        let ghost pre = self@;
        let mut gen = indexes(&e, self.width);
        let mut i: usize = 0;
        while i < self.depth
            invariant
                i <= self.depth,
                self.depth == pre.depth,
                self.width == pre.width,
                self.total@ == pre.total,
                self.hist@ == pre.counts,
                self.counters@.len() == pre.depth,
                gen.first_hash() == hash1_of(v),
                gen.second_hash() == hash2_of(v),
                gen.bound() == self.width as u64,
                gen.draws() == i,
                forall|r: int| i <= r < pre.depth ==> #[trigger] self.counters@[r]@ == pre.counters[r],
                forall|r: int|
                    0 <= r < i ==> #[trigger] self.counters@[r]@ == pre.counters[r].update(
                        slot(pre, v, r),
                        (pre.counters[r][slot(pre, v, r)] + n) as u64,
                    ),
            decreases self.depth - i,
        {
            let idx = gen.next();
            proof {
                assert(self.counters@[i as int]@ == pre.counters[i as int]);
                assert(idx as u64 == nth_draw(v, pre.width as u64, (i + 1) as u64));
                assert(idx as int == slot(pre, v, i as int));
                assert(0 <= i < pre.depth && 0 <= idx < pre.width);
                assert(pre.counters[i as int][idx as int] <= pre.total);
            }
            let cur = self.counters[i][idx];
            self.counters[i][idx] = cur + n;
            i = i + 1;
            proof {
                assert(self.counters@[i - 1]@ =~= pre.counters[i - 1].update(
                    slot(pre, v, i - 1),
                    (pre.counters[i - 1][slot(pre, v, i - 1)] + n) as u64,
                ));
            }
        }
        proof {
            self.total@ = (pre.total + n) as nat;
            self.hist@ = pre.counts.insert(v, (count_of(pre, v) + n) as nat);
        }
        proof {
            let post = self@;
            assert(post.counters =~= Seq::new(pre.depth, |r: int| post.counters[r]));
            assert(cm_insert_rel(pre, post, v, n));
            lemma_insert_keeps_wf(pre, post, v, n);
            assert forall|w: Seq<Seq<u8>>| #[trigger] est(pre, w) <= est(post, w) by {
                lemma_insert_grows_estimates(pre, post, v, n, w);
            }
        }
    }

    /// Add one occurrence of the element.
    pub fn insert(&mut self, e: E)
        requires
            old(self).wf(),
            old(self)@.total + 1 <= u64::MAX,
        ensures
            final(self).wf(),
            cm_insert_rel(old(self)@, final(self)@, e.feed_view(), 1),
            forall|w: Seq<Seq<u8>>| #[trigger] est(old(self)@, w) <= est(final(self)@, w),
    {
        self.insert_n(e, 1)
    }

    /// Estimate how often the element was inserted: the minimum of its
    /// counters across all rows. Never below the weight recorded for the
    /// element (one-sided error); collisions can only inflate it.
    #[verifier::loop_isolation(false)]
    pub fn estimate(&self, e: &E) -> (r: u64)
        requires
            self.wf(),
        ensures
            r == est(self@, e.feed_view()),
            count_of(self@, e.feed_view()) <= r,
    {
        let ghost v = e.feed_view();
        let mut gen = indexes(e, self.width);
        let mut i: usize = 0;
        let mut best: u64 = u64::MAX;
        let mut started = false;
        while i < self.depth
            invariant
                i <= self.depth,
                gen.first_hash() == hash1_of(v),
                gen.second_hash() == hash2_of(v),
                gen.bound() == self.width as u64,
                gen.draws() == i,
                started == (i > 0),
                i > 0 ==> best == est_upto(self@, v, i as int),
            decreases self.depth - i,
        {
            let idx = gen.next();
            proof {
                assert(idx as int == slot(self@, v, i as int));
                assert(0 <= idx < self@.width);
                assert(self.counters@.len() == self@.depth);
                assert(self.counters@[i as int]@ == self@.counters[i as int]);
                assert(self@.counters[i as int].len() == self@.width);
            }
            let cell = self.counters[i][idx];
            proof {
                assert(cell == row_val(self@, v, i as int));
            }
            if !started || cell < best {
                best = cell;
            }
            started = true;
            i = i + 1;
            proof {
                if i > 1 {
                    assert(est_upto(self@, v, i as int) == min2(
                        est_upto(self@, v, i - 1),
                        row_val(self@, v, i - 1),
                    ));
                }
            }
        }
        proof {
            lemma_estimate_never_undercounts(self@, v);
        }
        best
    }


    /// Estimate the element's frequency with the Count-Mean-Min variant:
    /// subtract each row's estimated collision noise from its counter
    /// (saturating at zero), then take the median across rows. `n` is the
    /// caller's count of all insertions, and must be at least the weight this
    /// sketch has seen; the sketch needs at least two columns for the noise
    /// term. Unlike `estimate`, this can undershoot, which is the point: it
    /// trades the min-estimator's positive bias for lower error on streams
    /// that are not highly skewed.
    #[verifier::loop_isolation(false)]
    pub fn estimate_mean(&self, e: E, n: u64) -> (r: u64)
        requires
            self.wf(),
            2 <= self@.width,
            self@.total <= n,
        ensures
            r == median_of(corrected_rows(self@, e.feed_view(), n)),
    {
        let ghost v = e.feed_view();
        let mut gen = indexes(&e, self.width);
        let mut vals: Vec<u64> = Vec::new();
        let mut i: usize = 0;
        while i < self.depth
            invariant
                i <= self.depth,
                gen.first_hash() == hash1_of(v),
                gen.second_hash() == hash2_of(v),
                gen.bound() == self.width as u64,
                gen.draws() == i,
                vals@.len() == i,
                forall|r: int| 0 <= r < i ==> #[trigger] vals@[r] == corrected(self@, v, n, r),
            decreases self.depth - i,
        {
            let idx = gen.next();
            proof {
                assert(idx as int == slot(self@, v, i as int));
                assert(0 <= idx < self@.width);
                assert(self.counters@.len() == self@.depth);
                assert(self.counters@[i as int]@ == self@.counters[i as int]);
                assert(self@.counters[i as int].len() == self@.width);
                assert(self@.counters[i as int][idx as int] <= self@.total);
            }
            let cv = self.counters[i][idx];
            let noise = (n - cv) / (self.width as u64 - 1);
            let val = if noise <= cv {
                cv - noise
            } else {
                0
            };
            proof {
                assert(cv == row_val(self@, v, i as int));
                assert(val == corrected(self@, v, n, i as int));
            }
            vals.push(val);
            i = i + 1;
        }
        let sorted = sort_counters(vals);
        proof {
            let cr = corrected_rows(self@, v, n);
            assert(vals@ =~= cr);
            lemma_counter_le_total();
            cr.lemma_sort_by_ensures(counter_le());
            lemma_sorted_unique(sorted@, cr.sort_by(counter_le()), counter_le());
            assert(sorted@ =~= cr.sort_by(counter_le()));
            assert(sorted@.len() == cr.len());
        }
        let d = self.depth;
        if d % 2 == 0 {
            let a = sorted[d / 2 - 1];
            let b = sorted[d / 2];
            let m128 = ((a as u128) + (b as u128)) / 2;
            let r = m128 as u64;
            proof {
                assert(r == median_of(corrected_rows(self@, v, n)));
            }
            r
        } else {
            sorted[d / 2]
        }
    }

    /// Merge the other sketch into this one in place: counters become the
    /// element-wise sum, and so do the recorded weights. Both sketches must
    /// have the same shape, and the combined weight must fit a counter;
    /// violating either is a caller contract violation.
    #[verifier::loop_isolation(false)]
    pub fn merge(&mut self, other: &CountMinSketch<E>)
        requires
            old(self).wf(),
            other.wf(),
            old(self)@.depth == other@.depth,
            old(self)@.width == other@.width,
            old(self)@.total + other@.total <= u64::MAX,
        ensures
            final(self).wf(),
            final(self)@.depth == old(self)@.depth,
            final(self)@.width == old(self)@.width,
            final(self)@.total == old(self)@.total + other@.total,
            final(self)@.counts == merged_counts(old(self)@.counts, other@.counts),
            forall|r: int, c: int|
                0 <= r < old(self)@.depth && 0 <= c < old(self)@.width
                    ==> #[trigger] final(self)@.counters[r][c] == old(self)@.counters[r][c]
                    + other@.counters[r][c],
            forall|w: Seq<Seq<u8>>| #[trigger] est(old(self)@, w) <= est(final(self)@, w),
    {
        let ghost pre = self@;
        let mut i: usize = 0;
        while i < self.depth
            invariant
                i <= self.depth,
                self.depth == pre.depth,
                self.width == pre.width,
                self.total@ == pre.total,
                self.hist@ == pre.counts,
                self.counters@.len() == pre.depth,
                forall|r: int| i <= r < pre.depth ==> #[trigger] self.counters@[r]@ == pre.counters[r],
                forall|r: int|
                    0 <= r < i ==> (#[trigger] self.counters@[r]@).len() == pre.width,
                forall|r: int, c: int|
                    0 <= r < i && 0 <= c < pre.width ==> #[trigger] self.counters@[r]@[c]
                        == pre.counters[r][c] + other@.counters[r][c],
            decreases self.depth - i,
        {
            proof {
                assert(self.counters@[i as int]@ == pre.counters[i as int]);
                assert(pre.counters[i as int].len() == pre.width);
                assert(other@.counters[i as int].len() == pre.width);
                assert(other.counters@[i as int]@ == other@.counters[i as int]);
            }
            let mut row: Vec<u64> = Vec::new();
            let mut j: usize = 0;
            while j < self.width
                invariant
                    j <= self.width,
                    row@.len() == j,
                    forall|c: int|
                        0 <= c < j ==> #[trigger] row@[c] == pre.counters[i as int][c]
                            + other@.counters[i as int][c],
                decreases self.width - j,
            {
                let a = self.counters[i][j];
                let b = other.counters[i][j];
                proof {
                    assert(pre.counters[i as int][j as int] <= pre.total);
                    assert(other@.counters[i as int][j as int] <= other@.total);
                }
                row.push(a + b);
                j = j + 1;
            }
            self.counters[i] = row;
            i = i + 1;
        }
        proof {
            self.total@ = (pre.total + other@.total) as nat;
            self.hist@ = merged_counts(pre.counts, other@.counts);
        }
        proof {
            let post = self@;
            assert forall|v: Seq<Seq<u8>>, r: int| 0 <= r < post.depth implies #[trigger] row_dominates(
                post,
                v,
                r,
            ) by {
                assert(row_dominates(pre, v, r));
                assert(row_dominates(other@, v, r));
                assert(0 <= slot(pre, v, r) < pre.width);
                assert(slot(post, v, r) == slot(pre, v, r));
                assert(post.counters[r][slot(pre, v, r)] == pre.counters[r][slot(pre, v, r)]
                    + other@.counters[r][slot(pre, v, r)]);
            }
            assert forall|w: Seq<Seq<u8>>| #[trigger] est(pre, w) <= est(post, w) by {
                assert forall|r: int, c: int|
                    0 <= r < pre.counters.len() && 0 <= c < pre.counters[r].len() implies #[trigger] pre.counters[r][c]
                    <= #[trigger] post.counters[r][c] by {
                    assert(pre.counters[r].len() == pre.width);
                    assert(post.counters[r][c] == pre.counters[r][c] + other@.counters[r][c]);
                }
                lemma_estimate_monotone(pre, post, w);
            }
        }
    }
}

proof fn lemma_insert_grows_estimates(
    pre: SketchModel,
    post: SketchModel,
    v: Seq<Seq<u8>>,
    n: u64,
    w: Seq<Seq<u8>>,
)
    requires
        cm_wf(pre),
        cm_wf(post),
        cm_insert_rel(pre, post, v, n),
    ensures
        est(pre, w) <= est(post, w),
{
    assert forall|r: int, c: int|
        0 <= r < pre.counters.len() && 0 <= c < pre.counters[r].len() implies #[trigger] pre.counters[r][c]
        <= #[trigger] post.counters[r][c] by {
        assert(pre.counters[r].len() == pre.width);
        assert(post.counters[r] == pre.counters[r].update(
            slot(pre, v, r),
            (pre.counters[r][slot(pre, v, r)] + n) as u64,
        ));
        if c == slot(pre, v, r) {
            assert(pre.counters[r][c] <= pre.total);
        }
    }
    lemma_estimate_monotone(pre, post, w);
}

proof fn lemma_insert_keeps_wf(pre: SketchModel, post: SketchModel, v: Seq<Seq<u8>>, n: u64)
    requires
        cm_wf(pre),
        pre.total + n <= u64::MAX,
        cm_insert_rel(pre, post, v, n),
    ensures
        cm_wf(post),
{
    assert forall|r: int| 0 <= r < post.depth implies (#[trigger] post.counters[r]).len()
        == post.width by {
        assert(pre.counters[r].len() == pre.width);
    }
    assert forall|r: int, c: int|
        0 <= r < post.depth && 0 <= c < post.width implies #[trigger] post.counters[r][c]
        <= post.total by {
        assert(pre.counters[r][c] <= pre.total);
    }
    assert forall|w: Seq<Seq<u8>>, r: int| 0 <= r < post.depth implies #[trigger] row_dominates(
        post,
        w,
        r,
    ) by {
        assert(row_dominates(pre, w, r));
        assert(0 <= slot(pre, w, r) < pre.width);
        assert(0 <= slot(pre, v, r) < pre.width);
        assert(slot(post, w, r) == slot(pre, w, r));
        if w == v {
            assert(post.counters[r][slot(pre, v, r)] == pre.counters[r][slot(pre, v, r)] + n);
            assert(count_of(post, v) == count_of(pre, v) + n);
        } else {
            assert(count_of(post, w) == count_of(pre, w));
            if slot(pre, w, r) == slot(pre, v, r) {
                assert(post.counters[r][slot(pre, w, r)] >= pre.counters[r][slot(pre, w, r)]);
            } else {
                assert(post.counters[r][slot(pre, w, r)] == pre.counters[r][slot(pre, w, r)]);
            }
        }
    }
}

} // verus!
