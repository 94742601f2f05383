//! A Top-K tracker: a Count-Min sketch plus a bookkeeping list of candidate
//! elements whose estimated share of all insertions exceeded a minimum
//! fraction at some point. Queries re-check each candidate's share against
//! the live sketch, sort the survivors by estimated frequency, and keep the
//! top `k`. The candidate list can hold stale entries whose share has since
//! fallen; `shrink_to_fit` prunes them. The minimum fraction is a rational
//! `min_num / min_den` in `(0, 1)`.

use core::marker::PhantomData;
use crate::countmin::cm_insert_rel;
use crate::countmin::cm_wf;
use crate::countmin::count_of;
use crate::countmin::est;
use crate::countmin::lemma_estimate_never_undercounts;
use crate::countmin::CountMinSketch;
use crate::countmin::SketchModel;
use crate::hash::Hashable;
use vstd::prelude::*;

verus! {

broadcast use {vstd::seq_lib::group_to_multiset_ensures, vstd::multiset::group_multiset_axioms};

/// The abstract state of a Top-K tracker.
pub ghost struct TopKModel<E> {
    pub k: nat,
    pub min_num: u64,
    pub min_den: u64,
    pub n: u64,
    pub sketch: SketchModel,
    pub candidates: Seq<E>,
}

/// A well-formed tracker: a well-formed sketch whose total weight equals the
/// insertion counter, a capacity of at least one, and a threshold fraction
/// strictly between zero and one.
pub open spec fn topk_wf<E>(t: TopKModel<E>) -> bool {
    &&& cm_wf(t.sketch)
    &&& 1 <= t.k <= usize::MAX
    &&& 0 < t.min_num < t.min_den
    &&& t.n as nat == t.sketch.total
}

/// Whether candidate `c`'s estimated share of all insertions exceeds the
/// threshold: `estimate(c) / n > min_num / min_den`, cross-multiplied so no
/// division is involved.
pub open spec fn passes<E: Hashable>(t: TopKModel<E>, c: E) -> bool {
    est(t.sketch, c.feed_view()) as nat * t.min_den as nat > t.min_num as nat * t.n as nat
}

/// Whether the byte view `v` is truly heavy: the weight actually recorded
/// for it exceeds the threshold share of all insertions.
pub open spec fn heavy<E>(t: TopKModel<E>, v: Seq<Seq<u8>>) -> bool {
    count_of(t.sketch, v) * t.min_den as nat > t.min_num as nat * t.n as nat
}

/// Whether some candidate feeds the bytes `v`.
pub open spec fn has_candidate<E: Hashable>(t: TopKModel<E>, v: Seq<Seq<u8>>) -> bool {
    exists|i: int| 0 <= i < t.candidates.len() && (#[trigger] t.candidates[i]).feed_view() == v
}

/// Every truly heavy view has a candidate: the tracker never loses a heavy
/// hitter. Established at construction, preserved by every insert, and
/// preserved by `shrink_to_fit` as long as at most `k` candidates pass.
pub open spec fn covers_heavy<E: Hashable>(t: TopKModel<E>) -> bool {
    forall|v: Seq<Seq<u8>>| #[trigger] heavy(t, v) ==> has_candidate(t, v)
}

/// The share test applied to a candidate, as a predicate for filtering.
pub open spec fn pass_pred<E: Hashable>(t: TopKModel<E>) -> spec_fn(E) -> bool {
    |c: E| passes(t, c)
}

/// The candidates whose share still exceeds the threshold at query time.
pub open spec fn passing<E: Hashable>(t: TopKModel<E>) -> Seq<E> {
    t.candidates.filter(pass_pred(t))
}

/// The second components of a sequence of keyed pairs.
pub open spec fn snds<E>(s: Seq<(u64, E)>) -> Seq<E> {
    Seq::new(s.len(), |i: int| s[i].1)
}

/// What `elements` returns for a tracker in state `t`: at most `k` of the
/// candidates that still pass the share test, in non-increasing order of
/// estimated frequency, all of them whenever at most `k` pass.
pub open spec fn elements_post<E: Hashable>(t: TopKModel<E>, out: Seq<E>) -> bool {
    &&& out.len() == (if passing(t).len() <= t.k {
        passing(t).len()
    } else {
        t.k as nat
    })
    &&& forall|i: int|
        0 <= i < out.len() ==> passes(t, #[trigger] out[i]) && t.candidates.contains(out[i])
    &&& forall|i: int, j: int|
        0 <= i < j < out.len() ==> est(t.sketch, (#[trigger] out[j]).feed_view()) <= est(
            t.sketch,
            (#[trigger] out[i]).feed_view(),
        )
    &&& passing(t).len() <= t.k ==> (forall|i: int|
        0 <= i < t.candidates.len() && passes(t, #[trigger] t.candidates[i]) ==> out.contains(
            t.candidates[i],
        ))
    &&& forall|i: int|
        0 <= i < t.candidates.len() && passes(t, #[trigger] t.candidates[i]) ==> (out.contains(
            t.candidates[i],
        ) || (0 < out.len() && est(t.sketch, t.candidates[i].feed_view()) <= est(
            t.sketch,
            out[out.len() - 1].feed_view(),
        )))
}

/// If a view is heavy, every candidate feeding it passes the share test: the
/// estimate dominates the recorded weight, so the estimated share dominates
/// the true share.
pub proof fn lemma_heavy_candidate_passes<E: Hashable>(t: TopKModel<E>, c: E)
    requires
        topk_wf(t),
        heavy(t, c.feed_view()),
    ensures
        passes(t, c),
{
    lemma_estimate_never_undercounts(t.sketch, c.feed_view());
    assert(count_of(t.sketch, c.feed_view()) * t.min_den as nat <= est(t.sketch, c.feed_view())
        as nat * t.min_den as nat) by (nonlinear_arith)
        requires
            count_of(t.sketch, c.feed_view()) <= est(t.sketch, c.feed_view()) as nat,
            0 <= t.min_den as nat,
    ;
}

/// Top-K bound: after any run of inserts in which the element `x` makes up
/// more than the threshold fraction of all insertions, a query reports an
/// element that feeds `x`'s bytes — provided at most `k` candidates pass the
/// share test, since the query keeps only the top `k`.
pub proof fn lemma_heavy_hitter_reported<E: Hashable>(t: TopKModel<E>, out: Seq<E>, x: E)
    requires
        topk_wf(t),
        covers_heavy(t),
        heavy(t, x.feed_view()),
        passing(t).len() <= t.k,
        elements_post(t, out),
    ensures
        exists|i: int| 0 <= i < out.len() && (#[trigger] out[i]).feed_view() == x.feed_view(),
{
    let v = x.feed_view();
    assert(has_candidate(t, v));
    let ci = choose|i: int|
        0 <= i < t.candidates.len() && (#[trigger] t.candidates[i]).feed_view() == v;
    let c = t.candidates[ci];
    lemma_heavy_candidate_passes(t, c);
    assert(out.contains(c));
    let oi = choose|i: int| 0 <= i < out.len() && out[i] == c;
    assert(out[oi].feed_view() == v);
}

/// A Top-K tracker over elements of type `E`. Candidates are stored by
/// value, so the element type must be copyable, as well as hashable.
pub struct TopK<E> {
    k: usize,
    min_num: u64,
    min_den: u64,
    n: u64,
    cms: CountMinSketch<E>,
    elements: Vec<E>,
    marker: PhantomData<E>,
}

impl<E> View for TopK<E> {
    type V = TopKModel<E>;

    closed spec fn view(&self) -> TopKModel<E> {
        TopKModel {
            k: self.k as nat,
            min_num: self.min_num,
            min_den: self.min_den,
            n: self.n,
            sketch: self.cms@,
            candidates: self.elements@,
        }
    }
}


/// Decide whether an estimate's share of `n` insertions exceeds the
/// threshold fraction, by cross-multiplication in 128 bits.
fn share_exceeds(est_v: u64, num: u64, den: u64, n: u64) -> (r: bool)
    ensures
        r == (est_v as nat * den as nat > num as nat * n as nat),
{
    proof {
        assert((est_v as u128) * (den as u128) <= (u64::MAX as u128) * (u64::MAX as u128))
            by (nonlinear_arith)
            requires
                est_v as u128 <= u64::MAX as u128,
                den as u128 <= u64::MAX as u128,
        ;
        assert((num as u128) * (n as u128) <= (u64::MAX as u128) * (u64::MAX as u128))
            by (nonlinear_arith)
            requires
                num as u128 <= u64::MAX as u128,
                n as u128 <= u64::MAX as u128,
        ;
    }
    (est_v as u128) * (den as u128) > (num as u128) * (n as u128)
}

/// Sort keyed pairs by key, largest first: selection sort, moving the
/// largest remaining key across each round.
fn sort_pairs_desc<E: Copy>(v: Vec<(u64, E)>) -> (r: Vec<(u64, E)>)
    ensures
        r@.len() == v@.len(),
        r@.to_multiset() == v@.to_multiset(),
        forall|i: int, j: int| 0 <= i < j < r@.len() ==> (#[trigger] r@[j]).0 <= (#[trigger] r@[i]).0,
{
    let mut src = v;
    let mut out: Vec<(u64, E)> = Vec::new();
    proof {
        assert(out@.to_multiset().add(src@.to_multiset()) =~= v@.to_multiset());
    }
    while src.len() > 0
        invariant
            out@.len() + src@.len() == v@.len(),
            out@.to_multiset().add(src@.to_multiset()) == v@.to_multiset(),
            forall|i: int, j: int| 0 <= i < j < out@.len() ==> (#[trigger] out@[j]).0 <= (#[trigger] out@[i]).0,
            forall|x: int, y: int|
                0 <= x < out@.len() && 0 <= y < src@.len() ==> (#[trigger] src@[y]).0 <= (
                #[trigger] out@[x]).0,
        decreases src@.len(),
    {
        let mut mi: usize = 0;
        let mut q: usize = 1;
        while q < src.len()
            invariant
                mi < src@.len(),
                q <= src@.len(),
                forall|t: int| 0 <= t < q ==> (#[trigger] src@[t]).0 <= src@[mi as int].0,
            decreases src@.len() - q,
        {
            if src[q].0 > src[mi].0 {
                mi = q;
            }
            q = q + 1;
        }
        let ghost srcpre = src@;
        let ghost outpre = out@;
        let x = src.remove(mi);
        out.push(x);
        proof {
            assert(x == srcpre[mi as int]);
            srcpre.remove_ensures(mi as int);
            assert(srcpre.to_multiset().count(x) > 0) by {
                assert(srcpre.contains(x));
            }
            assert(src@.to_multiset() =~= srcpre.to_multiset().remove(x));
            assert(out@.to_multiset() =~= outpre.to_multiset().insert(x));
            assert(out@.to_multiset().add(src@.to_multiset()) =~= outpre.to_multiset().add(
                srcpre.to_multiset(),
            ));
            assert forall|a: int, y: int|
                0 <= a < out@.len() && 0 <= y < src@.len() implies (#[trigger] src@[y]).0 <= (
            #[trigger] out@[a]).0 by {
                if y < mi {
                    assert(src@[y] == srcpre[y]);
                } else {
                    assert(src@[y] == srcpre[y + 1]);
                }
                if a < out@.len() - 1 {
                    assert(srcpre[mi as int].0 <= outpre[a].0);
                }
            }
        }
    }
    proof {
        assert(src@.to_multiset() =~= Seq::<(u64, E)>::empty().to_multiset());
        assert(out@.to_multiset().add(src@.to_multiset()) =~= out@.to_multiset());
    }
    out
}

impl<E: Hashable + Copy> TopK<E> {
    /// Whether this tracker is well formed.
    pub open spec fn wf(&self) -> bool {
        topk_wf(self@)
    }

    /// Build a tracker that reports up to `k` elements whose share of all
    /// insertions exceeds `min_num / min_den`, counting with the given fresh
    /// sketch. A zero capacity, a fraction outside `(0, 1)`, or a sketch
    /// that has already counted something is a caller contract violation.
    pub fn new(k: usize, min_num: u64, min_den: u64, cms: CountMinSketch<E>) -> (r: Self)
        requires
            1 <= k,
            0 < min_num < min_den,
            cms.wf(),
            cms@.total == 0,
        ensures
            r.wf(),
            covers_heavy(r@),
            r@.k == k,
            r@.min_num == min_num,
            r@.min_den == min_den,
            r@.n == 0,
            r@.sketch == cms@,
            r@.candidates == Seq::<E>::empty(),
    {
        let r = TopK { k, min_num, min_den, n: 0, cms, elements: Vec::new(), marker: PhantomData };
        proof {
            assert(r@.candidates =~= Seq::<E>::empty());
            assert forall|v: Seq<Seq<u8>>| #[trigger] heavy(r@, v) implies has_candidate(
                r@,
                v,
            ) by {
                lemma_count_le_total(r@.sketch, v);
                assert(count_of(r@.sketch, v) == 0);
                assert(count_of(r@.sketch, v) * r@.min_den as nat == 0) by (nonlinear_arith)
                    requires
                        count_of(r@.sketch, v) == 0,
                ;
                assert(r@.min_num as nat * r@.n as nat == 0) by (nonlinear_arith)
                    requires
                        r@.n == 0,
                ;
                assert(false);
            }
        }
        r
    }

    /// Count the element in the sketch, and record it as a candidate if its
    /// estimated share of all insertions now exceeds the threshold and no
    /// candidate already feeds the same bytes. Never removes a candidate.
    /// The insertion counter must not be exhausted; beyond that is a caller
    /// contract violation.
    #[verifier::loop_isolation(false)]
    pub fn insert(&mut self, e: E)
        requires
            old(self).wf(),
            old(self)@.n < u64::MAX,
        ensures
            final(self).wf(),
            final(self)@.k == old(self)@.k,
            final(self)@.min_num == old(self)@.min_num,
            final(self)@.min_den == old(self)@.min_den,
            final(self)@.n == old(self)@.n + 1,
            cm_insert_rel(old(self)@.sketch, final(self)@.sketch, e.feed_view(), 1),
            final(self)@.candidates == old(self)@.candidates || final(self)@.candidates == old(
                self,
            )@.candidates.push(e),
            passes(final(self)@, e) ==> has_candidate(final(self)@, e.feed_view()),
            final(self)@.candidates == old(self)@.candidates.push(e) ==> passes(final(self)@, e)
                && !has_candidate(old(self)@, e.feed_view()),
            covers_heavy(old(self)@) ==> covers_heavy(final(self)@),
    {
        let ghost pre = self@;
        let ghost v = e.feed_view();
        self.cms.insert(e);
        self.n = self.n + 1;
        let et = self.cms.estimate(&e);
        let top = share_exceeds(et, self.min_num, self.min_den, self.n);
        if top {
            let mut found = false;
            let mut ci: usize = 0;
            while ci < self.elements.len()
                invariant
                    ci <= self.elements@.len(),
                    found ==> exists|p: int|
                        0 <= p < self.elements@.len() && (#[trigger] self.elements@[p]).feed_view()
                            == v,
                    !found ==> forall|p: int|
                        0 <= p < ci ==> (#[trigger] self.elements@[p]).feed_view() != v,
                decreases self.elements@.len() - ci,
            {
                if self.elements[ci].feed_eq(&e) {
                    found = true;
                    proof {
                        assert((self.elements@[ci as int]).feed_view() == v);
                    }
                }
                ci = ci + 1;
            }
            if !found {
                self.elements.push(e);
                proof {
                    assert((self@.candidates[self@.candidates.len() - 1]).feed_view() == v);
                    assert(!has_candidate(pre, v));
                }
            }
        }
        proof {
            if self@.candidates == pre.candidates.push(e) {
                assert(self@.candidates.len() == pre.candidates.len() + 1);
            }
        }
        proof {
            let post = self@;
            assert(post.n as nat == post.sketch.total);
            if passes(post, e) {
                assert(has_candidate(post, v));
            }
            if covers_heavy(pre) {
                assert forall|w: Seq<Seq<u8>>| #[trigger] heavy(post, w) implies has_candidate(
                    post,
                    w,
                ) by {
                    if w == v {
                        lemma_heavy_candidate_passes(post, e);
                        assert(passes(post, e) == top);
                        assert(has_candidate(post, v));
                    } else {
                        assert(count_of(post.sketch, w) == count_of(pre.sketch, w));
                        assert(pre.min_num as nat * pre.n as nat <= post.min_num as nat
                            * post.n as nat) by (nonlinear_arith)
                            requires
                                pre.min_num == post.min_num,
                                pre.n <= post.n,
                        ;
                        assert(heavy(pre, w));
                        let p = choose|p: int|
                            0 <= p < pre.candidates.len() && (#[trigger] pre.candidates[p]).feed_view()
                                == w;
                        assert((post.candidates[p]).feed_view() == w);
                    }
                }
            }
        }
    }

    /// Report the candidates whose estimated share still exceeds the
    /// threshold, in non-increasing order of estimated frequency, keeping at
    /// most the top `k`. Read-only: the tracker is unchanged.
    #[verifier::loop_isolation(false)]
    pub fn elements(&mut self) -> (r: Vec<E>)
        requires
            old(self).wf(),
        ensures
            final(self)@ == old(self)@,
            elements_post(old(self)@, r@),
    {
        let ghost t = self@;
        let mut keep: Vec<(u64, E)> = Vec::new();
        let mut ci: usize = 0;
        proof {
            assert(t.candidates.subrange(0, 0).filter(pass_pred(t)) =~= Seq::<E>::empty());
            assert(snds(keep@) =~= Seq::<E>::empty());
        }
        while ci < self.elements.len()
            invariant
                ci <= t.candidates.len(),
                snds(keep@) == t.candidates.subrange(0, ci as int).filter(pass_pred(t)),
                forall|p: int|
                    0 <= p < keep@.len() ==> (#[trigger] keep@[p]).0 == est(
                        t.sketch,
                        keep@[p].1.feed_view(),
                    ) && passes(t, keep@[p].1) && t.candidates.contains(keep@[p].1),
            decreases t.candidates.len() - ci,
        {
            let c = self.elements[ci];
            let et = self.cms.estimate(&c);
            let top = share_exceeds(et, self.min_num, self.min_den, self.n);
            let ghost keeppre = keep@;
            if top {
                keep.push((et, c));
            }
            ci = ci + 1;
            proof {
                let prefix = t.candidates.subrange(0, ci - 1);
                let prefix2 = t.candidates.subrange(0, ci as int);
                assert(prefix2 =~= prefix + seq![c]);
                Seq::filter_distributes_over_add(prefix, seq![c], pass_pred(t));
                reveal_with_fuel(Seq::filter, 2);
                assert(seq![c].drop_last() =~= Seq::<E>::empty());
                if top {
                    assert(pass_pred(t)(c));
                    assert(seq![c].filter(pass_pred(t)) =~= seq![c]);
                    assert(snds(keep@) =~= snds(keeppre).push(c));
                } else {
                    assert(!pass_pred(t)(c));
                    assert(seq![c].filter(pass_pred(t)) =~= Seq::<E>::empty());
                    assert(snds(keep@) =~= snds(keeppre));
                    assert(prefix2.filter(pass_pred(t)) =~= prefix.filter(pass_pred(t)));
                }
            }
        }
        proof {
            assert(t.candidates.subrange(0, t.candidates.len() as int) =~= t.candidates);
            assert(snds(keep@) == passing(t));
        }
        let sorted = sort_pairs_desc(keep);
        proof {
            assert forall|p: int| 0 <= p < sorted@.len() implies (#[trigger] sorted@[p]).0 == est(
                t.sketch,
                sorted@[p].1.feed_view(),
            ) && passes(t, sorted@[p].1) && t.candidates.contains(sorted@[p].1) by {
                assert(sorted@.contains(sorted@[p]));
                assert(sorted@.to_multiset().count(sorted@[p]) > 0);
                assert(keep@.to_multiset().count(sorted@[p]) > 0);
                assert(keep@.contains(sorted@[p]));
                let q = choose|q: int| 0 <= q < keep@.len() && keep@[q] == sorted@[p];
                assert(keep@[q].0 == est(t.sketch, keep@[q].1.feed_view()));
            }
            assert(sorted@.len() == passing(t).len());
        }
        let limit = if self.k < sorted.len() {
            self.k
        } else {
            sorted.len()
        };
        let mut out: Vec<E> = Vec::new();
        let mut oi: usize = 0;
        while oi < limit
            invariant
                oi <= limit,
                out@.len() == oi,
                forall|p: int| 0 <= p < oi ==> #[trigger] out@[p] == sorted@[p].1,
            decreases limit - oi,
        {
            out.push(sorted[oi].1);
            oi = oi + 1;
        }
        proof {
            assert forall|i: int|
                0 <= i < t.candidates.len() && passes(t, #[trigger] t.candidates[i]) implies (out@.contains(
                t.candidates[i],
            ) || (0 < out@.len() && est(t.sketch, t.candidates[i].feed_view()) <= est(
                t.sketch,
                out@[out@.len() - 1].feed_view(),
            ))) by {
                let c = t.candidates[i];
                t.candidates.lemma_filter_contains(pass_pred(t), i);
                assert(passing(t).contains(c));
                let fx = choose|fx: int| 0 <= fx < passing(t).len() && passing(t)[fx] == c;
                assert(snds(keep@)[fx] == c);
                let pair = keep@[fx];
                assert(pair.0 == est(t.sketch, c.feed_view()));
                assert(keep@.contains(pair));
                assert(keep@.to_multiset().count(pair) > 0);
                assert(sorted@.to_multiset().count(pair) > 0);
                assert(sorted@.contains(pair));
                let sx = choose|sx: int| 0 <= sx < sorted@.len() && sorted@[sx] == pair;
                if sx < limit {
                    assert(out@[sx] == c);
                    assert(out@.contains(c));
                } else {
                    assert(limit as int - 1 < sx);
                    assert(sorted@[sx].0 <= sorted@[limit as int - 1].0);
                    assert(out@[limit as int - 1] == sorted@[limit as int - 1].1);
                }
            }
            if passing(t).len() <= t.k {
                assert forall|i: int|
                    0 <= i < t.candidates.len() && passes(t, #[trigger] t.candidates[i]) implies out@.contains(
                    t.candidates[i],
                ) by {
                    let c = t.candidates[i];
                    t.candidates.lemma_filter_contains(pass_pred(t), i);
                    assert(passing(t).contains(c));
                    let fx = choose|fx: int| 0 <= fx < passing(t).len() && passing(t)[fx] == c;
                    assert(snds(keep@)[fx] == c);
                    let pair = keep@[fx];
                    assert(keep@.contains(pair));
                    assert(keep@.to_multiset().count(pair) > 0);
                    assert(sorted@.to_multiset().count(pair) > 0);
                    assert(sorted@.contains(pair));
                    let sx = choose|sx: int| 0 <= sx < sorted@.len() && sorted@[sx] == pair;
                    assert(out@[sx] == c);
                }
            }
            assert(elements_post(t, out@));
        }
        out
    }

    /// If more than `k` candidates are being kept, replace the candidate
    /// list with what `elements` reports: the at most `k` candidates still
    /// passing the share test, best first. Callers invoke this periodically
    /// to bound the list's memory as the stream's distribution shifts; it is
    /// the only operation that removes candidates.
    pub fn shrink_to_fit(&mut self)
        requires
            old(self).wf(),
        ensures
            final(self).wf(),
            final(self)@.k == old(self)@.k,
            final(self)@.min_num == old(self)@.min_num,
            final(self)@.min_den == old(self)@.min_den,
            final(self)@.n == old(self)@.n,
            final(self)@.sketch == old(self)@.sketch,
            old(self)@.candidates.len() <= old(self)@.k ==> final(self)@.candidates == old(
                self,
            )@.candidates,
            forall|i: int|
                0 <= i < final(self)@.candidates.len() ==> old(self)@.candidates.contains(
                    #[trigger] final(self)@.candidates[i],
                ),
            passing(old(self)@).len() <= old(self)@.k ==> (forall|i: int|
                0 <= i < old(self)@.candidates.len() && passes(
                    old(self)@,
                    #[trigger] old(self)@.candidates[i],
                ) ==> final(self)@.candidates.contains(old(self)@.candidates[i])),
            covers_heavy(old(self)@) && passing(old(self)@).len() <= old(self)@.k
                ==> covers_heavy(final(self)@),
            old(self)@.candidates.len() > old(self)@.k ==> final(self)@.candidates.len() <= old(
                self,
            )@.k,
    {
        let ghost t = self@;
        if self.elements.len() > self.k {
            let kept = self.elements();
            self.elements = kept;
        }
        proof {
            let post = self@;
            if t.candidates.len() > t.k {
                assert(elements_post(t, post.candidates));
            } else {
                assert forall|i: int|
                    0 <= i < post.candidates.len() implies t.candidates.contains(
                    #[trigger] post.candidates[i],
                ) by {}
            }
            if covers_heavy(t) && passing(t).len() <= t.k {
                assert forall|w: Seq<Seq<u8>>| #[trigger] heavy(post, w) implies has_candidate(
                    post,
                    w,
                ) by {
                    assert(heavy(t, w));
                    let p = choose|p: int|
                        0 <= p < t.candidates.len() && (#[trigger] t.candidates[p]).feed_view()
                            == w;
                    let c = t.candidates[p];
                    lemma_heavy_candidate_passes(t, c);
                    assert(post.candidates.contains(c));
                    let q = choose|q: int| 0 <= q < post.candidates.len() && post.candidates[q] == c;
                    assert((post.candidates[q]).feed_view() == w);
                }
            }
        }
    }
}

proof fn lemma_count_le_total(m: SketchModel, v: Seq<Seq<u8>>)
    requires
        cm_wf(m),
    ensures
        count_of(m, v) <= m.total,
{
    assert(crate::countmin::row_dominates(m, v, 0));
    assert(0 <= crate::countmin::slot(m, v, 0) < m.width);
}

} // verus!
