//! A reservoir sample: a uniform sample of a fixed size drawn from a stream
//! of unknown length. The first `size` elements fill the reservoir; each
//! later element replaces a uniformly random slot, or none, so that every
//! element seen has the same chance of being in the sample.

use vstd::prelude::*;

verus! {

/// The abstract state of a reservoir: its fixed size, how many elements have
/// been offered, and the sample held.
pub ghost struct ReservoirModel<E> {
    pub size: nat,
    pub count: nat,
    pub sample: Seq<E>,
}

/// A well-formed reservoir holds one element for each of the first `size`
/// offers and never more than `size`.
pub open spec fn reservoir_wf<E>(m: ReservoirModel<E>) -> bool {
    &&& 1 <= m.size <= usize::MAX
    &&& m.sample.len() == (if m.count <= m.size {
        m.count
    } else {
        m.size
    })
}

/// Relies on `rand::Rng::gen_range` over `0..n`: the result is uniform in
/// the range, so in particular below `n`; an empty range panics, so `n` must
/// be positive. Nothing more is assumed of the drawn value.
#[verifier::external_body]
fn random_below(n: usize) -> (r: usize)
    requires
        1 <= n,
    ensures
        r < n,
{
    rand::Rng::gen_range(&mut rand::thread_rng(), 0..n)
}

/// A reservoir sample over elements of type `E`.
pub struct ReservoirSample<E> {
    size: usize,
    count: usize,
    elements: Vec<E>,
}

impl<E> View for ReservoirSample<E> {
    type V = ReservoirModel<E>;

    closed spec fn view(&self) -> ReservoirModel<E> {
        ReservoirModel {
            size: self.size as nat,
            count: self.count as nat,
            sample: self.elements@,
        }
    }
}

impl<E> ReservoirSample<E> {
    /// Whether this reservoir is well formed.
    pub open spec fn wf(&self) -> bool {
        reservoir_wf(self@)
    }

    /// Build an empty reservoir for a sample of `size` elements. A zero size
    /// is a caller contract violation.
    pub fn new(size: usize) -> (r: Self)
        requires
            1 <= size,
        ensures
            r.wf(),
            r@.size == size,
            r@.count == 0,
            r@.sample == Seq::<E>::empty(),
    {
        let r = ReservoirSample { size, count: 0, elements: Vec::new() };
        proof {
            assert(r@.sample =~= Seq::<E>::empty());
        }
        r
    }

    /// Offer an element to the sample. While the reservoir is filling it is
    /// appended; afterwards it either replaces one held element, at a slot
    /// drawn at random, or is dropped, and nothing else changes. The offer
    /// counter must not be exhausted; beyond that is a caller contract
    /// violation.
    pub fn insert(&mut self, e: E)
        requires
            old(self).wf(),
            old(self)@.count < usize::MAX,
        ensures
            final(self).wf(),
            final(self)@.size == old(self)@.size,
            final(self)@.count == old(self)@.count + 1,
            old(self)@.count < old(self)@.size ==> final(self)@.sample == old(
                self,
            )@.sample.push(e),
            old(self)@.count >= old(self)@.size ==> (final(self)@.sample == old(self)@.sample
                || exists|j: int|
                0 <= j < old(self)@.size && final(self)@.sample == old(self)@.sample.update(
                    j,
                    e,
                )),
    {
        if self.count < self.size {
            self.elements.push(e);
        } else {
            let idx = random_below(self.count);
            if idx < self.size {
                self.elements[idx] = e;
                proof {
                    assert(self@.sample == old(self)@.sample.update(idx as int, e));
                }
            }
        }
        self.count = self.count + 1;
    }

    /// Give up the reservoir and return the sample it held.
    pub fn elements(self) -> (r: Vec<E>)
        ensures
            r@ == self@.sample,
    {
        self.elements
    }
}

} // verus!
