//! The shared double-hash index generator.
//!
//! From exactly two hash passes over an element, a generator produces an
//! unbounded sequence of pseudo-random slot indices in `[0, max)`: the `n`-th
//! draw is `(h1 + n * h2) mod max`, with wrapping arithmetic. Both the Bloom
//! filter and the Count-Min sketch draw their slots from this generator, so
//! one insert or query costs two hash passes however many rows it touches.

use std::collections::hash_map::DefaultHasher;
use std::hash::Hasher;
use vstd::bytes::spec_u32_from_le_bytes;
use vstd::bytes::spec_u32_to_le_bytes;
use vstd::bytes::spec_u64_from_le_bytes;
use vstd::bytes::spec_u64_to_le_bytes;
use vstd::bytes::u32_to_le_bytes;
use vstd::bytes::u64_to_le_bytes;
use vstd::bytes::lemma_auto_spec_u32_to_from_le_bytes;
use vstd::bytes::lemma_auto_spec_u64_to_from_le_bytes;
use vstd::prelude::*;
use vstd::std_specs::hash::DefaultHasherAdditionalSpecFns;
use vstd::string::StringSliceAdditionalSpecFns;

verus! {

/// An element that can be fed to a hasher. `feed_view` is the abstract
/// sequence of byte-chunks the element writes; `feed` performs the writes.
/// Two elements with the same `feed_view` are indistinguishable to every
/// structure in this crate.
pub trait Hashable {
    /// The byte-chunks this element writes into a hasher.
    spec fn feed_view(&self) -> Seq<Seq<u8>>;

    /// Write this element's bytes into the hasher.
    fn feed(&self, h: &mut DefaultHasher)
        ensures
            final(h)@ == old(h)@ + self.feed_view(),
    ;

    /// Decide whether two elements feed the same bytes.
    fn feed_eq(&self, other: &Self) -> (r: bool)
        ensures
            r == (self.feed_view() == other.feed_view()),
    ;
}

/// The first hash of an element: one pass over the element's bytes.
pub open spec fn hash1_of(v: Seq<Seq<u8>>) -> u64 {
    DefaultHasher::spec_finish(v)
}

/// The second hash: a fresh pass seeded with the first hash's output, so the
/// two hashes differ even though the underlying hasher is deterministic.
pub open spec fn hash2_of(v: Seq<Seq<u8>>) -> u64 {
    DefaultHasher::spec_finish(seq![spec_u64_to_le_bytes(hash1_of(v))] + v)
}

/// The `n`-th slot index drawn from hashes `h1` and `h2`, bounded by `max`:
/// `(h1 + n * h2) mod max`, where the sum and product wrap modulo 2^64.
pub open spec fn nth_index(h1: u64, h2: u64, max: u64, n: u64) -> u64
    recommends
        max >= 1,
{
    h1.wrapping_add(n.wrapping_mul(h2)) % max
}

/// The `n`-th slot index an element's generator yields under bound `max`.
pub open spec fn nth_draw(v: Seq<Seq<u8>>, max: u64, n: u64) -> u64
    recommends
        max >= 1,
{
    nth_index(hash1_of(v), hash2_of(v), max, n)
}

/// A lazy, unbounded sequence of slot indices in `[0, bound)`. It owns only
/// the two hashes and a draw counter, never the element it came from; it is
/// restarted only by constructing a new generator.
pub struct Index {
    h1: u64,
    h2: u64,
    max: u64,
    i: u64,
}

impl Index {
    /// The first of the two underlying hashes.
    pub closed spec fn first_hash(self) -> u64 {
        self.h1
    }

    /// The second of the two underlying hashes.
    pub closed spec fn second_hash(self) -> u64 {
        self.h2
    }

    /// The exclusive upper bound on every draw.
    pub closed spec fn bound(self) -> u64 {
        self.max
    }

    /// How many indices have been drawn so far.
    pub closed spec fn draws(self) -> u64 {
        self.i
    }

    /// Draw the next slot index.
    pub fn next(&mut self) -> (r: usize)
        requires
            old(self).draws() < u64::MAX,
            1 <= old(self).bound(),
            old(self).bound() <= usize::MAX,
        ensures
            final(self).first_hash() == old(self).first_hash(),
            final(self).second_hash() == old(self).second_hash(),
            final(self).bound() == old(self).bound(),
            final(self).draws() == old(self).draws() + 1,
            r as u64 == nth_index(
                final(self).first_hash(),
                final(self).second_hash(),
                final(self).bound(),
                final(self).draws(),
            ),
            r < final(self).bound(),
    {
        self.i = self.i + 1;
        let idx = self.h1.wrapping_add(self.i.wrapping_mul(self.h2)) % self.max;
        idx as usize
    }
}

/// Build the index generator for `e` with draws bounded by `max`.
///
/// Construction makes exactly two hash passes over the element: the first
/// from a fresh hasher, the second from a fresh hasher seeded with the first
/// hash's little-endian bytes. `max == 0` is a caller contract violation.
pub fn indexes<E: Hashable>(e: &E, max: usize) -> (r: Index)
    requires
        max >= 1,
    ensures
        r.first_hash() == hash1_of(e.feed_view()),
        r.second_hash() == hash2_of(e.feed_view()),
        r.bound() == max as u64,
        r.draws() == 0,
{
    let mut h = DefaultHasher::new();
    e.feed(&mut h);
    let hash1 = h.finish();

    let mut g = DefaultHasher::new();
    let seed = u64_to_le_bytes(hash1);
    g.write(seed.as_slice());
    e.feed(&mut g);
    let hash2 = g.finish();

    proof {
        assert(h@ =~= e.feed_view());
        assert(g@ =~= seq![spec_u64_to_le_bytes(hash1)] + e.feed_view());
    }

    Index { h1: hash1, h2: hash2, max: max as u64, i: 0 }
}

/// Double-hash determinism: the generator is a pure function of the
/// element's fed bytes and the bound, so two generators built over elements
/// that feed the same bytes, with the same bound, are equal and yield the
/// same draw at every position forever.
pub proof fn lemma_indexes_deterministic(a: Index, b: Index, v: Seq<Seq<u8>>, max: u64)
    requires
        a.first_hash() == hash1_of(v),
        a.second_hash() == hash2_of(v),
        a.bound() == max,
        a.draws() == 0,
        b.first_hash() == hash1_of(v),
        b.second_hash() == hash2_of(v),
        b.bound() == max,
        b.draws() == 0,
    ensures
        a == b,
        forall|n: u64|
            nth_index(a.first_hash(), a.second_hash(), a.bound(), n) == nth_index(
                b.first_hash(),
                b.second_hash(),
                b.bound(),
                n,
            ),
{
}

/// Whether one of the first `j` draws for fed bytes `v` under bound `len`
/// lands on index `i`.
pub open spec fn hit_upto(v: Seq<Seq<u8>>, len: u64, j: u64, i: int) -> bool {
    exists|n: u64| 1 <= n <= j && #[trigger] nth_draw(v, len, n) == i
}

/// Draw `j` either repeats a hit already made by the first `j - 1` draws or
/// contributes the one new index it lands on.
pub proof fn lemma_hit_step(v: Seq<Seq<u8>>, len: u64, j: u64, i: int)
    requires
        j >= 1,
    ensures
        hit_upto(v, len, j, i) <==> (hit_upto(v, len, (j - 1) as u64, i) || nth_draw(v, len, j)
            == i),
{
    if hit_upto(v, len, j, i) {
        let n = choose|n: u64| 1 <= n <= j && #[trigger] nth_draw(v, len, n) == i;
        if n <= j - 1 {
            assert(hit_upto(v, len, (j - 1) as u64, i));
        }
    }
    if hit_upto(v, len, (j - 1) as u64, i) {
        let n = choose|n: u64| 1 <= n <= (j - 1) as u64 && #[trigger] nth_draw(v, len, n) == i;
        assert(1 <= n <= j && nth_draw(v, len, n) == i);
    }
    if nth_draw(v, len, j) == i {
        assert(1 <= j <= j && nth_draw(v, len, j) == i);
    }
}

/// The unsigned bit pattern of a signed 32-bit value.
pub open spec fn i32_bits(x: i32) -> u32 {
    if x >= 0 {
        x as u32
    } else {
        (x + 0x1_0000_0000) as u32
    }
}

/// The unsigned bit pattern of a signed 64-bit value.
pub open spec fn i64_bits(x: i64) -> u64 {
    if x >= 0 {
        x as u64
    } else {
        (x + 0x1_0000_0000_0000_0000) as u64
    }
}

fn i32_to_bits(x: i32) -> (r: u32)
    ensures
        r == i32_bits(x),
{
    if x >= 0 {
        x as u32
    } else {
        ((x as i64) + 0x1_0000_0000i64) as u32
    }
}

fn i64_to_bits(x: i64) -> (r: u64)
    ensures
        r == i64_bits(x),
{
    if x >= 0 {
        x as u64
    } else {
        ((x as i128) + 0x1_0000_0000_0000_0000i128) as u64
    }
}

/// Integers feed their little-endian bytes, unsigned ones directly and
/// signed ones through their two's-complement bit pattern.
impl Hashable for u32 {
    open spec fn feed_view(&self) -> Seq<Seq<u8>> {
        seq![spec_u32_to_le_bytes(*self)]
    }

    fn feed(&self, h: &mut DefaultHasher) {
        let bytes = u32_to_le_bytes(*self);
        h.write(bytes.as_slice());
        proof {
            assert(h@ =~= old(h)@ + self.feed_view());
        }
    }

    fn feed_eq(&self, other: &Self) -> (r: bool) {
        proof {
            lemma_auto_spec_u32_to_from_le_bytes();
            assert(spec_u32_to_le_bytes(*self).len() == 4);
            assert(spec_u32_to_le_bytes(*other).len() == 4);
            if self.feed_view() == other.feed_view() {
                assert(self.feed_view()[0] == other.feed_view()[0]);
                assert(spec_u32_from_le_bytes(self.feed_view()[0]) == spec_u32_from_le_bytes(
                    other.feed_view()[0],
                ));
            }
        }
        *self == *other
    }
}

impl Hashable for u64 {
    open spec fn feed_view(&self) -> Seq<Seq<u8>> {
        seq![spec_u64_to_le_bytes(*self)]
    }

    fn feed(&self, h: &mut DefaultHasher) {
        let bytes = u64_to_le_bytes(*self);
        h.write(bytes.as_slice());
        proof {
            assert(h@ =~= old(h)@ + self.feed_view());
        }
    }

    fn feed_eq(&self, other: &Self) -> (r: bool) {
        proof {
            lemma_auto_spec_u64_to_from_le_bytes();
            assert(spec_u64_to_le_bytes(*self).len() == 8);
            assert(spec_u64_to_le_bytes(*other).len() == 8);
            if self.feed_view() == other.feed_view() {
                assert(self.feed_view()[0] == other.feed_view()[0]);
                assert(spec_u64_from_le_bytes(self.feed_view()[0]) == spec_u64_from_le_bytes(
                    other.feed_view()[0],
                ));
            }
        }
        *self == *other
    }
}

impl Hashable for i32 {
    open spec fn feed_view(&self) -> Seq<Seq<u8>> {
        seq![spec_u32_to_le_bytes(i32_bits(*self))]
    }

    fn feed(&self, h: &mut DefaultHasher) {
        let bytes = u32_to_le_bytes(i32_to_bits(*self));
        h.write(bytes.as_slice());
        proof {
            assert(h@ =~= old(h)@ + self.feed_view());
        }
    }

    fn feed_eq(&self, other: &Self) -> (r: bool) {
        proof {
            lemma_auto_spec_u32_to_from_le_bytes();
            assert(spec_u32_to_le_bytes(i32_bits(*self)).len() == 4);
            assert(spec_u32_to_le_bytes(i32_bits(*other)).len() == 4);
            if self.feed_view() == other.feed_view() {
                assert(self.feed_view()[0] == other.feed_view()[0]);
                assert(spec_u32_from_le_bytes(self.feed_view()[0]) == spec_u32_from_le_bytes(
                    other.feed_view()[0],
                ));
            }
        }
        *self == *other
    }
}

impl Hashable for i64 {
    open spec fn feed_view(&self) -> Seq<Seq<u8>> {
        seq![spec_u64_to_le_bytes(i64_bits(*self))]
    }

    fn feed(&self, h: &mut DefaultHasher) {
        let bytes = u64_to_le_bytes(i64_to_bits(*self));
        h.write(bytes.as_slice());
        proof {
            assert(h@ =~= old(h)@ + self.feed_view());
        }
    }

    fn feed_eq(&self, other: &Self) -> (r: bool) {
        proof {
            lemma_auto_spec_u64_to_from_le_bytes();
            assert(spec_u64_to_le_bytes(i64_bits(*self)).len() == 8);
            assert(spec_u64_to_le_bytes(i64_bits(*other)).len() == 8);
            if self.feed_view() == other.feed_view() {
                assert(self.feed_view()[0] == other.feed_view()[0]);
                assert(spec_u64_from_le_bytes(self.feed_view()[0]) == spec_u64_from_le_bytes(
                    other.feed_view()[0],
                ));
            }
        }
        *self == *other
    }
}

/// Decide whether two byte slices hold the same bytes.
fn bytes_eq(a: &[u8], b: &[u8]) -> (r: bool)
    ensures
        r == (a@ == b@),
{
    if a.len() != b.len() {
        return false;
    }
    let mut i: usize = 0;
    while i < a.len()
        invariant
            i <= a@.len(),
            a@.len() == b@.len(),
            forall|j: int| 0 <= j < i ==> a@[j] == b@[j],
        decreases a@.len() - i,
    {
        if a[i] != b[i] {
            return false;
        }
        i = i + 1;
    }
    proof {
        assert(a@ =~= b@);
    }
    true
}

/// Strings feed their bytes and then one terminator byte, so that feeding
/// two strings in a row can never collide with feeding their concatenation.
impl Hashable for &str {
    open spec fn feed_view(&self) -> Seq<Seq<u8>> {
        seq![self.spec_bytes(), seq![0xffu8]]
    }

    fn feed(&self, h: &mut DefaultHasher) {
        h.write(self.as_bytes());
        let mut tail: Vec<u8> = Vec::new();
        tail.push(0xffu8);
        h.write(tail.as_slice());
        proof {
            assert(tail@ =~= seq![0xffu8]);
            assert(h@ =~= old(h)@ + self.feed_view());
        }
    }

    fn feed_eq(&self, other: &Self) -> (r: bool) {
        let r = bytes_eq(self.as_bytes(), other.as_bytes());
        proof {
            if self.feed_view() == other.feed_view() {
                assert(self.feed_view()[0] == other.feed_view()[0]);
            }
            if self.spec_bytes() == other.spec_bytes() {
                assert(self.feed_view() =~= other.feed_view());
            }
        }
        r
    }
}

} // verus!
