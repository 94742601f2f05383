//! Probabilistic summary structures for streaming data: a Bloom filter,
//! a Count-Min sketch, a Top-K tracker built on the sketch, and a uniform
//! reservoir sample. Each keeps a compact, fixed-memory approximation of a
//! stream and answers one kind of query (membership, frequency, top elements,
//! or sample) with one-sided, bounded error.

mod bits;
pub mod bloomfilter;
pub mod countmin;
pub mod hash;
pub mod reservoir;
pub mod topk;

pub use bloomfilter::BloomFilter;
pub use bloomfilter::BloomModel;
pub use countmin::CountMinSketch;
pub use countmin::SketchModel;
pub use hash::indexes;
pub use hash::Hashable;
pub use hash::Index;
pub use reservoir::ReservoirSample;
pub use topk::TopK;
pub use topk::TopKModel;
