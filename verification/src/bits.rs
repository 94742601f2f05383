//! Trusted view of the `bit_vec` crate's bit vector, which backs the Bloom
//! filter. The vector's contents are named by `bits_of`; each wrapper states
//! over that name what the crate's source shows the call does.

use bit_vec::BitVec;
use vstd::prelude::*;

verus! {

#[verifier::external_type_specification]
#[verifier::external_body]
#[verifier::reject_recursive_types(B)]
pub struct ExBitVec<B>(BitVec<B>);

/// The bits held by a `bit_vec::BitVec`, in index order.
pub uninterp spec fn bits_of(v: BitVec<u32>) -> Seq<bool>;

/// Relies on `bit_vec::BitVec::from_elem`: a vector of `len` bits, each `bit`.
#[verifier::external_body]
pub(crate) fn bv_from_elem(len: usize, bit: bool) -> (r: BitVec<u32>)
    ensures
        bits_of(r) == Seq::new(len as nat, |i: int| bit),
{
    BitVec::from_elem(len, bit)
}

/// Relies on `bit_vec::BitVec::len`: the number of bits in the vector.
#[verifier::external_body]
pub(crate) fn bv_len(v: &BitVec<u32>) -> (r: usize)
    ensures
        r == bits_of(*v).len(),
{
    v.len()
}

/// Relies on `bit_vec::BitVec::get`: the bit at `i`, which is `Some` exactly
/// when `i` is in bounds.
#[verifier::external_body]
pub(crate) fn bv_get(v: &BitVec<u32>, i: usize) -> (r: bool)
    requires
        i < bits_of(*v).len(),
    ensures
        r == bits_of(*v)[i as int],
{
    v.get(i).unwrap()
}

/// Relies on `bit_vec::BitVec::set`: writes the bit at `i` and leaves every
/// other bit alone; `i` out of bounds panics, so it is required away.
#[verifier::external_body]
pub(crate) fn bv_set(v: &mut BitVec<u32>, i: usize, x: bool)
    requires
        i < bits_of(*old(v)).len(),
    ensures
        bits_of(*final(v)) == bits_of(*old(v)).update(i as int, x),
{
    v.set(i, x)
}

/// Relies on `bit_vec::BitVec::or`: replaces `v` with the bitwise union of
/// the two vectors, which must have equal lengths (unequal lengths panic),
/// and reports whether any bit of `v` changed.
#[verifier::external_body]
pub(crate) fn bv_or(v: &mut BitVec<u32>, other: &BitVec<u32>) -> (changed: bool)
    requires
        bits_of(*old(v)).len() == bits_of(*other).len(),
    ensures
        bits_of(*final(v)) == Seq::new(
            bits_of(*old(v)).len(),
            |i: int| bits_of(*old(v))[i] || bits_of(*other)[i],
        ),
        changed == (bits_of(*final(v)) != bits_of(*old(v))),
{
    v.or(other)
}

} // verus!
