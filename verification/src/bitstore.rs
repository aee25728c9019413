//! Trusted boundary around `bitvec_simd::BitVec`, the packed bit storage that
//! backs the grid. `BitVec` is an alias of a generic SIMD-backed struct whose
//! generics Verus cannot declare, so the vector sits in an opaque struct of
//! our own. Each wrapper states over `bits_of` what the corresponding
//! `BitVec` method does; everything above this module is verified against
//! these contracts.
//!
//! The counting and comparison wrappers lean on the vector's representation
//! invariant that storage bits past the length stay clear. Every operation
//! wrapped here preserves it; the crate's bitwise inverse, which for some
//! lengths does not, is deliberately not wrapped (the grid complements its
//! cells one by one instead).
use crate::bitspec::{all_false, and_bits, count_trues, or_bits};
use vstd::prelude::*;

verus! {

/// Packed bit storage. Opaque to the verifier: all knowledge of the bits
/// goes through `bits_of` and the wrappers below.
#[verifier::external_body]
pub struct PackedBits {
    bv: bitvec_simd::BitVec,
}

/// The logical bit sequence the storage holds: bit `i` of the vector, for
/// `i` below its length.
pub uninterp spec fn bits_of(pb: PackedBits) -> Seq<bool>;

/// Relies on BitVec::zeros: a vector of `nbits` clear bits.
#[verifier::external_body]
pub(crate) fn bv_zeros(nbits: usize) -> (r: PackedBits)
    ensures
        bits_of(r) == all_false(nbits as nat),
{
    PackedBits { bv: bitvec_simd::BitVec::zeros(nbits) }
}

/// Relies on BitVec::len: the number of bits the vector holds.
#[verifier::external_body]
pub(crate) fn bv_len(a: &PackedBits) -> (r: usize)
    ensures
        r == bits_of(*a).len(),
{
    a.bv.len()
}

/// Relies on BitVec::get_unchecked: bit `i` of the vector; it panics when
/// `i` is out of range, so the index must be below the length.
#[verifier::external_body]
pub(crate) fn bv_get(a: &PackedBits, i: usize) -> (r: bool)
    requires
        i < bits_of(*a).len(),
    ensures
        r == bits_of(*a)[i as int],
{
    a.bv.get_unchecked(i)
}

/// Relies on BitVec::set: writes bit `i`; for an index below the length it
/// changes that bit alone (beyond the length it would grow the vector, so
/// the index must be in range).
#[verifier::external_body]
pub(crate) fn bv_set(a: &mut PackedBits, i: usize, v: bool)
    requires
        i < bits_of(*old(a)).len(),
    ensures
        bits_of(*final(a)) == bits_of(*old(a)).update(i as int, v),
{
    a.bv.set(i, v)
}

/// Relies on BitVec::count_ones: the number of set bits. The crate
/// accumulates the count in 32 bits, so it is only exact while the count
/// cannot reach 2^32; the length bound guarantees that.
#[verifier::external_body]
pub(crate) fn bv_count_ones(a: &PackedBits) -> (r: usize)
    requires
        bits_of(*a).len() < 0x1_0000_0000,
    ensures
        r == count_trues(bits_of(*a)),
{
    a.bv.count_ones()
}

/// Relies on BitVec::count_ones_before: the number of set bits at positions
/// below `i`; it panics when `i` exceeds the length. Like count_ones it
/// accumulates in 32 bits, so the length must stay below 2^32.
#[verifier::external_body]
pub(crate) fn bv_count_ones_before(a: &PackedBits, i: usize) -> (r: usize)
    requires
        i <= bits_of(*a).len(),
        bits_of(*a).len() < 0x1_0000_0000,
    ensures
        r == count_trues(bits_of(*a).take(i as int)),
{
    a.bv.count_ones_before(i)
}

/// Relies on BitVec::and_inplace: pointwise conjunction with `b`; it panics
/// on a length mismatch, so the lengths must agree.
#[verifier::external_body]
pub(crate) fn bv_and_inplace(a: &mut PackedBits, b: &PackedBits)
    requires
        bits_of(*old(a)).len() == bits_of(*b).len(),
    ensures
        bits_of(*final(a)) == and_bits(bits_of(*old(a)), bits_of(*b)),
{
    a.bv.and_inplace(&b.bv)
}

/// Relies on BitVec::or (the BitOr impl): pointwise disjunction; it panics
/// on a length mismatch, so the lengths must agree.
#[verifier::external_body]
pub(crate) fn bv_or(a: PackedBits, b: PackedBits) -> (r: PackedBits)
    requires
        bits_of(a).len() == bits_of(b).len(),
    ensures
        bits_of(r) == or_bits(bits_of(a), bits_of(b)),
{
    PackedBits { bv: a.bv | b.bv }
}

/// Relies on BitVec's PartialEq: bitwise comparison of two vectors of equal
/// length (it panics on a length mismatch).
#[verifier::external_body]
pub(crate) fn bv_eq(a: &PackedBits, b: &PackedBits) -> (r: bool)
    requires
        bits_of(*a).len() == bits_of(*b).len(),
    ensures
        r == (bits_of(*a) == bits_of(*b)),
{
    a.bv == b.bv
}

/// Relies on BitVec's derived Clone: a copy holding the same bits.
#[verifier::external_body]
pub(crate) fn bv_clone(a: &PackedBits) -> (r: PackedBits)
    ensures
        bits_of(r) == bits_of(*a),
{
    PackedBits { bv: a.bv.clone() }
}

} // verus!
