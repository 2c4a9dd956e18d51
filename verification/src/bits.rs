//! The per-segment candidate bit array, backed by the `bitvec` crate.
//!
//! Verified code sees the array only through `bit_seq`, the sequence of its
//! bits, and the small trusted wrappers below.

use vstd::prelude::*;

use bitvec::order::Lsb0;
use bitvec::vec::BitVec;

verus! {

/// A segment's candidate bit array. The struct is opaque to the verifier;
/// its contents are modelled by `bit_seq` alone.
#[verifier::external_body]
pub struct CandidateBits {
    bits: BitVec<usize, Lsb0>,
}

/// The bits a `CandidateBits` holds, in index order.
pub uninterp spec fn bit_seq(bv: &CandidateBits) -> Seq<bool>;

/// Relies on bitvec's `BitVec::repeat`: a vector of `len` equal bits. The
/// length cap is bitvec's own maximum (`BitSlice::MAX_BITS`), beyond which
/// `repeat` panics.
#[verifier::external_body]
pub fn bits_new(len: usize) -> (r: CandidateBits)
    requires
        len <= usize::MAX / 8,
    ensures
        bit_seq(&r) == Seq::new(len as nat, |i: int| true),
{
    CandidateBits { bits: BitVec::repeat(true, len) }
}

/// Relies on bitvec's `BitSlice::set`: writes one bit in place; panics only
/// when the index is out of bounds, which the precondition rules out.
#[verifier::external_body]
pub fn bits_clear(bv: &mut CandidateBits, idx: usize)
    requires
        idx < bit_seq(old(bv)).len(),
    ensures
        bit_seq(final(bv)) == bit_seq(old(bv)).update(idx as int, false),
{
    bv.bits.set(idx, false);
}

/// Relies on bitvec's `Index<usize>` for `BitSlice`: reads one bit; panics
/// only when the index is out of bounds, which the precondition rules out.
#[verifier::external_body]
pub fn bits_get(bv: &CandidateBits, idx: usize) -> (r: bool)
    requires
        idx < bit_seq(bv).len(),
    ensures
        r == bit_seq(bv)[idx as int],
{
    bv.bits[idx]
}

} // verus!
