//! A mask over the positions of a log: one bit for each position, kept in a
//! bit vector of the `bitvec` crate.

use vstd::prelude::*;

verus! {

/// A sequence of bits, one for each position of a log.
#[verifier::external_body]
pub struct LogMask {
    bits: bitvec::vec::BitVec,
}

/// The bits of a mask, by position.
pub uninterp spec fn mask_bits(mask: LogMask) -> Seq<bool>;

impl View for LogMask {
    type V = Seq<bool>;

    open spec fn view(&self) -> Seq<bool> {
        mask_bits(*self)
    }
}

/// `BitVec::repeat` with `false`: a mask of `len` bits, none of them set.
#[verifier::external_body]
pub(crate) fn mask_new(len: usize) -> (mask: LogMask)
    ensures
        mask_bits(mask).len() == len,
        forall|i: int| 0 <= i < len ==> !(#[trigger] mask_bits(mask)[i]),
{
    LogMask { bits: bitvec::vec::BitVec::repeat(false, len) }
}

/// `BitSlice::set`: writes one bit and leaves the others. It panics on a
/// position outside the mask, which `requires` leaves out.
#[verifier::external_body]
pub(crate) fn mask_set(mask: &mut LogMask, index: usize, value: bool)
    requires
        index < mask_bits(*old(mask)).len(),
    ensures
        mask_bits(*final(mask)) == mask_bits(*old(mask)).update(index as int, value),
{
    mask.bits.set(index, value);
}

/// `BitSlice::first_one`: the position of the first bit that is set, if one
/// is.
#[verifier::external_body]
pub(crate) fn mask_first_one(mask: &LogMask) -> (first: Option<usize>)
    ensures
        match first {
            Some(i) => i < mask_bits(*mask).len() && mask_bits(*mask)[i as int] && forall|j: int|
                0 <= j < i ==> !(#[trigger] mask_bits(*mask)[j]),
            None => forall|j: int| 0 <= j < mask_bits(*mask).len() ==> !(#[trigger] mask_bits(*mask)[j]),
        },
{
    mask.bits.first_one()
}

/// `BitSlice::iter_ones`: the positions of the bits that are set, in
/// rising order.
#[verifier::external_body]
pub(crate) fn mask_ones(mask: &LogMask) -> (ones: Vec<usize>)
    ensures
        forall|k: int| 0 <= k < ones@.len() ==> (#[trigger] ones@[k]) < mask_bits(*mask).len() && mask_bits(*mask)[ones@[k] as int],
        forall|a: int, b: int| 0 <= a < b < ones@.len() ==> ones@[a] < ones@[b],
        forall|i: int|
            0 <= i < mask_bits(*mask).len() && #[trigger] mask_bits(*mask)[i] ==> exists|k: int|
                0 <= k < ones@.len() && #[trigger] ones@[k] == i,
{
    mask.bits.iter_ones().collect()
}

/// `BitVec::not`: the mask with every bit inverted.
#[verifier::external_body]
pub(crate) fn mask_not(mask: LogMask) -> (inverse: LogMask)
    ensures
        mask_bits(inverse).len() == mask_bits(mask).len(),
        forall|i: int| 0 <= i < mask_bits(mask).len() ==> #[trigger] mask_bits(inverse)[i] == !mask_bits(mask)[i],
{
    LogMask { bits: !mask.bits }
}

/// `BitVec::bitand`: the bits that are set in both masks, which have the
/// same length.
#[verifier::external_body]
pub(crate) fn mask_and(left: LogMask, right: LogMask) -> (both: LogMask)
    requires
        mask_bits(left).len() == mask_bits(right).len(),
    ensures
        mask_bits(both).len() == mask_bits(left).len(),
        forall|i: int| 0 <= i < mask_bits(left).len() ==> #[trigger] mask_bits(both)[i] == (mask_bits(left)[i] && mask_bits(right)[i]),
{
    LogMask { bits: left.bits & right.bits }
}

/// `BitVec::clone`: a mask with the same bits.
#[verifier::external_body]
pub(crate) fn mask_clone(mask: &LogMask) -> (copy: LogMask)
    ensures
        mask_bits(copy) == mask_bits(*mask),
{
    LogMask { bits: mask.bits.clone() }
}

} // verus!
