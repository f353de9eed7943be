use vstd::prelude::*;
use bitvec::vec::BitVec;

verus! {

/// A sequence of single bits, backed by bitvec's `BitVec`.
///
/// The backing vector is opaque to the verifier; everything the library
/// proves about it goes through `bit_vec_bits` and the wrappers below.
#[verifier::external_body]
pub struct WaterBits {
    bits: BitVec,
}

/// The bits held by a `WaterBits`, in index order.
pub uninterp spec fn bit_vec_bits(b: WaterBits) -> Seq<bool>;

impl WaterBits {
    /// Relies on `BitVec::repeat`: builds a vector of `len` copies of one bit.
    #[verifier::external_body]
    pub fn new_zeroed(len: usize) -> (r: WaterBits)
        ensures
            bit_vec_bits(r) == Seq::new(len as nat, |i: int| false),
    {
        WaterBits { bits: BitVec::repeat(false, len) }
    }

    /// Relies on `BitSlice::len`: the number of bits stored.
    #[verifier::external_body]
    pub fn len(&self) -> (r: usize)
        ensures
            r == bit_vec_bits(*self).len(),
    {
        self.bits.len()
    }

    /// Relies on `BitSlice::get`: reads the bit at `index`.
    #[verifier::external_body]
    pub fn get(&self, index: usize) -> (r: bool)
        requires
            index < bit_vec_bits(*self).len(),
        ensures
            r == bit_vec_bits(*self)[index as int],
    {
        *self.bits.get(index).unwrap()
    }

    /// Relies on `BitSlice::set`: writes the bit at `index`.
    #[verifier::external_body]
    pub fn set(&mut self, index: usize, value: bool)
        requires
            index < bit_vec_bits(*old(self)).len(),
        ensures
            bit_vec_bits(*final(self)) == bit_vec_bits(*old(self)).update(index as int, value),
    {
        self.bits.set(index, value);
    }
}

} // verus!
