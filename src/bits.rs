use vstd::prelude::*;
use bitvec::order::Lsb0;
use bitvec::vec::BitVec;

verus! {

/// A packed sequence of bits, one machine bit per entry, kept in a
/// `bitvec::vec::BitVec<usize, Lsb0>`.
#[verifier::external_body]
pub struct Bits {
    inner: BitVec<usize, Lsb0>,
}

/// The bits held, first to last.
pub uninterp spec fn bits_of(b: Bits) -> Seq<bool>;

/// Longest sequence that `BitVec<usize, Lsb0>` can describe.
pub const MAX_BITS: usize = usize::MAX >> 3;

impl Bits {
    /// Relies on `BitVec::repeat`: `len` copies of `bit`; it panics beyond
    /// the encodable length.
    #[verifier::external_body]
    pub fn repeat(bit: bool, len: usize) -> (b: Bits)
        requires
            len <= MAX_BITS,
        ensures
            bits_of(b) == Seq::new(len as nat, |i: int| bit),
    {
        Bits { inner: BitVec::repeat(bit, len) }
    }

    /// Relies on `BitVec::new`: no bits.
    #[verifier::external_body]
    pub fn new() -> (b: Bits)
        ensures
            bits_of(b) == Seq::<bool>::empty(),
    {
        Bits { inner: BitVec::new() }
    }

    /// Relies on `BitVec::len`: the number of bits held.
    #[verifier::external_body]
    pub fn len(&self) -> (n: usize)
        ensures
            n == bits_of(*self).len(),
    {
        self.inner.len()
    }

    /// Relies on indexing a `BitSlice`: the bit at `i`.
    #[verifier::external_body]
    pub fn get(&self, i: usize) -> (r: bool)
        requires
            i < bits_of(*self).len(),
        ensures
            r == bits_of(*self)[i as int],
    {
        self.inner[i]
    }

    /// Relies on `BitSlice::set`: overwrites the bit at `i`, panicking out
    /// of bounds.
    #[verifier::external_body]
    pub fn set(&mut self, i: usize, value: bool)
        requires
            i < bits_of(*old(self)).len(),
        ensures
            bits_of(*final(self)) == bits_of(*old(self)).update(i as int, value),
    {
        self.inner.set(i, value)
    }

    /// Relies on `BitVec::push`: appends one bit, panicking beyond the
    /// encodable length.
    #[verifier::external_body]
    pub fn push(&mut self, value: bool)
        requires
            bits_of(*old(self)).len() < MAX_BITS,
        ensures
            bits_of(*final(self)) == bits_of(*old(self)).push(value),
    {
        self.inner.push(value)
    }
}

} // verus!
