//! The packed bit storage behind a mask: a `bitvec::vec::BitVec`, seen
//! through the sequence of bits it holds.
//!
//! Verus cannot take a declaration of `BitVec` itself (its generic bounds are
//! traits of `bitvec`), so the vector sits in the private field of `Bits`,
//! which Verus sees only through `bits_of`.
use vstd::prelude::*;
use bitvec::vec::BitVec;

verus! {

/// A packed vector of bits.
#[verifier::external_body]
pub struct Bits {
    inner: BitVec,
}

/// The bits a `Bits` holds, in index order.
pub uninterp spec fn bits_of(v: Bits) -> Seq<bool>;

impl Clone for Bits {
    /// `BitVec::clone`: a vector holding the same bits.
    #[verifier::external_body]
    fn clone(&self) -> (r: Self)
        ensures
            bits_of(r) == bits_of(*self),
    {
        Bits { inner: self.inner.clone() }
    }
}

/// `BitVec == BitVec`: true exactly when the two hold the same bits.
#[verifier::external_body]
fn bits_equal(a: &Bits, b: &Bits) -> (r: bool)
    ensures
        r == (bits_of(*a) == bits_of(*b)),
{
    a.inner == b.inner
}

impl PartialEq for Bits {
    fn eq(&self, other: &Self) -> (r: bool) {
        bits_equal(self, other)
    }
}

impl vstd::std_specs::cmp::PartialEqSpecImpl for Bits {
    open spec fn obeys_eq_spec() -> bool {
        true
    }

    open spec fn eq_spec(&self, other: &Self) -> bool {
        bits_of(*self) == bits_of(*other)
    }
}

impl Eq for Bits {
}

/// The longest vector `bitvec` can hold: `BitSlice::MAX_BITS`, which is
/// `usize::MAX >> 3`.
pub open spec fn max_bits() -> int {
    usize::MAX as int / 8
}

/// `BitVec::repeat(bit, len)`: a vector of `len` copies of `bit`. The crate
/// panics when `len` is past its region limit, which `requires` leaves out.
#[verifier::external_body]
pub(crate) fn bits_repeat(bit: bool, len: usize) -> (r: Bits)
    requires
        len <= max_bits(),
    ensures
        bits_of(r) == Seq::new(len as nat, |i: int| bit),
{
    Bits { inner: BitVec::repeat(bit, len) }
}

/// Indexing a `BitVec` (`Index<usize>` of `BitSlice`): the bit at `index`.
/// It panics out of bounds, which `requires` leaves out.
#[verifier::external_body]
pub(crate) fn bits_get(v: &Bits, index: usize) -> (r: bool)
    requires
        index < bits_of(*v).len(),
    ensures
        r == bits_of(*v)[index as int],
{
    v.inner[index]
}

/// `BitSlice::set`: writes `value` at `index` and keeps every other bit and
/// the length. It panics out of bounds, which `requires` leaves out.
#[verifier::external_body]
pub(crate) fn bits_set(v: &mut Bits, index: usize, value: bool)
    requires
        index < bits_of(*old(v)).len(),
    ensures
        bits_of(*final(v)) == bits_of(*old(v)).update(index as int, value),
{
    v.inner.set(index, value)
}

} // verus!
