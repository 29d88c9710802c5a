//! Sets of node numbers as bitmaps, and their form as bytes.

use bit_set::BitSet;
use vstd::prelude::*;

verus! {

/// `bit_set::BitSet`: a set of numbers, kept as a vector of bits.
#[verifier::external_type_specification]
#[verifier::external_body]
#[verifier::reject_recursive_types(B)]
pub struct ExBitSet<B>(BitSet<B>);

/// The numbers in a bit set.
pub uninterp spec fn bit_set_members(set: BitSet) -> Set<usize>;

/// The length of the vector of bits behind a bit set; every member is less.
pub uninterp spec fn bit_set_width(set: BitSet) -> nat;

/// Whether bit `i` is set, where the first bit is the highest of the first byte.
pub open spec fn bit_at(bytes: Seq<u8>, i: int) -> bool {
    bytes[i / 8] & (0x80u8 >> ((i % 8) as u8)) != 0
}

/// The numbers of the bits that are set.
pub open spec fn bits_of(bytes: Seq<u8>) -> Set<usize> {
    Set::new(|i: usize| i < 8 * bytes.len() && bit_at(bytes, i as int))
}

/// `bit_set::BitSet::contains`: whether `value` is in the set.
#[verifier::external_body]
pub(crate) fn bit_set_contains(set: &BitSet, value: usize) -> (r: bool)
    ensures
        r == bit_set_members(*set).contains(value),
{
    set.contains(value)
}

/// `bit_set::BitSet::len`: how many numbers are in the set.
#[verifier::external_body]
pub(crate) fn bit_set_len(set: &BitSet) -> (n: usize)
    ensures
        n == bit_set_members(*set).len(),
{
    set.len()
}

/// `bit_vec::BitVec::to_bytes` of the bits behind a `bit_set::BitSet`, which
/// `get_ref` gives: eight bits to the byte, from the highest bit down; what the
/// last byte has beyond the vector of bits is clear.
#[verifier::external_body]
pub(crate) fn bit_set_to_bytes(set: &BitSet) -> (bytes: Vec<u8>)
    ensures
        bits_of(bytes@) == bit_set_members(*set),
        bytes@.len() == (bit_set_width(*set) + 7) / 8,
{
    set.get_ref().to_bytes()
}

/// `bit_set::BitSet::from_bytes`: the set of the numbers of the bits that are
/// set. It panics where the number of bits exceeds `usize`.
#[verifier::external_body]
pub(crate) fn bit_set_from_bytes(bytes: &Vec<u8>) -> (set: BitSet)
    requires
        8 * bytes@.len() <= usize::MAX,
    ensures
        bit_set_members(set) == bits_of(bytes@),
        bit_set_width(set) == 8 * bytes@.len(),
{
    BitSet::from_bytes(bytes)
}

/// A bitmap as bytes.
#[derive(Debug)]
pub struct SerializableBitSet(pub Vec<u8>);

impl SerializableBitSet {
    /// The bytes of a bit set.
    pub fn from_bit_set(set: &BitSet) -> (r: SerializableBitSet)
        ensures
            bits_of(r.0@) == bit_set_members(*set),
            r.0@.len() == (bit_set_width(*set) + 7) / 8,
    {
        SerializableBitSet(bit_set_to_bytes(set))
    }

    /// The bit set that the bytes stand for.
    pub fn into_bit_set(self) -> (set: BitSet)
        requires
            8 * self.0@.len() <= usize::MAX,
        ensures
            bit_set_members(set) == bits_of(self.0@),
            bit_set_width(set) == 8 * self.0@.len(),
    {
        bit_set_from_bytes(&self.0)
    }
}

} // verus!
