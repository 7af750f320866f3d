//! The vector of bits that marks the accepting states of a table-driven
//! automaton.

use vstd::prelude::*;

verus! {

/// `bit_vec::BitVec`, a growable vector of bits; what it holds is known
/// through [`bits`] alone.
#[verifier::external_type_specification]
#[verifier::external_body]
#[verifier::reject_recursive_types(B)]
pub struct ExBitVec<B>(bit_vec::BitVec<B>);

/// The bits that a `BitVec` holds, in the order of their indices.
pub uninterp spec fn bits(v: bit_vec::BitVec) -> Seq<bool>;

/// `BitVec::from_fn` with the length of `flags` and the function that looks
/// an index up in `flags`: a vector of as many bits as there are flags, in
/// which bit `i` is flag `i`.
#[verifier::external_body]
pub(crate) fn bits_from_flags(flags: &Vec<bool>) -> (v: bit_vec::BitVec)
    ensures
        bits(v) == flags@,
{
    bit_vec::BitVec::from_fn(flags.len(), |i| flags[i])
}

/// The index operator of `BitVec`: the bit at index `i`.  It panics where
/// `i` is not the index of a bit, so that is required.
#[verifier::external_body]
pub(crate) fn bit_at(v: &bit_vec::BitVec, i: usize) -> (bit: bool)
    requires
        i < bits(*v).len(),
    ensures
        bit == bits(*v)[i as int],
{
    v[i]
}

} // verus!
