//! A packed vector of flags, kept by `bit_vec::BitVec`.
use bit_vec::BitVec;
use vstd::prelude::*;

verus! {

#[verifier::external_type_specification]
#[verifier::external_body]
#[verifier::reject_recursive_types(B)]
pub struct ExBitVec<B>(BitVec<B>);

/// The flags held by a `BitVec`, in order.
pub uninterp spec fn flags_of(v: BitVec) -> Seq<bool>;

/// `BitVec::from_elem`: a vector of `len` flags, each equal to `bit`.
#[verifier::external_body]
pub(crate) fn flags_from_elem(len: usize, bit: bool) -> (r: BitVec)
    ensures
        flags_of(r) == Seq::new(len as nat, |_i: int| bit),
{
    BitVec::from_elem(len, bit)
}

/// `BitVec::get`: the flag at `i`, or `None` past the end.
#[verifier::external_body]
pub(crate) fn flag_at(v: &BitVec, i: usize) -> (r: Option<bool>)
    ensures
        i < flags_of(*v).len() ==> r == Some(flags_of(*v)[i as int]),
        i >= flags_of(*v).len() ==> r is None,
{
    v.get(i)
}

/// `BitVec::set`: replaces the flag at `i`, which must exist (the call
/// panics otherwise).
#[verifier::external_body]
pub(crate) fn set_flag(v: &mut BitVec, i: usize, bit: bool)
    requires
        i < flags_of(*old(v)).len(),
    ensures
        flags_of(*final(v)) == flags_of(*old(v)).update(i as int, bit),
{
    v.set(i, bit)
}

} // verus!
