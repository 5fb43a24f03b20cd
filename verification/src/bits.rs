use vstd::prelude::*;

verus! {

#[verifier::external_type_specification]
#[verifier::external_body]
#[verifier::reject_recursive_types(B)]
pub struct ExBitVec<B>(bit_vec::BitVec<B>);

/// The bits held by a bit vector, in index order.
pub uninterp spec fn bits_of(b: bit_vec::BitVec) -> Seq<bool>;

/// Relies on bit_vec::BitVec::from_elem: a vector of `len` bits, each equal
/// to `bit`.
#[verifier::external_body]
pub fn bv_from_elem(len: usize, bit: bool) -> (r: bit_vec::BitVec)
    ensures
        bits_of(r) == Seq::new(len as nat, |i: int| bit),
{
    bit_vec::BitVec::from_elem(len, bit)
}

/// Relies on bit_vec::BitVec::get: Some of bit `i` when `i` is in range,
/// None otherwise.
#[verifier::external_body]
pub fn bv_get(b: &bit_vec::BitVec, i: usize) -> (r: Option<bool>)
    ensures
        i < bits_of(*b).len() ==> r == Some(bits_of(*b)[i as int]),
        i >= bits_of(*b).len() ==> r is None,
{
    b.get(i)
}

/// Relies on bit_vec::BitVec::set: writes bit `i`, leaving the others; it
/// panics when `i` is out of range, so that case is excluded here.
#[verifier::external_body]
pub fn bv_set(b: &mut bit_vec::BitVec, i: usize, x: bool)
    requires
        i < bits_of(*old(b)).len(),
    ensures
        bits_of(*final(b)) == bits_of(*old(b)).update(i as int, x),
{
    b.set(i, x)
}

/// Relies on bit_vec::BitVec::all: true exactly when every bit is one.
#[verifier::external_body]
pub fn bv_all(b: &bit_vec::BitVec) -> (r: bool)
    ensures
        r == (forall|i: int| 0 <= i < bits_of(*b).len() ==> bits_of(*b)[i]),
{
    b.all()
}

} // verus!
