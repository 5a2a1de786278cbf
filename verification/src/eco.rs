//! The copy-on-write vector of the `ecow` crate, as far as this library uses it.

use crate::table::id_limit;
use ecow::EcoVec;
use vstd::prelude::*;

verus! {

/// The copy-on-write vector `ecow::EcoVec`. What a vector holds is given a name for each kind of
/// element that is stored in one.
#[verifier::external_type_specification]
#[verifier::external_body]
#[verifier::reject_recursive_types(T)]
pub struct ExEcoVec<T>(EcoVec<T>);

/// The bytes that an `EcoVec<u8>` holds, in order.
pub uninterp spec fn eco_bytes(v: EcoVec<u8>) -> Seq<u8>;

/// The numbers that an `EcoVec<u32>` holds, in order.
pub uninterp spec fn eco_ids(v: EcoVec<u32>) -> Seq<u32>;

/// The longest byte vector that can be grown without overflowing an allocation size: growing at
/// most doubles what is needed, and an allocation holds at most `isize::MAX` bytes.
pub open spec fn bytes_limit() -> int {
    usize::MAX as int / 8
}

/// `EcoVec::new`: a vector without elements.
#[verifier::external_body]
pub(crate) fn bytes_new() -> (v: EcoVec<u8>)
    ensures
        eco_bytes(v) == Seq::<u8>::empty(),
{
    EcoVec::new()
}

/// `EcoVec::with_capacity`: a vector without elements. It panics when the allocation would be too
/// large, which the bound on `capacity` rules out.
#[verifier::external_body]
pub(crate) fn bytes_with_capacity(capacity: usize) -> (v: EcoVec<u8>)
    requires
        capacity <= bytes_limit(),
    ensures
        eco_bytes(v) == Seq::<u8>::empty(),
{
    EcoVec::with_capacity(capacity)
}

/// `EcoVec::as_slice`: all elements, in order.
#[verifier::external_body]
pub(crate) fn bytes_slice(v: &EcoVec<u8>) -> (s: &[u8])
    ensures
        s@ == eco_bytes(*v),
{
    v.as_slice()
}

/// `EcoVec::reserve`: makes room for `additional` elements and keeps the elements as they are. It
/// panics when the allocation would be too large, which the bound rules out.
#[verifier::external_body]
pub(crate) fn bytes_reserve(v: &mut EcoVec<u8>, additional: usize)
    requires
        eco_bytes(*old(v)).len() + additional <= bytes_limit(),
    ensures
        eco_bytes(*final(v)) == eco_bytes(*old(v)),
{
    v.reserve(additional)
}

/// `EcoVec::push`: adds one element at the end. It panics when the allocation would be too large,
/// which the bound rules out.
#[verifier::external_body]
pub(crate) fn bytes_push(v: &mut EcoVec<u8>, byte: u8)
    requires
        eco_bytes(*old(v)).len() < bytes_limit(),
    ensures
        eco_bytes(*final(v)) == eco_bytes(*old(v)).push(byte),
{
    v.push(byte)
}

/// `EcoVec::pop`: removes the last element and returns it, or leaves an empty vector as it is.
#[verifier::external_body]
pub(crate) fn bytes_pop(v: &mut EcoVec<u8>) -> (last: Option<u8>)
    ensures
        match last {
            Some(byte) => eco_bytes(*old(v)).len() > 0 && byte == eco_bytes(*old(v)).last()
                && eco_bytes(*final(v)) == eco_bytes(*old(v)).drop_last(),
            None => eco_bytes(*old(v)).len() == 0 && eco_bytes(*final(v)) == eco_bytes(*old(v)),
        },
{
    v.pop()
}

/// `EcoVec::truncate`: keeps the first `target` elements, or all where there are fewer.
#[verifier::external_body]
pub(crate) fn bytes_truncate(v: &mut EcoVec<u8>, target: usize)
    ensures
        eco_bytes(*final(v)) == if target < eco_bytes(*old(v)).len() {
            eco_bytes(*old(v)).take(target as int)
        } else {
            eco_bytes(*old(v))
        },
{
    v.truncate(target)
}

/// `EcoVec::extend_from_slice`: adds the elements of `slice` at the end. It panics when the
/// allocation would be too large, which the bound rules out.
#[verifier::external_body]
pub(crate) fn bytes_extend(v: &mut EcoVec<u8>, slice: &[u8])
    requires
        eco_bytes(*old(v)).len() + slice@.len() <= bytes_limit(),
    ensures
        eco_bytes(*final(v)) == eco_bytes(*old(v)) + slice@,
{
    v.extend_from_slice(slice)
}

/// `EcoVec::clone`: a second vector over the same elements.
#[verifier::external_body]
pub(crate) fn bytes_clone(v: &EcoVec<u8>) -> (copy: EcoVec<u8>)
    ensures
        eco_bytes(copy) == eco_bytes(*v),
{
    v.clone()
}

/// `EcoVec::with_capacity`: a vector without elements. It panics when the allocation would be too
/// large, which the bound on `capacity` rules out.
#[verifier::external_body]
pub(crate) fn ids_with_capacity(capacity: usize) -> (v: EcoVec<u32>)
    requires
        capacity <= 0x100_0000,
    ensures
        eco_ids(v) == Seq::<u32>::empty(),
{
    EcoVec::with_capacity(capacity)
}

/// `EcoVec::as_slice`: all elements, in order.
#[verifier::external_body]
pub(crate) fn ids_slice(v: &EcoVec<u32>) -> (s: &[u32])
    ensures
        s@ == eco_ids(*v),
{
    v.as_slice()
}

/// `EcoVec::push`: adds one element at the end. It panics when the allocation would be too large,
/// which the bound rules out.
#[verifier::external_body]
pub(crate) fn ids_push(v: &mut EcoVec<u32>, id: u32)
    requires
        eco_ids(*old(v)).len() < id_limit(),
    ensures
        eco_ids(*final(v)) == eco_ids(*old(v)).push(id),
{
    v.push(id)
}

} // verus!
