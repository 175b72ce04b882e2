//! Trusted declarations for the fixed-capacity vectors that hold the
//! physical region table and its bump cursors.
//!
//! The region table has a hard cap of eight entries, fixed at boot before
//! any general allocation exists, so it lives in an `arrayvec::ArrayVec`
//! rather than a growable vector. Verus does not read that crate; the
//! wrappers below state, over the two uninterpreted contents functions,
//! exactly what the crate's source shows.

use vstd::prelude::*;

verus! {

#[verifier::external_type_specification]
#[verifier::external_body]
#[verifier::reject_recursive_types(T)]
pub struct ExArrayVec<T, const CAP: usize>(arrayvec::ArrayVec<T, CAP>);

/// The slots a region vector holds, oldest first. Each slot is a
/// half-open physical range `(begin, end)`.
pub uninterp spec fn region_slots(v: arrayvec::ArrayVec<(u64, u64), 8>) -> Seq<(u64, u64)>;

/// The slots a cursor vector holds, parallel to the region vector.
pub uninterp spec fn cursor_slots(v: arrayvec::ArrayVec<u64, 8>) -> Seq<u64>;

/// Relies on `ArrayVec::new`: a freshly created vector is empty.
#[verifier::external_body]
pub fn region_vec_new() -> (v: arrayvec::ArrayVec<(u64, u64), 8>)
    ensures
        region_slots(v) == Seq::<(u64, u64)>::empty(),
{
    arrayvec::ArrayVec::new()
}

/// Relies on `ArrayVec::try_push`: appends when below capacity and
/// reports an error, leaving the vector unchanged, when full.
#[verifier::external_body]
pub fn region_vec_try_push(v: &mut arrayvec::ArrayVec<(u64, u64), 8>, begin: u64, end: u64)
    -> (ok: bool)
    ensures
        ok ==> region_slots(*old(v)).len() < 8
            && region_slots(*final(v)) == region_slots(*old(v)).push((begin, end)),
        !ok ==> region_slots(*old(v)).len() == 8 && *final(v) == *old(v),
{
    v.try_push((begin, end)).is_ok()
}

/// Relies on `ArrayVec::len`: the number of slots held.
#[verifier::external_body]
pub fn region_vec_len(v: &arrayvec::ArrayVec<(u64, u64), 8>) -> (n: usize)
    ensures
        n == region_slots(*v).len(),
{
    v.len()
}

/// Relies on the slice indexing `ArrayVec` dereferences to.
#[verifier::external_body]
pub fn region_vec_get(v: &arrayvec::ArrayVec<(u64, u64), 8>, i: usize) -> (r: (u64, u64))
    requires
        i < region_slots(*v).len(),
    ensures
        r == region_slots(*v)[i as int],
{
    v[i]
}

/// Relies on `ArrayVec::new`: a freshly created vector is empty.
#[verifier::external_body]
pub fn cursor_vec_new() -> (v: arrayvec::ArrayVec<u64, 8>)
    ensures
        cursor_slots(v) == Seq::<u64>::empty(),
{
    arrayvec::ArrayVec::new()
}

/// Relies on `ArrayVec::try_push`: appends when below capacity and
/// reports an error, leaving the vector unchanged, when full.
#[verifier::external_body]
pub fn cursor_vec_try_push(v: &mut arrayvec::ArrayVec<u64, 8>, x: u64) -> (ok: bool)
    ensures
        ok ==> cursor_slots(*old(v)).len() < 8
            && cursor_slots(*final(v)) == cursor_slots(*old(v)).push(x),
        !ok ==> cursor_slots(*old(v)).len() == 8 && *final(v) == *old(v),
{
    v.try_push(x).is_ok()
}

/// Relies on `ArrayVec::len`: the number of slots held.
#[verifier::external_body]
pub fn cursor_vec_len(v: &arrayvec::ArrayVec<u64, 8>) -> (n: usize)
    ensures
        n == cursor_slots(*v).len(),
{
    v.len()
}

/// Relies on the slice indexing `ArrayVec` dereferences to.
#[verifier::external_body]
pub fn cursor_vec_get(v: &arrayvec::ArrayVec<u64, 8>, i: usize) -> (r: u64)
    requires
        i < cursor_slots(*v).len(),
    ensures
        r == cursor_slots(*v)[i as int],
{
    v[i]
}

/// Relies on `ArrayVec::as_mut_slice`: writing one element in place.
#[verifier::external_body]
pub fn cursor_vec_set(v: &mut arrayvec::ArrayVec<u64, 8>, i: usize, x: u64)
    requires
        i < cursor_slots(*old(v)).len(),
    ensures
        cursor_slots(*final(v)) == cursor_slots(*old(v)).update(i as int, x),
{
    v.as_mut_slice()[i] = x;
}

} // verus!
