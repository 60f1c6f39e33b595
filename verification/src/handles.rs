//! Shared, immutable handles: one allocation, many holders.
use std::sync::Arc;
use vstd::prelude::*;

verus! {

/// `Arc::clone`: a new handle to the same allocation, so to an equal value.
#[verifier::external_body]
pub(crate) fn share<T>(a: &Arc<T>) -> (r: Arc<T>)
    ensures r == *a,
{
    Arc::clone(a)
}

/// `Arc::ptr_eq`: whether two handles point to the same allocation. Handles to one
/// allocation hold one value; nothing is claimed when the allocations differ, since equal
/// values may live in distinct allocations.
#[verifier::external_body]
pub(crate) fn same_allocation<T>(a: &Arc<T>, b: &Arc<T>) -> (r: bool)
    ensures r ==> *a == *b,
{
    Arc::ptr_eq(a, b)
}

} // verus!
