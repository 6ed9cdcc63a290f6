//! Shared handles: a second handle to a value and the test of whether two
//! handles are one instance, which is what identity means for declarations,
//! groups, plugins and rules.
use std::sync::Arc;
use vstd::prelude::*;

verus! {

/// `Arc::clone`: a second handle to the same value, equal to the first.
#[verifier::external_body]
pub(crate) fn share<T>(value: &Arc<T>) -> (r: Arc<T>)
    ensures
        r == *value,
{
    Arc::clone(value)
}

/// `Arc::ptr_eq`: whether both handles point to the same instance. Two
/// handles to one instance hold equal values; whether two equal values are
/// one instance depends on where they were allocated, which is not stated.
#[verifier::external_body]
pub(crate) fn same_instance<T>(a: &Arc<T>, b: &Arc<T>) -> (r: bool)
    ensures
        r ==> *a == *b,
{
    Arc::ptr_eq(a, b)
}

} // verus!
