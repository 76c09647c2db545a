//! Cache-line padding for the cache's shared counters.
//!
//! The slot reader counters and the two cache-wide fields (the published
//! index and the writer exclusion flag) each sit in their own
//! `crossbeam::utils::CachePadded` cell so that neighbouring fields do not
//! share a cache line. `CachePadded<T>` is a plain aligned newtype around
//! `T`: `new` stores a value and `Deref` hands it back.

use vstd::prelude::*;

verus! {

#[verifier::external_type_specification]
#[verifier::external_body]
#[verifier::reject_recursive_types(T)]
pub struct ExCachePadded<T>(crossbeam::utils::CachePadded<T>);

/// The value stored in a `CachePadded<usize>` cell.
pub uninterp spec fn padded_usize(p: crossbeam::utils::CachePadded<usize>) -> usize;

/// The value stored in a `CachePadded<bool>` cell.
pub uninterp spec fn padded_bool(p: crossbeam::utils::CachePadded<bool>) -> bool;

/// Relies on `CachePadded::new`: the cell stores exactly the given value.
#[verifier::external_body]
pub(crate) fn pad_usize(v: usize) -> (r: crossbeam::utils::CachePadded<usize>)
    ensures
        padded_usize(r) == v,
{
    crossbeam::utils::CachePadded::new(v)
}

/// Relies on `CachePadded`'s `Deref`: it returns the stored value.
#[verifier::external_body]
pub(crate) fn padded_usize_read(p: &crossbeam::utils::CachePadded<usize>) -> (r: usize)
    ensures
        r == padded_usize(*p),
{
    **p
}

/// Relies on `CachePadded::new`: the cell stores exactly the given value.
#[verifier::external_body]
pub(crate) fn pad_bool(v: bool) -> (r: crossbeam::utils::CachePadded<bool>)
    ensures
        padded_bool(r) == v,
{
    crossbeam::utils::CachePadded::new(v)
}

/// Relies on `CachePadded`'s `Deref`: it returns the stored value.
#[verifier::external_body]
pub(crate) fn padded_bool_read(p: &crossbeam::utils::CachePadded<bool>) -> (r: bool)
    ensures
        r == padded_bool(*p),
{
    **p
}

} // verus!
