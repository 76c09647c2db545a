//! A read-optimized, single-writer multi-slot cache.
//!
//! The cache publishes successive versions of one logical value through an
//! array of slots. A reader enters the slot named by the published index,
//! clones the value out, and leaves; a writer takes the exclusion flag,
//! searches for a slot other than the current one with no readers in it,
//! installs the new value there, and republishes the index.
//!
//! Every operation is broken into the steps of that protocol, each with a
//! contract, so the protocol's invariants — the published slot always holds a
//! value, an occupied slot is never overwritten, a writer never targets the
//! published slot — are machine-checked.

mod pad;
mod cache;
pub mod protocol;

pub use cache::Cache;
pub use cache::CacheError;
