//! The weights of the two calls of the foreign state oracle, as measured on a
//! reference machine.

use vstd::prelude::*;

verus! {

/// The measured weight of purging an expired query, without its storage
/// accesses.
pub const PURGE_EXPIRED_QUERY_BASE: u64 = 105_791_000;

/// How many storage reads purging an expired query makes.
pub const PURGE_EXPIRED_QUERY_READS: u64 = 5;

/// How many storage writes purging an expired query makes.
pub const PURGE_EXPIRED_QUERY_WRITES: u64 = 5;

/// The measured weight of responding to a query request, without its storage
/// accesses.
pub const RESPOND_QUERY_REQUEST_BASE: u64 = 28_518_000;

/// How many storage reads responding to a query request makes.
pub const RESPOND_QUERY_REQUEST_READS: u64 = 1;

/// How many storage writes responding to a query request makes.
pub const RESPOND_QUERY_REQUEST_WRITES: u64 = 1;

/// The sum of three weights, which stops at the largest weight.
pub open spec fn total_weight(base: u64, reads: u64, writes: u64) -> u64 {
    if base + reads + writes > u64::MAX {
        u64::MAX
    } else {
        (base + reads + writes) as u64
    }
}

/// Weight functions for the foreign state oracle.
pub struct WeightInfo;

impl WeightInfo {
    /// The weight of purging an expired query, where `reads` is the weight
    /// that the database gives to the five reads of the call and `writes`
    /// the weight that it gives to the five writes.
    pub fn purge_expired_query(reads: u64, writes: u64) -> (weight: u64)
        ensures
            weight == total_weight(PURGE_EXPIRED_QUERY_BASE, reads, writes),
    {
        PURGE_EXPIRED_QUERY_BASE.saturating_add(reads).saturating_add(writes)
    }

    /// The weight of responding to a query request, where `reads` is the
    /// weight that the database gives to the one read of the call and
    /// `writes` the weight that it gives to the one write.
    pub fn respond_query_request(reads: u64, writes: u64) -> (weight: u64)
        ensures
            weight == total_weight(RESPOND_QUERY_REQUEST_BASE, reads, writes),
    {
        RESPOND_QUERY_REQUEST_BASE.saturating_add(reads).saturating_add(writes)
    }
}

} // verus!
