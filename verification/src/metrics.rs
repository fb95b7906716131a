//! Typed counters kept by the store and the authority.

use vstd::prelude::*;

verus! {

/// What a counter becomes when bumped: one more, saturating at the top.
pub open spec fn bumped(c: u64) -> u64 {
    if c < u64::MAX {
        (c + 1) as u64
    } else {
        c
    }
}

/// Adds one to a counter, saturating at the top.
pub fn bump(c: u64) -> (r: u64)
    ensures
        r == bumped(c),
{
    if c < u64::MAX {
        c + 1
    } else {
        c
    }
}

/// Counters for packet ingestion and publishing.
pub struct Metrics {
    /// Packets written to the store under a key that had none.
    pub store_packets_inserted: u64,
    /// Packets that replaced an older stored packet.
    pub store_packets_updated: u64,
    /// Packets removed from the store.
    pub store_packets_removed: u64,
    /// Published packets accepted as new or fresher.
    pub pkarr_publish_update: u64,
    /// Published packets rejected as stale.
    pub pkarr_publish_noop: u64,
    /// Published packets that failed verification or storage.
    pub pkarr_publish_error: u64,
}

impl Metrics {
    /// Fresh counters, all zero.
    pub fn new() -> (r: Metrics)
        ensures
            r.store_packets_inserted == 0,
            r.store_packets_updated == 0,
            r.store_packets_removed == 0,
            r.pkarr_publish_update == 0,
            r.pkarr_publish_noop == 0,
            r.pkarr_publish_error == 0,
    {
        Metrics {
            store_packets_inserted: 0,
            store_packets_updated: 0,
            store_packets_removed: 0,
            pkarr_publish_update: 0,
            pkarr_publish_noop: 0,
            pkarr_publish_error: 0,
        }
    }
}

} // verus!
