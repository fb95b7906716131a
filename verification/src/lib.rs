//! Authoritative DNS server library for self-certifying node records.
//!
//! Nodes own an Ed25519 key pair; the public key, in z-base-32 form, is a DNS
//! label below one of the configured origins. Nodes publish signed DNS packets
//! through a relay endpoint; the zone authority merges a static zone with the
//! per-key zones projected from those packets and answers DNS queries.

use vstd::prelude::*;

pub mod attrs;
pub mod authority;
pub mod config;
pub mod http;
pub mod metrics;
pub mod name;
pub mod packet;
pub mod radix;
pub mod soa;
pub mod store;
pub mod wire;
pub mod z32;
pub mod zone;

verus! {

/// Record type code for an SOA record.
pub const RT_SOA: u16 = 6;
/// Record type code for an NS record.
pub const RT_NS: u16 = 2;
/// Record type code for an A record.
pub const RT_A: u16 = 1;
/// Record type code for an AAAA record.
pub const RT_AAAA: u16 = 28;
/// Record type code for a TXT record.
pub const RT_TXT: u16 = 16;
/// Query type code for a zone transfer (AXFR) request.
pub const RT_AXFR: u16 = 252;
/// Class code for the Internet class.
pub const CLASS_IN: u16 = 1;

/// Time to live of the static zone's SOA record, in seconds.
pub const DEFAULT_SOA_TTL: u32 = 86400;
/// Time to live of the static zone's NS records, in seconds.
pub const DEFAULT_NS_TTL: u32 = 43200;
/// Time to live of the static zone's A records, in seconds.
pub const DEFAULT_A_TTL: u32 = 3600;

} // verus!
