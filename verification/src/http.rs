//! The relay endpoint's decisions: what a publish or a fetch of a key's
//! packet answers, as a status code and a body.
//!
//! The listener itself — sockets, routing, rate limiting — lives outside;
//! it hands these functions the key text from the request path and the raw
//! body, and sends back what they return.

use vstd::prelude::*;
use crate::authority::{spec_zone_of_packet, zones_accepts, zones_after, NodeAuthority, PacketSource, UpsertError};
use crate::metrics::bumped;
use crate::packet::{decode_relay, decode_relay_spec};
use crate::store::store_upsert_spec;
use crate::z32::{z32_decode, z32_decode_spec};

verus! {

/// The request was served; the reply carries a body.
pub const STATUS_OK: u16 = 200;
/// The publish was accepted (or was a stale duplicate).
pub const STATUS_NO_CONTENT: u16 = 204;
/// The key or the packet failed to decode or verify.
pub const STATUS_BAD_REQUEST: u16 = 400;
/// No packet is stored under the key.
pub const STATUS_NOT_FOUND: u16 = 404;
/// The backing store refused an operation.
pub const STATUS_INTERNAL: u16 = 500;

/// Serves `PUT /pkarr/<key>`: decodes the key text, decodes and verifies
/// the body as that key's signed packet, and offers it to the authority.
/// A bad key or packet is `400`; an accepted or stale packet is `204` — a
/// stale packet always, since it triggers no store write; `500` comes only
/// when a fresher packet was accepted in memory and the store refused the
/// write-through, and then the zone is already updated and authoritative.
pub fn handle_pkarr_put(authority: &mut NodeAuthority, key_text: &Vec<u8>, body: &Vec<u8>) -> (r:
    u16)
    requires
        old(authority).wf(),
    ensures
        final(authority).wf(),
        final(authority).serial == old(authority).serial,
        final(authority).origins == old(authority).origins,
        final(authority).static_zone == old(authority).static_zone,
        match z32_decode_spec(key_text@) {
            None => r == STATUS_BAD_REQUEST && *final(authority) == *old(authority),
            Some(k) => match decode_relay_spec(k, body@) {
                Err(_) => r == STATUS_BAD_REQUEST && *final(authority) == *old(authority),
                Ok(p) => {
                    &&& (r == STATUS_NO_CONTENT || r == STATUS_INTERNAL)
                    &&& !zones_accepts(old(authority).zones_model(), k, p.timestamp)
                        ==> r == STATUS_NO_CONTENT
                    &&& (r == STATUS_NO_CONTENT && zones_accepts(
                        old(authority).zones_model(),
                        k,
                        p.timestamp,
                    )) ==> {
                        &&& final(authority).zones_model() == zones_after(
                            old(authority).zones_model(),
                            k,
                            spec_zone_of_packet(p),
                        )
                        &&& final(authority).store_model() == store_upsert_spec(
                            old(authority).store_model(),
                            p,
                        )
                        &&& final(authority).metrics.pkarr_publish_update == bumped(
                            old(authority).metrics.pkarr_publish_update,
                        )
                        &&& final(authority).metrics.pkarr_publish_noop == old(
                            authority,
                        ).metrics.pkarr_publish_noop
                        &&& final(authority).metrics.pkarr_publish_error == old(
                            authority,
                        ).metrics.pkarr_publish_error
                    }
                    &&& (r == STATUS_NO_CONTENT && !zones_accepts(
                        old(authority).zones_model(),
                        k,
                        p.timestamp,
                    )) ==> {
                        &&& final(authority).zones_model() == old(authority).zones_model()
                        &&& final(authority).store_model() == old(authority).store_model()
                        &&& final(authority).metrics.pkarr_publish_noop == bumped(
                            old(authority).metrics.pkarr_publish_noop,
                        )
                        &&& final(authority).metrics.pkarr_publish_update == old(
                            authority,
                        ).metrics.pkarr_publish_update
                        &&& final(authority).metrics.pkarr_publish_error == old(
                            authority,
                        ).metrics.pkarr_publish_error
                    }
                    &&& r == STATUS_INTERNAL ==> {
                        &&& zones_accepts(old(authority).zones_model(), k, p.timestamp)
                        &&& final(authority).zones_model() == zones_after(
                            old(authority).zones_model(),
                            k,
                            spec_zone_of_packet(p),
                        )
                        &&& (final(authority).store_model() == old(authority).store_model()
                            || final(authority).store_model() == store_upsert_spec(
                            old(authority).store_model(),
                            p,
                        ))
                        &&& final(authority).metrics.pkarr_publish_error == bumped(
                            old(authority).metrics.pkarr_publish_error,
                        )
                        &&& final(authority).metrics.pkarr_publish_update == old(
                            authority,
                        ).metrics.pkarr_publish_update
                        &&& final(authority).metrics.pkarr_publish_noop == old(
                            authority,
                        ).metrics.pkarr_publish_noop
                    }
                },
            },
        },
{
    let key = match z32_decode(key_text) {
        None => {
            return STATUS_BAD_REQUEST;
        },
        Some(k) => k,
    };
    let packet = match decode_relay(&key, body) {
        Err(_) => {
            return STATUS_BAD_REQUEST;
        },
        Ok(p) => p,
    };
    match authority.upsert(&packet, PacketSource::PkarrPublish) {
        Ok(_) => STATUS_NO_CONTENT,
        Err(UpsertError::Packet(_)) => STATUS_BAD_REQUEST,
        Err(UpsertError::Store(_)) => STATUS_INTERNAL,
    }
}

/// Serves `GET /pkarr/<key>`: the stored relay bytes for the key, `400` on
/// a bad key text, `404` when the key holds no packet, `500` when the
/// store refuses the read.
pub fn handle_pkarr_get(authority: &NodeAuthority, key_text: &Vec<u8>) -> (r: Result<Vec<u8>, u16>)
    ensures
        match z32_decode_spec(key_text@) {
            None => r == Err::<Vec<u8>, u16>(STATUS_BAD_REQUEST),
            Some(k) => match r {
                Ok(v) => authority.store_model().contains_key(k) && authority.store_model()[k]
                    == v@,
                Err(e) => (e == STATUS_NOT_FOUND && !authority.store_model().contains_key(k)) || e
                    == STATUS_INTERNAL,
            },
        },
{
    let key = match z32_decode(key_text) {
        None => {
            return Err(STATUS_BAD_REQUEST);
        },
        Some(k) => k,
    };
    match authority.get_packet(&key) {
        Err(_) => Err(STATUS_INTERNAL),
        Ok(None) => Err(STATUS_NOT_FOUND),
        Ok(Some(v)) => Ok(v),
    }
}

} // verus!
