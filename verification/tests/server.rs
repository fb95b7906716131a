//! End-to-end scenarios: publish through the relay handlers, resolve
//! through the authority, survive a restart, and keep the counters right.

use ed25519_dalek::{Signer, SigningKey};
use iroh_dns_server::authority::{
    setup_authority, LookupOutcome, NodeAuthority, PacketSource, SetupError, UpsertError,
};
use iroh_dns_server::http::{handle_pkarr_get, handle_pkarr_put};
use iroh_dns_server::name::DnsName;
use iroh_dns_server::packet::{decode_relay, PacketError, SignedPacket};
use iroh_dns_server::store::SignedPacketStore;
use iroh_dns_server::z32::z32_encode;
use iroh_dns_server::{CLASS_IN, DEFAULT_SOA_TTL, RT_A, RT_AXFR, RT_SOA, RT_TXT};

fn bytes(s: &str) -> Vec<u8> {
    s.as_bytes().to_vec()
}

const SOA_TEXT: &str = "irohdns.example hostmaster.irohdns.example 1970 10800 3600 604800 3600";

fn fresh_authority() -> NodeAuthority {
    let store = SignedPacketStore::open_inmemory().unwrap();
    restart_authority(store)
}

fn restart_authority(store: SignedPacketStore) -> NodeAuthority {
    let origins = vec![bytes("irohdns.example."), bytes(".")];
    setup_authority(
        store,
        &origins,
        &bytes(SOA_TEXT),
        &Some(vec![127, 0, 0, 1]),
        &Some(bytes("ns1.irohdns.example.")),
    )
    .ok()
    .expect("configuration is well formed")
}

/// A DNS message with one TXT answer under the given owner labels.
fn txt_message(labels: &[Vec<u8>], ttl: u32, txt: &[u8]) -> Vec<u8> {
    let mut out = vec![0, 0, 0x84, 0, 0, 0, 0, 1, 0, 0, 0, 0];
    for l in labels {
        out.push(l.len() as u8);
        out.extend_from_slice(l);
    }
    out.push(0);
    out.extend_from_slice(&RT_TXT.to_be_bytes());
    out.extend_from_slice(&CLASS_IN.to_be_bytes());
    out.extend_from_slice(&ttl.to_be_bytes());
    let rdlen = (txt.len() + 1) as u16;
    out.extend_from_slice(&rdlen.to_be_bytes());
    out.push(txt.len() as u8);
    out.extend_from_slice(txt);
    out
}

/// Signs an inner message: the relay body is signature, timestamp, inner.
fn relay_body(sk: &SigningKey, ts: u64, inner: &[u8]) -> Vec<u8> {
    let mut tbs = ts.to_be_bytes().to_vec();
    tbs.extend_from_slice(inner);
    let sig = sk.sign(&tbs).to_bytes();
    let mut body = sig.to_vec();
    body.extend_from_slice(&ts.to_be_bytes());
    body.extend_from_slice(inner);
    body
}

struct Node {
    sk: SigningKey,
    public_key: Vec<u8>,
    key_text: Vec<u8>,
}

fn node(seed: u8) -> Node {
    let sk = SigningKey::from_bytes(&[seed; 32]);
    let public_key = sk.verifying_key().to_bytes().to_vec();
    let key_text = z32_encode(&public_key);
    Node { sk, public_key, key_text }
}

/// The relay body of a packet holding one `_iroh_node` TXT record.
fn announce_body(n: &Node, ts: u64, txt: &[u8]) -> Vec<u8> {
    let inner = txt_message(&[bytes("_iroh_node"), n.key_text.clone()], 30, txt);
    relay_body(&n.sk, ts, &inner)
}

fn query_name(n: &Node, origin_labels: &[&str]) -> DnsName {
    let mut labels = vec![bytes("_iroh_node"), n.key_text.clone()];
    for l in origin_labels {
        labels.push(bytes(l));
    }
    DnsName { labels }
}

#[test]
fn publish_then_resolve_txt() {
    // S1: publish one TXT record, then resolve it over the DNS path
    let mut a = fresh_authority();
    let n = node(1);
    let txt = format!("node={} relay=https://relay.example/", String::from_utf8(n.key_text.clone()).unwrap());
    let body = announce_body(&n, 1000, txt.as_bytes());
    assert_eq!(handle_pkarr_put(&mut a, &n.key_text, &body), 204);

    let qname = query_name(&n, &["irohdns", "example"]);
    match a.search(&qname, RT_TXT) {
        LookupOutcome::Answer(rs) => {
            assert_eq!(rs.rtype, RT_TXT);
            assert_eq!(rs.serial, 1970);
            assert_eq!(rs.name.labels, qname.labels);
            assert_eq!(rs.items.len(), 1);
            assert_eq!(rs.items[0].ttl, 30);
            let mut expected = vec![txt.len() as u8];
            expected.extend_from_slice(txt.as_bytes());
            assert_eq!(rs.items[0].rdata, expected);
        },
        _ => panic!("expected an answer"),
    }
    assert_eq!(a.metrics.pkarr_publish_update, 1);
    assert_eq!(a.metrics.store_packets_inserted, 1);
}

#[test]
fn older_timestamp_rejected() {
    // S2: a staler packet is an idempotent no-op
    let mut a = fresh_authority();
    let n = node(1);
    let body1 = announce_body(&n, 1000, b"node=x");
    assert_eq!(handle_pkarr_put(&mut a, &n.key_text, &body1), 204);
    let body2 = announce_body(&n, 999, b"node=y");
    assert_eq!(handle_pkarr_put(&mut a, &n.key_text, &body2), 204);
    assert_eq!(a.metrics.pkarr_publish_noop, 1);
    assert_eq!(a.metrics.pkarr_publish_update, 1);
    assert_eq!(a.metrics.pkarr_publish_error, 0);
    assert_eq!(a.metrics.store_packets_inserted, 1);
    assert_eq!(a.metrics.store_packets_updated, 0);
    let stored = handle_pkarr_get(&a, &n.key_text).unwrap();
    assert_eq!(stored, body1);
}

#[test]
fn newer_timestamp_accepted() {
    // S3: a fresher packet replaces the stored one
    let mut a = fresh_authority();
    let n = node(1);
    let body1 = announce_body(&n, 1000, b"node=x");
    assert_eq!(handle_pkarr_put(&mut a, &n.key_text, &body1), 204);
    let body2 = announce_body(&n, 2000, b"node=z");
    assert_eq!(handle_pkarr_put(&mut a, &n.key_text, &body2), 204);
    assert_eq!(a.metrics.pkarr_publish_update, 2);
    assert_eq!(a.metrics.store_packets_updated, 1);
    let stored = handle_pkarr_get(&a, &n.key_text).unwrap();
    assert_eq!(stored, body2);
    let qname = query_name(&n, &["irohdns", "example"]);
    match a.search(&qname, RT_TXT) {
        LookupOutcome::Answer(rs) => {
            assert_eq!(rs.items[0].rdata, b"\x06node=z".to_vec());
        },
        _ => panic!("expected an answer"),
    }
}

#[test]
fn bad_signature_rejected() {
    // S4: one flipped bit turns the packet away; the store is untouched
    let mut a = fresh_authority();
    let n = node(1);
    let good = announce_body(&n, 1000, b"node=x");
    assert_eq!(handle_pkarr_put(&mut a, &n.key_text, &good), 204);
    let mut bad = announce_body(&n, 2000, b"node=y");
    bad[80] ^= 1; // inside the inner message: the signature no longer covers it
    assert_eq!(handle_pkarr_put(&mut a, &n.key_text, &bad), 400);
    // the handler rejects before the authority is ever consulted
    assert_eq!(a.metrics.pkarr_publish_error, 0);
    assert_eq!(a.metrics.pkarr_publish_update, 1);
    assert_eq!(a.metrics.pkarr_publish_noop, 0);
    assert_eq!(a.metrics.store_packets_inserted, 1);
    let stored = handle_pkarr_get(&a, &n.key_text).unwrap();
    assert_eq!(stored, good);
    match decode_relay(&n.public_key, &bad) {
        Err(PacketError::BadSignature) => {},
        other => panic!("expected a signature failure, got {:?}", other.is_ok()),
    }
}

#[test]
fn unknown_key_not_found() {
    // S5: an unpublished key is 404 over the relay and no domain over DNS
    let mut a = fresh_authority();
    let n = node(1);
    let body = announce_body(&n, 1000, b"node=x");
    assert_eq!(handle_pkarr_put(&mut a, &n.key_text, &body), 204);
    let stranger = node(2);
    assert_eq!(handle_pkarr_get(&a, &stranger.key_text), Err(404));
    let qname = query_name(&stranger, &["irohdns", "example"]);
    match a.search(&qname, RT_TXT) {
        LookupOutcome::NxDomain => {},
        _ => panic!("expected no domain"),
    }
}

#[test]
fn soa_from_static_zone_and_axfr_refused() {
    // S6: the SOA comes from the static zone; a zone transfer is refused
    let a = fresh_authority();
    let origin = DnsName { labels: vec![bytes("irohdns"), bytes("example")] };
    match a.search(&origin, RT_SOA) {
        LookupOutcome::Answer(rs) => {
            assert_eq!(rs.rtype, RT_SOA);
            assert_eq!(rs.items.len(), 1);
            assert_eq!(rs.items[0].ttl, DEFAULT_SOA_TTL);
            assert_eq!(rs.serial, 1970);
            // serial is the third SOA field: bytes 0..4 after the two names
            let rdata = &rs.items[0].rdata;
            let names_len = rdata.len() - 20;
            let serial = u32::from_be_bytes(rdata[names_len..names_len + 4].try_into().unwrap());
            assert_eq!(serial, 1970);
        },
        _ => panic!("expected the SOA"),
    }
    match a.search(&origin, RT_AXFR) {
        LookupOutcome::Refused => {},
        _ => panic!("expected refusal"),
    }
    // the apex A record from the static zone
    match a.search(&origin, RT_A) {
        LookupOutcome::Answer(rs) => {
            assert_eq!(rs.items.len(), 1);
            assert_eq!(rs.items[0].rdata, vec![127, 0, 0, 1]);
        },
        _ => panic!("expected the apex address"),
    }
}

#[test]
fn restart_preserves_answers() {
    // S8: after a restart over the same store, the query answers the same
    let mut a = fresh_authority();
    let n = node(1);
    let body = announce_body(&n, 1000, b"node=x");
    assert_eq!(handle_pkarr_put(&mut a, &n.key_text, &body), 204);
    let qname = query_name(&n, &["irohdns", "example"]);
    let before = match a.search(&qname, RT_TXT) {
        LookupOutcome::Answer(rs) => rs.items[0].rdata.clone(),
        _ => panic!("expected an answer"),
    };
    let a2 = restart_authority(a.store);
    match a2.search(&qname, RT_TXT) {
        LookupOutcome::Answer(rs) => {
            assert_eq!(rs.items[0].rdata, before);
            assert_eq!(rs.name.labels, qname.labels);
        },
        _ => panic!("expected the same answer after restart"),
    }
    assert_eq!(handle_pkarr_get(&a2, &n.key_text).unwrap(), body);
}

#[test]
fn cross_origin_same_records() {
    // the same key queried under both configured origins yields the same
    // record data, each answer rooted at its own origin
    let mut a = fresh_authority();
    let n = node(1);
    let body = announce_body(&n, 1000, b"node=x");
    assert_eq!(handle_pkarr_put(&mut a, &n.key_text, &body), 204);
    let q1 = query_name(&n, &["irohdns", "example"]);
    let q2 = query_name(&n, &[]);
    let r1 = match a.search(&q1, RT_TXT) {
        LookupOutcome::Answer(rs) => rs,
        _ => panic!("expected an answer under the first origin"),
    };
    let r2 = match a.search(&q2, RT_TXT) {
        LookupOutcome::Answer(rs) => rs,
        _ => panic!("expected an answer under the root origin"),
    };
    assert_eq!(r1.items.len(), r2.items.len());
    assert_eq!(r1.items[0].rdata, r2.items[0].rdata);
    assert_eq!(r1.name.labels, q1.labels);
    assert_eq!(r2.name.labels, q2.labels);
    assert_ne!(r1.name.labels, r2.name.labels);
}

#[test]
fn resolve_at_zone_apex() {
    // a record owned by the bare key label sits at the zone apex
    let mut a = fresh_authority();
    let n = node(3);
    let inner = txt_message(&[n.key_text.clone()], 30, b"apex");
    let body = relay_body(&n.sk, 1000, &inner);
    assert_eq!(handle_pkarr_put(&mut a, &n.key_text, &body), 204);
    let apex = DnsName { labels: vec![] };
    let rs = a.resolve(&n.public_key, &apex, RT_TXT).expect("apex record resolves");
    assert_eq!(rs.items.len(), 1);
    assert_eq!(rs.items[0].rdata, b"\x04apex".to_vec());
    assert!(a.resolve(&n.public_key, &apex, RT_A).is_none());
}

#[test]
fn oversized_and_misrooted_packets_rejected() {
    let mut a = fresh_authority();
    let n = node(1);
    // an inner message longer than the bound
    let inner = txt_message(&[bytes("_iroh_node"), n.key_text.clone()], 30, &[b'x'; 250]);
    let mut big_inner = Vec::new();
    for _ in 0..4 {
        big_inner.extend_from_slice(&inner);
    }
    let body = relay_body(&n.sk, 1000, &big_inner);
    assert_eq!(handle_pkarr_put(&mut a, &n.key_text, &body), 400);
    match decode_relay(&n.public_key, &body) {
        Err(PacketError::TooLarge) => {},
        _ => panic!("expected the size bound"),
    }
    // an answer rooted at another key's label
    let stranger = node(2);
    let inner = txt_message(&[bytes("_iroh_node"), stranger.key_text.clone()], 30, b"node=x");
    let body = relay_body(&n.sk, 1000, &inner);
    match decode_relay(&n.public_key, &body) {
        Err(PacketError::NameMismatch) => {},
        _ => panic!("expected a name mismatch"),
    }
    // a body too short to carry a signature and timestamp
    match decode_relay(&n.public_key, &vec![0u8; 10]) {
        Err(PacketError::BadEncoding) => {},
        _ => panic!("expected an encoding failure"),
    }
    // a bad key text in the path
    assert_eq!(handle_pkarr_put(&mut a, &bytes("no-such-key"), &body), 400);
    assert_eq!(handle_pkarr_get(&a, &bytes("no-such-key")), Err(400));
}

#[test]
fn store_keeps_the_freshest_packet() {
    // a run of upserts for one key keeps the packet with the greatest
    // timestamp, whatever the order
    let mut store = SignedPacketStore::open_inmemory().unwrap();
    let mut metrics = iroh_dns_server::metrics::Metrics::new();
    let n = node(5);
    let mk = |ts: u64, txt: &[u8]| {
        let inner = txt_message(&[n.key_text.clone()], 30, txt);
        let body = relay_body(&n.sk, ts, &inner);
        decode_relay(&n.public_key, &body).unwrap()
    };
    let p5 = mk(5, b"five");
    let p3 = mk(3, b"three");
    let p9 = mk(9, b"nine");
    assert_eq!(store.upsert(&p5, &mut metrics), Ok(true));
    assert_eq!(store.upsert(&p3, &mut metrics), Ok(false));
    assert_eq!(store.upsert(&p5, &mut metrics), Ok(false));
    assert_eq!(store.upsert(&p9, &mut metrics), Ok(true));
    assert_eq!(metrics.store_packets_inserted, 1);
    assert_eq!(metrics.store_packets_updated, 1);
    let stored = store.get(&n.public_key).unwrap().unwrap();
    assert_eq!(stored, p9.encode_relay());
    assert_eq!(store.remove(&n.public_key, &mut metrics), Ok(true));
    assert_eq!(store.remove(&n.public_key, &mut metrics), Ok(false));
    assert_eq!(store.get(&n.public_key).unwrap(), None);
}

#[test]
fn relay_encoding_round_trips() {
    // decode(encode(p)) is p, byte for byte
    let n = node(7);
    let inner = txt_message(&[n.key_text.clone()], 30, b"rt");
    let body = relay_body(&n.sk, 1234, &inner);
    let p = decode_relay(&n.public_key, &body).unwrap();
    assert_eq!(p.encode_relay(), body);
    let p2 = decode_relay(&n.public_key, &p.encode_relay()).unwrap();
    assert_eq!(p2.public_key, p.public_key);
    assert_eq!(p2.signature, p.signature);
    assert_eq!(p2.timestamp, p.timestamp);
    assert_eq!(p2.inner, p.inner);
}

#[test]
fn soa_and_ns_records_dropped_from_zones() {
    // an SOA or NS answer inside a packet never enters the key's zone
    let mut a = fresh_authority();
    let n = node(4);
    let mut inner = vec![0, 0, 0x84, 0, 0, 0, 0, 1, 0, 0, 0, 0];
    let lab = &n.key_text;
    inner.push(lab.len() as u8);
    inner.extend_from_slice(lab);
    inner.push(0);
    inner.extend_from_slice(&RT_SOA.to_be_bytes());
    inner.extend_from_slice(&CLASS_IN.to_be_bytes());
    inner.extend_from_slice(&30u32.to_be_bytes());
    inner.extend_from_slice(&1u16.to_be_bytes());
    inner.push(0);
    let body = relay_body(&n.sk, 1000, &inner);
    let packet = decode_relay(&n.public_key, &body).unwrap();
    let updated = a.upsert(&packet, PacketSource::PkarrPublish);
    assert!(matches!(updated, Ok(true)));
    let apex = DnsName { labels: vec![] };
    assert!(a.resolve(&n.public_key, &apex, RT_SOA).is_none());
}

#[test]
fn update_and_axfr_policy() {
    let a = fresh_authority();
    assert!(!a.is_axfr_allowed());
    assert!(matches!(a.update(), LookupOutcome::NotImp));
    assert_eq!(a.serial(), 1970);
    let origin = DnsName { labels: vec![bytes("irohdns"), bytes("example")] };
    assert!(a.origin_is_allowed(&origin));
    let other = DnsName { labels: vec![bytes("nope")] };
    assert!(!a.origin_is_allowed(&other));
    assert_eq!(a.all_origins().len(), 2);
    assert!(a.origin().equals(&origin));
}

#[test]
fn queries_fold_case() {
    // a query in upper case answers with the folded owner name
    let mut a = fresh_authority();
    let n = node(1);
    let body = announce_body(&n, 1000, b"node=x");
    assert_eq!(handle_pkarr_put(&mut a, &n.key_text, &body), 204);
    let mut labels = vec![bytes("_IROH_NODE"), n.key_text.clone()];
    labels.push(bytes("IROHDNS"));
    labels.push(bytes("Example"));
    let qname = DnsName { labels };
    match a.search(&qname, RT_TXT) {
        LookupOutcome::Answer(rs) => {
            let folded = query_name(&n, &["irohdns", "example"]);
            assert_eq!(rs.name.labels, folded.labels);
        },
        _ => panic!("expected a case-folded answer"),
    }
}

#[test]
fn setup_rejects_bad_configuration() {
    let origins = vec![bytes("irohdns.example.")];
    let soa = bytes(SOA_TEXT);
    let none_ns: Option<Vec<u8>> = None;
    let none_a: Option<Vec<u8>> = None;

    let store = SignedPacketStore::open_inmemory().unwrap();
    let no_origins: Vec<Vec<u8>> = vec![];
    assert!(matches!(
        setup_authority(store, &no_origins, &soa, &none_a, &none_ns),
        Err(SetupError::NoOrigin)
    ));

    let store = SignedPacketStore::open_inmemory().unwrap();
    assert!(matches!(
        setup_authority(store, &origins, &bytes("not a soa"), &none_a, &none_ns),
        Err(SetupError::BadSoa)
    ));

    let store = SignedPacketStore::open_inmemory().unwrap();
    let bad_origins = vec![bytes("bad..origin.")];
    assert!(matches!(
        setup_authority(store, &bad_origins, &soa, &none_a, &none_ns),
        Err(SetupError::BadOrigin)
    ));

    let store = SignedPacketStore::open_inmemory().unwrap();
    assert!(matches!(
        setup_authority(store, &origins, &soa, &none_a, &Some(bytes("bad..ns."))),
        Err(SetupError::BadNsName)
    ));

    let store = SignedPacketStore::open_inmemory().unwrap();
    assert!(setup_authority(store, &origins, &soa, &none_a, &none_ns).is_ok());
}

#[test]
fn invalid_packet_bumps_only_the_error_counter() {
    // offered straight to the authority, a packet that fails verification
    // moves the error counter and nothing else
    let mut a = fresh_authority();
    let n = node(6);
    let packet = SignedPacket {
        public_key: n.public_key.clone(),
        signature: vec![0u8; 64],
        timestamp: 1000,
        inner: txt_message(&[n.key_text.clone()], 30, b"x"),
    };
    match a.upsert(&packet, PacketSource::PkarrPublish) {
        Err(UpsertError::Packet(PacketError::BadSignature)) => {},
        _ => panic!("expected a signature failure"),
    }
    assert_eq!(a.metrics.pkarr_publish_error, 1);
    assert_eq!(a.metrics.pkarr_publish_update, 0);
    assert_eq!(a.metrics.pkarr_publish_noop, 0);
    assert_eq!(a.metrics.store_packets_inserted, 0);
    assert_eq!(a.store().get(&n.public_key), Ok(None));
}
