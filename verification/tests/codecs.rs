//! Tests of the text and wire codecs: z-base-32 keys, DNS names, wire
//! messages, attribute strings, and SOA texts.

use iroh_dns_server::attrs::{fmt_attr, parse_attrs};
use iroh_dns_server::name::{parse_name_text, DnsName};
use iroh_dns_server::soa::{encode_soa_rdata, parse_soa, parse_u32};
use iroh_dns_server::wire::parse_message;
use iroh_dns_server::z32::{z32_decode, z32_encode};
use iroh_dns_server::{RT_TXT, CLASS_IN};
use hickory_proto::op::Message;
use hickory_proto::rr::{rdata::TXT, DNSClass, Name, RData, Record, RecordType};
use hickory_proto::serialize::binary::BinEncodable;
use std::str::FromStr;

fn bytes(s: &str) -> Vec<u8> {
    s.as_bytes().to_vec()
}

#[test]
fn z32_round_trip() {
    for seed in [0u8, 1, 7, 42, 255] {
        let key: Vec<u8> = (0..32u16).map(|i| (i as u8).wrapping_mul(3).wrapping_add(seed)).collect();
        let text = z32_encode(&key);
        assert_eq!(text.len(), 52);
        let back = z32_decode(&text).expect("canonical text decodes");
        assert_eq!(back, key);
        assert_eq!(z32_encode(&back), text);
    }
}

#[test]
fn z32_matches_reference_encoder() {
    let key: Vec<u8> = (0..32u8).collect();
    let text = z32_encode(&key);
    let reference = z32::encode(&key);
    assert_eq!(String::from_utf8(text).unwrap(), reference);
}

#[test]
fn z32_rejects_bad_text() {
    assert!(z32_decode(&bytes("tooshort")).is_none());
    let key = vec![9u8; 32];
    let mut text = z32_encode(&key);
    text[10] = b'0'; // not in the alphabet
    assert!(z32_decode(&text).is_none());
    let mut long = z32_encode(&key);
    long.push(b'y');
    assert!(z32_decode(&long).is_none());
}

#[test]
fn name_text_parses() {
    let n = parse_name_text(&bytes("irohdns.example.")).unwrap();
    assert_eq!(n.labels.len(), 2);
    assert_eq!(n.labels[0], b"irohdns".to_vec());
    assert_eq!(n.labels[1], b"example".to_vec());
    let root = parse_name_text(&bytes(".")).unwrap();
    assert_eq!(root.labels.len(), 0);
    let no_dot = parse_name_text(&bytes("irohdns.example")).unwrap();
    assert_eq!(no_dot.labels.len(), 2);
    assert!(parse_name_text(&bytes("a..b")).is_none());
    assert!(parse_name_text(&bytes(&"x".repeat(64))).is_none());
}

#[test]
fn name_folding_and_zone_of() {
    let upper = parse_name_text(&bytes("Foo.EXAMPLE.")).unwrap();
    let folded = upper.folded();
    assert_eq!(folded.labels[0], b"foo".to_vec());
    assert_eq!(folded.labels[1], b"example".to_vec());
    let origin = parse_name_text(&bytes("example.")).unwrap();
    assert!(origin.zone_of(&folded));
    let other = parse_name_text(&bytes("other.")).unwrap();
    assert!(!other.zone_of(&folded));
}

#[test]
fn parse_u32_edges() {
    assert_eq!(parse_u32(&bytes("0")), Some(0));
    assert_eq!(parse_u32(&bytes("4294967295")), Some(u32::MAX));
    assert_eq!(parse_u32(&bytes("4294967296")), None);
    assert_eq!(parse_u32(&bytes("")), None);
    assert_eq!(parse_u32(&bytes("12a")), None);
    assert_eq!(parse_u32(&bytes("900")), Some(900));
}

#[test]
fn soa_text_parses() {
    let soa = parse_soa(&bytes(
        "irohdns.example hostmaster.irohdns.example 7 10800 3600 604800 3600",
    ))
    .unwrap();
    assert_eq!(soa.serial, 7);
    assert_eq!(soa.refresh, 10800);
    assert_eq!(soa.retry, 3600);
    assert_eq!(soa.expire, 604800);
    assert_eq!(soa.minimum, 3600);
    assert_eq!(soa.mname.labels.len(), 2);
    assert_eq!(soa.rname.labels.len(), 3);
    assert!(parse_soa(&bytes("one two three")).is_none());
    let rdata = encode_soa_rdata(&soa);
    // two names, then five 32-bit numbers
    let names_len = (1 + 7 + 1 + 7 + 1) + (1 + 10 + 1 + 7 + 1 + 7 + 1);
    assert_eq!(rdata.len(), names_len + 20);
}

#[test]
fn attrs_parse_and_format() {
    let map = parse_attrs(&bytes("node=abc relay=https://r.example/ x dns=a dns=b"));
    let node = map.get(&bytes("node")).unwrap();
    assert_eq!(node.len(), 1);
    assert_eq!(node[0], bytes("abc"));
    let dns = map.get(&bytes("dns")).unwrap();
    assert_eq!(dns.len(), 2);
    assert_eq!(dns[0], bytes("a"));
    assert_eq!(dns[1], bytes("b"));
    assert!(map.get(&bytes("x")).is_none());
    assert!(map.get(&bytes("missing")).is_none());
    assert_eq!(fmt_attr(&bytes("node"), &bytes("abc")), bytes("node=abc"));
}

/// One answer record with the given owner labels and TXT text, as wire
/// bytes of a whole DNS message.
fn txt_message(labels: &[&[u8]], ttl: u32, txt: &[u8]) -> Vec<u8> {
    let mut out = vec![0, 0, 0x84, 0, 0, 0, 0, 1, 0, 0, 0, 0];
    for l in labels {
        out.push(l.len() as u8);
        out.extend_from_slice(l);
    }
    out.push(0);
    out.extend_from_slice(&RT_TXT.to_be_bytes());
    out.extend_from_slice(&CLASS_IN.to_be_bytes());
    out.extend_from_slice(&ttl.to_be_bytes());
    let rdlen = (txt.len() + 1) as u16;
    out.extend_from_slice(&rdlen.to_be_bytes());
    out.push(txt.len() as u8);
    out.extend_from_slice(txt);
    out
}

#[test]
fn wire_message_parses() {
    let msg = txt_message(&[b"_iroh_node", b"somekeylabel"], 30, b"node=x");
    let parsed = parse_message(&msg).expect("well-formed message parses");
    assert_eq!(parsed.answers.len(), 1);
    let rec = &parsed.answers[0];
    assert_eq!(rec.name.labels.len(), 2);
    assert_eq!(rec.name.labels[0], b"_iroh_node".to_vec());
    assert_eq!(rec.rtype, RT_TXT);
    assert_eq!(rec.ttl, 30);
    assert_eq!(rec.rdata, b"\x06node=x".to_vec());
    // truncated input is refused
    let mut cut = msg.clone();
    cut.pop();
    assert!(parse_message(&cut).is_none());
    // trailing garbage is refused
    let mut long = msg.clone();
    long.push(0);
    assert!(parse_message(&long).is_none());
}

#[test]
fn wire_message_follows_compression_pointers() {
    // a question for foo.example., then an answer whose name points back
    // at the question's name (offset 12)
    let mut msg = vec![0, 0, 0x84, 0, 0, 1, 0, 1, 0, 0, 0, 0];
    msg.extend_from_slice(b"\x03foo\x07example\x00");
    msg.extend_from_slice(&RT_TXT.to_be_bytes());
    msg.extend_from_slice(&CLASS_IN.to_be_bytes());
    // answer: pointer to offset 12
    msg.extend_from_slice(&[0xC0, 12]);
    msg.extend_from_slice(&RT_TXT.to_be_bytes());
    msg.extend_from_slice(&CLASS_IN.to_be_bytes());
    msg.extend_from_slice(&30u32.to_be_bytes());
    msg.extend_from_slice(&2u16.to_be_bytes());
    msg.extend_from_slice(b"\x01x");
    let parsed = parse_message(&msg).expect("compressed names parse");
    assert_eq!(parsed.questions.len(), 1);
    assert_eq!(parsed.answers.len(), 1);
    assert_eq!(parsed.answers[0].name.labels.len(), 2);
    assert_eq!(parsed.answers[0].name.labels[0], b"foo".to_vec());
    assert_eq!(parsed.answers[0].name.labels[1], b"example".to_vec());
}

#[test]
fn wire_message_cross_checked_with_hickory() {
    let mut message = Message::new();
    let name = Name::from_str("foo.example.").unwrap();
    let mut record = Record::with(name, RecordType::TXT, 300);
    record.set_dns_class(DNSClass::IN);
    record.set_data(Some(RData::TXT(TXT::new(vec!["bar".to_string()]))));
    message.answers_mut().push(record);
    let wire = message.to_bytes().unwrap();

    let parsed = parse_message(&wire).expect("hickory output parses");
    assert_eq!(parsed.answers.len(), 1);
    let rec = &parsed.answers[0];
    assert_eq!(rec.name.labels[0], b"foo".to_vec());
    assert_eq!(rec.name.labels[1], b"example".to_vec());
    assert_eq!(rec.rtype, RT_TXT);
    assert_eq!(rec.ttl, 300);
    assert_eq!(rec.rdata, b"\x03bar".to_vec());
}

#[test]
fn names_compare_by_labels() {
    let a = DnsName { labels: vec![b"a".to_vec(), b"b".to_vec()] };
    let b = DnsName { labels: vec![b"a".to_vec(), b"b".to_vec()] };
    let c = DnsName { labels: vec![b"a".to_vec(), b"c".to_vec()] };
    assert!(a.equals(&b));
    assert!(!a.equals(&c));
    assert_eq!(a.num_labels(), 2);
}
