//! Signed packets: the relay wire form, signature verification, and the
//! checks that bind a packet's records to its public key.
//!
//! The relay form of a packet is `signature (64 bytes) || timestamp
//! (big-endian u64) || inner DNS message`. The signature covers the
//! timestamp and the inner message. Every answer record's owner name must
//! be rooted at the z-base-32 label of the public key.

use vstd::prelude::*;
use ed25519_dalek::Verifier;
use crate::name::{bytes_equal, fold_label};
use crate::radix::{digits_of, digits_u64, lemma_pow_values, lemma_undigits_of_digits, nats_of,
    pow_b, undigits, undigits_u64};
use crate::wire::{parse_message_spec, parse_message, MessageV, WireMessage};
use crate::z32::{bytes_of, z32_encode_spec, z32_encode};

verus! {

/// Why a relay body was rejected.
#[derive(PartialEq, Eq, Structural, Clone, Copy, Debug)]
pub enum PacketError {
    /// The body is shorter than a signature and a timestamp, or its inner
    /// bytes are not a well-formed DNS message.
    BadEncoding,
    /// The inner message is longer than the size bound.
    TooLarge,
    /// The signature does not verify over the timestamp and inner message.
    BadSignature,
    /// An answer record's owner name is not rooted at the key's label.
    NameMismatch,
}

/// A verified signed packet: the key, its signature, the timestamp, and the
/// inner DNS message bytes, kept exactly as received.
pub struct SignedPacket {
    pub public_key: Vec<u8>,
    pub signature: Vec<u8>,
    pub timestamp: u64,
    pub inner: Vec<u8>,
}

/// The mathematical form of a signed packet.
pub ghost struct PacketV {
    pub public_key: Seq<u8>,
    pub signature: Seq<u8>,
    pub timestamp: u64,
    pub inner: Seq<u8>,
}

impl View for SignedPacket {
    type V = PacketV;

    open spec fn view(&self) -> PacketV {
        PacketV {
            public_key: self.public_key@,
            signature: self.signature@,
            timestamp: self.timestamp,
            inner: self.inner@,
        }
    }
}

/// The largest inner DNS message accepted, bounding per-key memory.
pub const MAX_INNER_LEN: usize = 1000;

/// Structural well-formedness: field sizes only.
pub open spec fn packet_sized(p: PacketV) -> bool {
    p.public_key.len() == 32 && p.signature.len() == 64 && p.inner.len() <= MAX_INNER_LEN
}

/// Whether `signature` is a valid Ed25519 signature by `public_key` over
/// `message`. Valid signatures are a pure function of the three arguments;
/// what the function is, only the signature scheme says.
pub uninterp spec fn sig_valid(public_key: Seq<u8>, message: Seq<u8>, signature: Seq<u8>) -> bool;

/// Relies on `ed25519_dalek::VerifyingKey::verify` (via `from_bytes` and
/// `Signature::from_bytes`): whether the signature verifies is a function
/// of key, message and signature bytes alone.
#[verifier::external_body]
fn ed25519_verify(public_key: &Vec<u8>, message: &Vec<u8>, signature: &Vec<u8>) -> (r: bool)
    requires
        public_key@.len() == 32,
        signature@.len() == 64,
    ensures
        r == sig_valid(public_key@, message@, signature@),
{
    let Ok(pk_bytes): Result<&[u8; 32], _> = public_key.as_slice().try_into() else {
        return false;
    };
    let Ok(sig_bytes): Result<&[u8; 64], _> = signature.as_slice().try_into() else {
        return false;
    };
    let Ok(vk) = ed25519_dalek::VerifyingKey::from_bytes(pk_bytes) else {
        return false;
    };
    let sig = ed25519_dalek::Signature::from_bytes(sig_bytes);
    vk.verify(message, &sig).is_ok()
}

/// The timestamp as eight big-endian bytes.
pub open spec fn be64_bytes(v: u64) -> Seq<u8> {
    bytes_of(digits_of(v as nat, 256, 8))
}

/// The bytes the signature covers: the timestamp, then the inner message.
pub open spec fn tbs_bytes(timestamp: u64, inner: Seq<u8>) -> Seq<u8> {
    be64_bytes(timestamp) + inner
}

/// The relay form: signature, timestamp, inner message.
pub open spec fn relay_encode_spec(p: PacketV) -> Seq<u8> {
    p.signature + be64_bytes(p.timestamp) + p.inner
}

/// All signature and name checks a packet must pass: the signature covers
/// the timestamp and inner bytes, the inner bytes parse as a DNS message,
/// and every answer's owner name is rooted at the key's z-base-32 label.
pub open spec fn packet_valid(p: PacketV) -> bool {
    &&& packet_sized(p)
    &&& sig_valid(p.public_key, tbs_bytes(p.timestamp, p.inner), p.signature)
    &&& match parse_message_spec(p.inner) {
        Some(m) => answers_rooted(m, z32_encode_spec(p.public_key)),
        None => false,
    }
}

/// Every answer has at least one label, and its last label, case-folded,
/// is the key label.
pub open spec fn answers_rooted(m: MessageV, key_label: Seq<u8>) -> bool {
    forall|i: int| 0 <= i < m.answers.len() ==> {
        let name = (#[trigger] m.answers[i]).name;
        name.len() >= 1 && fold_label(name.last()) == key_label
    }
}

/// What decoding a relay body yields for a given key: the packet, or the
/// first error in the order size, signature, encoding, names.
pub open spec fn decode_relay_spec(public_key: Seq<u8>, body: Seq<u8>) -> Result<
    PacketV,
    PacketError,
> {
    if body.len() < 72 {
        Err(PacketError::BadEncoding)
    } else if body.len() - 72 > MAX_INNER_LEN {
        Err(PacketError::TooLarge)
    } else {
        let p = PacketV {
            public_key,
            signature: body.take(64),
            timestamp: (undigits(nats_of(body.subrange(64, 72)), 256)) as u64,
            inner: body.skip(72),
        };
        if !sig_valid(public_key, tbs_bytes(p.timestamp, p.inner), p.signature) {
            Err(PacketError::BadSignature)
        } else {
            match parse_message_spec(p.inner) {
                None => Err(PacketError::BadEncoding),
                Some(m) => if answers_rooted(m, z32_encode_spec(public_key)) {
                    Ok(p)
                } else {
                    Err(PacketError::NameMismatch)
                },
            }
        }
    }
}

impl SignedPacket {
    /// The relay form of this packet: signature, timestamp, inner message.
    pub fn encode_relay(&self) -> (r: Vec<u8>)
        requires
            self@.signature.len() == 64,
        ensures
            r@ == relay_encode_spec(self@),
    {
        let mut out: Vec<u8> = Vec::new();
        let mut i: usize = 0;
        while i < 64
            invariant
                self@.signature.len() == 64,
                0 <= i <= 64,
                out@ =~= self@.signature.take(i as int),
            decreases 64 - i,
        {
            out.push(self.signature[i]);
            i = i + 1;
        }
        proof {
            assert(self@.signature.take(64) =~= self@.signature);
            lemma_pow_values();
        }
        let ts = digits_u64(self.timestamp, 256, 8);
        let mut j: usize = 0;
        let ghost sig_part = out@;
        while j < 8
            invariant
                ts@.len() == 8,
                nats_of(ts@) == digits_of(self.timestamp as nat, 256, 8),
                0 <= j <= 8,
                out@ =~= sig_part + ts@.take(j as int),
            decreases 8 - j,
        {
            out.push(ts[j]);
            j = j + 1;
        }
        let mut k: usize = 0;
        let ghost head_part = out@;
        while k < self.inner.len()
            invariant
                0 <= k <= self.inner@.len(),
                out@ =~= head_part + self.inner@.take(k as int),
            decreases self.inner@.len() - k,
        {
            out.push(self.inner[k]);
            k = k + 1;
        }
        proof {
            assert(ts@.take(8) =~= ts@);
            assert(ts@ =~= be64_bytes(self.timestamp)) by {
                assert(forall|i: int| 0 <= i < 8 ==>
                    digits_of(self.timestamp as nat, 256, 8)[i] == ts@[i] as nat);
                assert(bytes_of(digits_of(self.timestamp as nat, 256, 8)) =~= ts@);
            }
            assert(self.inner@.take(self.inner@.len() as int) =~= self.inner@);
            assert(out@ =~= relay_encode_spec(self@));
        }
        out
    }
}

/// Decodes and fully verifies the relay form of a packet under `public_key`:
/// splits off signature and timestamp, enforces the size bound, verifies
/// the Ed25519 signature over timestamp and inner message, parses the inner
/// message, and checks every answer is rooted at the key's label.
#[verifier::loop_isolation(false)]
pub fn decode_relay(public_key: &Vec<u8>, body: &Vec<u8>) -> (r: Result<SignedPacket, PacketError>)
    requires
        public_key@.len() == 32,
    ensures
        match r {
            Ok(p) => decode_relay_spec(public_key@, body@) == Ok::<PacketV, PacketError>(p@)
                && packet_valid(p@),
            Err(e) => decode_relay_spec(public_key@, body@) == Err::<PacketV, PacketError>(e),
        },
{
    if body.len() < 72 {
        return Err(PacketError::BadEncoding);
    }
    if body.len() - 72 > MAX_INNER_LEN {
        return Err(PacketError::TooLarge);
    }
    let mut signature: Vec<u8> = Vec::new();
    let mut i: usize = 0;
    while i < 64
        invariant
            body@.len() >= 72,
            0 <= i <= 64,
            signature@ =~= body@.take(i as int),
        decreases 64 - i,
    {
        signature.push(body[i]);
        i = i + 1;
    }
    let mut ts_bytes: Vec<u8> = Vec::new();
    let mut j: usize = 64;
    while j < 72
        invariant
            body@.len() >= 72,
            64 <= j <= 72,
            ts_bytes@ =~= body@.subrange(64, j as int),
        decreases 72 - j,
    {
        ts_bytes.push(body[j]);
        j = j + 1;
    }
    proof {
        lemma_pow_values();
        assert(forall|i: int| 0 <= i < 8 ==> nats_of(ts_bytes@)[i] < 256);
    }
    let timestamp = undigits_u64(&ts_bytes, 256);
    let mut inner: Vec<u8> = Vec::new();
    let mut k: usize = 72;
    while k < body.len()
        invariant
            body@.len() >= 72,
            72 <= k <= body@.len(),
            inner@ =~= body@.subrange(72, k as int),
        decreases body@.len() - k,
    {
        inner.push(body[k]);
        k = k + 1;
    }
    proof {
        assert(inner@ =~= body@.skip(72));
        assert(signature@ =~= body@.take(64));
    }
    // the signature covers timestamp and inner message
    let mut tbs: Vec<u8> = Vec::new();
    let mut t: usize = 0;
    while t < 8
        invariant
            ts_bytes@.len() == 8,
            0 <= t <= 8,
            tbs@ =~= ts_bytes@.take(t as int),
        decreases 8 - t,
    {
        tbs.push(ts_bytes[t]);
        t = t + 1;
    }
    let mut u: usize = 0;
    let ghost ts_part = tbs@;
    while u < inner.len()
        invariant
            0 <= u <= inner@.len(),
            tbs@ =~= ts_part + inner@.take(u as int),
        decreases inner@.len() - u,
    {
        tbs.push(inner[u]);
        u = u + 1;
    }
    proof {
        assert(ts_bytes@.take(8) =~= ts_bytes@);
        assert(inner@.take(inner@.len() as int) =~= inner@);
        assert(ts_bytes@ =~= be64_bytes(timestamp)) by {
            lemma_pow_values();
            crate::radix::lemma_undigits_bounded(nats_of(ts_bytes@), 256);
            crate::radix::lemma_digits_of_undigits(nats_of(ts_bytes@), 256);
            assert(bytes_of(nats_of(ts_bytes@)) =~= ts_bytes@);
        }
        assert(tbs@ =~= tbs_bytes(timestamp, inner@));
    }
    if !ed25519_verify(public_key, &tbs, &signature) {
        return Err(PacketError::BadSignature);
    }
    let message = match parse_message(&inner) {
        None => {
            return Err(PacketError::BadEncoding);
        },
        Some(m) => m,
    };
    let key_label = z32_encode(public_key);
    let mut a: usize = 0;
    while a < message.answers.len()
        invariant
            public_key@.len() == 32,
            key_label@ == z32_encode_spec(public_key@),
            0 <= a <= message.answers@.len(),
            forall|i: int| 0 <= i < a ==> {
                let name = (#[trigger] crate::wire::records_view(message.answers@)[i]).name;
                name.len() >= 1 && fold_label(name.last()) == key_label@
            },
        decreases message.answers@.len() - a,
    {
        let rec = &message.answers[a];
        let n = rec.name.num_labels();
        if n == 0 {
            proof {
                let nm = message@.answers[a as int].name;
                assert(nm.len() == 0);
                assert(!answers_rooted(message@, z32_encode_spec(public_key@)));
            }
            return Err(PacketError::NameMismatch);
        }
        let top = crate::name::fold_label_bytes(rec.name.label_at(n - 1));
        if !bytes_equal(&top, &key_label) {
            proof {
                let nm = message@.answers[a as int].name;
                assert(nm.last() == rec.name@[n - 1]);
                assert(fold_label(nm.last()) != z32_encode_spec(public_key@));
                assert(!answers_rooted(message@, z32_encode_spec(public_key@)));
            }
            return Err(PacketError::NameMismatch);
        }
        proof {
            let nm = crate::wire::records_view(message.answers@)[a as int].name;
            assert(nm.last() == rec.name@[n - 1]);
        }
        a = a + 1;
    }
    let packet = SignedPacket { public_key: crate::name::clone_bytes(public_key), signature, timestamp, inner };
    proof {
        assert(answers_rooted(message@, z32_encode_spec(public_key@)));
        assert(packet@ == decode_relay_spec(public_key@, body@)->Ok_0);
    }
    Ok(packet)
}

/// What checking a packet yields: the first failed check, in the order
/// sizes, signature, encoding, names.
pub open spec fn check_packet_spec(p: PacketV) -> Result<(), PacketError> {
    if p.public_key.len() != 32 || p.signature.len() != 64 {
        Err(PacketError::BadEncoding)
    } else if p.inner.len() > MAX_INNER_LEN {
        Err(PacketError::TooLarge)
    } else if !sig_valid(p.public_key, tbs_bytes(p.timestamp, p.inner), p.signature) {
        Err(PacketError::BadSignature)
    } else {
        match parse_message_spec(p.inner) {
            None => Err(PacketError::BadEncoding),
            Some(m) => if answers_rooted(m, z32_encode_spec(p.public_key)) {
                Ok(())
            } else {
                Err(PacketError::NameMismatch)
            },
        }
    }
}

/// Runs every check a packet must pass — sizes, signature over timestamp
/// and inner message, inner message parse, answers rooted at the key label
/// — and returns the parsed inner message.
#[verifier::loop_isolation(false)]
pub fn verify_packet(packet: &SignedPacket) -> (r: Result<WireMessage, PacketError>)
    ensures
        match r {
            Ok(m) => check_packet_spec(packet@) is Ok && packet_valid(packet@)
                && parse_message_spec(packet@.inner) == Some(m@),
            Err(e) => check_packet_spec(packet@) == Err::<(), PacketError>(e) && !packet_valid(
                packet@,
            ),
        },
{
    if packet.public_key.len() != 32 || packet.signature.len() != 64 {
        return Err(PacketError::BadEncoding);
    }
    if packet.inner.len() > MAX_INNER_LEN {
        return Err(PacketError::TooLarge);
    }
    proof {
        lemma_pow_values();
    }
    let ts = digits_u64(packet.timestamp, 256, 8);
    let mut tbs: Vec<u8> = Vec::new();
    let mut t: usize = 0;
    while t < 8
        invariant
            ts@.len() == 8,
            0 <= t <= 8,
            tbs@ =~= ts@.take(t as int),
        decreases 8 - t,
    {
        tbs.push(ts[t]);
        t = t + 1;
    }
    let ghost ts_part = tbs@;
    let mut u: usize = 0;
    while u < packet.inner.len()
        invariant
            0 <= u <= packet.inner@.len(),
            tbs@ =~= ts_part + packet.inner@.take(u as int),
        decreases packet.inner@.len() - u,
    {
        tbs.push(packet.inner[u]);
        u = u + 1;
    }
    proof {
        assert(ts@.take(8) =~= ts@);
        assert(packet.inner@.take(packet.inner@.len() as int) =~= packet.inner@);
        assert(ts@ =~= be64_bytes(packet.timestamp)) by {
            assert(forall|i: int| 0 <= i < 8 ==>
                digits_of(packet.timestamp as nat, 256, 8)[i] == ts@[i] as nat);
            assert(bytes_of(digits_of(packet.timestamp as nat, 256, 8)) =~= ts@);
        }
        assert(tbs@ =~= tbs_bytes(packet.timestamp, packet.inner@));
    }
    if !ed25519_verify(&packet.public_key, &tbs, &packet.signature) {
        return Err(PacketError::BadSignature);
    }
    let message = match parse_message(&packet.inner) {
        None => {
            return Err(PacketError::BadEncoding);
        },
        Some(m) => m,
    };
    let key_label = z32_encode(&packet.public_key);
    let mut a: usize = 0;
    while a < message.answers.len()
        invariant
            packet.public_key@.len() == 32,
            key_label@ == z32_encode_spec(packet.public_key@),
            0 <= a <= message.answers@.len(),
            forall|i: int| 0 <= i < a ==> {
                let name = (#[trigger] crate::wire::records_view(message.answers@)[i]).name;
                name.len() >= 1 && fold_label(name.last()) == key_label@
            },
        decreases message.answers@.len() - a,
    {
        let rec = &message.answers[a];
        let n = rec.name.num_labels();
        if n == 0 {
            proof {
                let nm = message@.answers[a as int].name;
                assert(nm.len() == 0);
                assert(!answers_rooted(message@, z32_encode_spec(packet.public_key@)));
            }
            return Err(PacketError::NameMismatch);
        }
        let top = crate::name::fold_label_bytes(rec.name.label_at(n - 1));
        if !bytes_equal(&top, &key_label) {
            proof {
                let nm = message@.answers[a as int].name;
                assert(nm.last() == rec.name@[n - 1]);
                assert(fold_label(nm.last()) != z32_encode_spec(packet.public_key@));
                assert(!answers_rooted(message@, z32_encode_spec(packet.public_key@)));
            }
            return Err(PacketError::NameMismatch);
        }
        proof {
            let nm = message@.answers[a as int].name;
            assert(nm.last() == rec.name@[n - 1]);
        }
        a = a + 1;
    }
    proof {
        assert(answers_rooted(message@, z32_encode_spec(packet.public_key@)));
    }
    Ok(message)
}

/// The round trip law of the relay form: decoding the encoding of a valid
/// packet under its own key yields exactly that packet.
pub proof fn lemma_relay_round_trip(p: PacketV)
    requires
        packet_valid(p),
    ensures
        decode_relay_spec(p.public_key, relay_encode_spec(p)) == Ok::<PacketV, PacketError>(p),
{
    let body = relay_encode_spec(p);
    lemma_pow_values();
    crate::radix::lemma_digits_of_bounded(p.timestamp as nat, 256, 8);
    assert(be64_bytes(p.timestamp).len() == 8);
    assert(body.len() == 72 + p.inner.len());
    assert(body.take(64) =~= p.signature);
    assert(body.subrange(64, 72) =~= be64_bytes(p.timestamp));
    assert(body.skip(72) =~= p.inner);
    assert(nats_of(be64_bytes(p.timestamp)) =~= digits_of(p.timestamp as nat, 256, 8));
    lemma_undigits_of_digits(p.timestamp as nat, 256, 8);
    assert(undigits(nats_of(body.subrange(64, 72)), 256) == p.timestamp as nat);
}

} // verus!
