//! z-base-32 encoding of 32-byte public keys.
//!
//! A key's canonical text form is 52 characters from the z-base-32 alphabet:
//! the key's 256 bits are read most significant first, five bits per
//! character, the final character carrying four padding zero bits. The
//! decoder is strict: it accepts exactly the strings the encoder produces.

use vstd::prelude::*;
use crate::radix::{
    lemma_pow_values,
    digits_of, lemma_digits_of_bounded, lemma_digits_of_undigits, lemma_undigits_bounded,
    lemma_undigits_of_digits, nats_of, pow_b, undigits, digits_u64, undigits_u64,
};
use vstd::arithmetic::div_mod::{lemma_div_multiples_vanish, lemma_mod_multiples_basic};

verus! {

/// The z-base-32 alphabet character for a digit (digits 32 and above map to 0).
pub open spec fn z32_char(d: nat) -> u8 {
    if d == 0 { 121 } else if d == 1 { 98 } else if d == 2 { 110 } else if d == 3 { 100 }
    else if d == 4 { 114 } else if d == 5 { 102 } else if d == 6 { 103 } else if d == 7 { 56 }
    else if d == 8 { 101 } else if d == 9 { 106 } else if d == 10 { 107 } else if d == 11 { 109 }
    else if d == 12 { 99 } else if d == 13 { 112 } else if d == 14 { 113 } else if d == 15 { 120 }
    else if d == 16 { 111 } else if d == 17 { 116 } else if d == 18 { 49 } else if d == 19 { 117 }
    else if d == 20 { 119 } else if d == 21 { 105 } else if d == 22 { 115 } else if d == 23 { 122 }
    else if d == 24 { 97 } else if d == 25 { 51 } else if d == 26 { 52 } else if d == 27 { 53 }
    else if d == 28 { 104 } else if d == 29 { 55 } else if d == 30 { 54 } else if d == 31 { 57 }
    else { 0 }
}

/// The digit of a z-base-32 character; 32 marks a character outside the alphabet.
pub open spec fn z32_val(c: u8) -> nat {
    if c == 121 { 0 } else if c == 98 { 1 } else if c == 110 { 2 } else if c == 100 { 3 }
    else if c == 114 { 4 } else if c == 102 { 5 } else if c == 103 { 6 } else if c == 56 { 7 }
    else if c == 101 { 8 } else if c == 106 { 9 } else if c == 107 { 10 } else if c == 109 { 11 }
    else if c == 99 { 12 } else if c == 112 { 13 } else if c == 113 { 14 } else if c == 120 { 15 }
    else if c == 111 { 16 } else if c == 116 { 17 } else if c == 49 { 18 } else if c == 117 { 19 }
    else if c == 119 { 20 } else if c == 105 { 21 } else if c == 115 { 22 } else if c == 122 { 23 }
    else if c == 97 { 24 } else if c == 51 { 25 } else if c == 52 { 26 } else if c == 53 { 27 }
    else if c == 104 { 28 } else if c == 55 { 29 } else if c == 54 { 30 } else if c == 57 { 31 }
    else { 32 }
}

/// Decoding a character the encoder wrote yields the digit back.
pub proof fn lemma_z32_char_val(d: nat)
    requires
        d < 32,
    ensures
        z32_val(z32_char(d)) == d,
{
}

/// Eight characters for a five-byte group.
pub open spec fn enc_group(b: Seq<u8>) -> Seq<u8> {
    let ds = digits_of(undigits(nats_of(b), 256), 32, 8);
    Seq::new(8, |j: int| z32_char(ds[j]))
}

/// Characters for a sequence of five-byte groups.
pub open spec fn enc_groups(b: Seq<u8>) -> Seq<u8>
    decreases b.len(),
{
    if b.len() < 5 {
        Seq::empty()
    } else {
        enc_group(b.take(5)) + enc_groups(b.skip(5))
    }
}

/// Four characters for the final two bytes (with four padding zero bits).
pub open spec fn enc_tail(b: Seq<u8>) -> Seq<u8> {
    let ds = digits_of(undigits(nats_of(b), 256) * 16, 32, 4);
    Seq::new(4, |j: int| z32_char(ds[j]))
}

/// The z-base-32 text of a 32-byte key.
pub open spec fn z32_encode_spec(b: Seq<u8>) -> Seq<u8> {
    enc_groups(b.take(30)) + enc_tail(b.skip(30))
}

/// The bytes written by a digit string, element-wise.
pub open spec fn bytes_of(s: Seq<nat>) -> Seq<u8> {
    Seq::new(s.len(), |i: int| s[i] as u8)
}

/// Five bytes for a group of eight characters, or `None` on a character
/// outside the alphabet.
pub open spec fn dec_group(s: Seq<u8>) -> Option<Seq<u8>> {
    if forall|j: int| 0 <= j < 8 ==> z32_val(s[j]) < 32 {
        Some(bytes_of(digits_of(undigits(Seq::new(8, |j: int| z32_val(s[j])), 32), 256, 5)))
    } else {
        None
    }
}

/// Bytes for a sequence of eight-character groups.
pub open spec fn dec_groups(s: Seq<u8>) -> Option<Seq<u8>>
    decreases s.len(),
{
    if s.len() < 8 {
        Some(Seq::empty())
    } else {
        match (dec_group(s.take(8)), dec_groups(s.skip(8))) {
            (Some(head), Some(rest)) => Some(head + rest),
            _ => None,
        }
    }
}

/// The final two bytes from the last four characters; the four padding bits
/// must be zero.
pub open spec fn dec_tail(s: Seq<u8>) -> Option<Seq<u8>> {
    if forall|j: int| 0 <= j < 4 ==> z32_val(s[j]) < 32 {
        let v4 = undigits(Seq::new(4, |j: int| z32_val(s[j])), 32);
        if v4 % 16 == 0 {
            Some(bytes_of(digits_of(v4 / 16, 256, 2)))
        } else {
            None
        }
    } else {
        None
    }
}

/// The 32-byte key a z-base-32 string denotes, or `None` if the string is
/// not the canonical encoding of any key.
pub open spec fn z32_decode_spec(s: Seq<u8>) -> Option<Seq<u8>> {
    if s.len() != 52 {
        None
    } else {
        match (dec_groups(s.take(48)), dec_tail(s.skip(48))) {
            (Some(head), Some(tail)) => Some(head + tail),
            _ => None,
        }
    }
}

/// Decoding an encoded five-byte group restores the group.
proof fn lemma_group_round_trip(b: Seq<u8>)
    requires
        b.len() == 5,
    ensures
        enc_group(b).len() == 8,
        dec_group(enc_group(b)) == Some(b),
{
    let v = undigits(nats_of(b), 256);
    assert(forall|i: int| 0 <= i < 5 ==> nats_of(b)[i] < 256);
    lemma_undigits_bounded(nats_of(b), 256);
    lemma_pow_values();
    assert(pow_b(256, 5) == pow_b(32, 8));
    let ds = digits_of(v, 32, 8);
    lemma_digits_of_bounded(v, 32, 8);
    let cs = enc_group(b);
    assert forall|j: int| 0 <= j < 8 implies z32_val(cs[j]) < 32 by {
        lemma_z32_char_val(ds[j]);
    }
    assert forall|j: int| 0 <= j < 8 implies Seq::new(8, |i: int| z32_val(cs[i]))[j] == ds[j] by {
        lemma_z32_char_val(ds[j]);
    }
    assert(Seq::new(8, |j: int| z32_val(cs[j])) =~= ds);
    lemma_undigits_of_digits(v, 32, 8);
    lemma_digits_of_undigits(nats_of(b), 256);
    assert(bytes_of(digits_of(v, 256, 5)) =~= b);
}

/// Decoding an encoded tail restores the final two bytes.
proof fn lemma_tail_round_trip(b: Seq<u8>)
    requires
        b.len() == 2,
    ensures
        enc_tail(b).len() == 4,
        dec_tail(enc_tail(b)) == Some(b),
{
    let v = undigits(nats_of(b), 256);
    assert(forall|i: int| 0 <= i < 2 ==> nats_of(b)[i] < 256);
    lemma_undigits_bounded(nats_of(b), 256);
    lemma_pow_values();
    assert(pow_b(256, 2) == 0x10000);
    assert(pow_b(32, 4) == 0x100000);
    let ds = digits_of(v * 16, 32, 4);
    lemma_digits_of_bounded(v * 16, 32, 4);
    let cs = enc_tail(b);
    assert forall|j: int| 0 <= j < 4 implies z32_val(cs[j]) < 32 by {
        lemma_z32_char_val(ds[j]);
    }
    assert forall|j: int| 0 <= j < 4 implies Seq::new(4, |i: int| z32_val(cs[i]))[j] == ds[j] by {
        lemma_z32_char_val(ds[j]);
    }
    assert(Seq::new(4, |j: int| z32_val(cs[j])) =~= ds);
    assert(v * 16 < pow_b(32, 4));
    lemma_undigits_of_digits(v * 16, 32, 4);
    lemma_mod_multiples_basic(v as int, 16);
    assert((v * 16) % 16 == (16 * v) % 16) by (nonlinear_arith);
    lemma_div_multiples_vanish(v as int, 16);
    assert((v * 16) / 16 == (16 * v) / 16) by (nonlinear_arith);
    lemma_digits_of_undigits(nats_of(b), 256);
    assert(bytes_of(digits_of(v, 256, 2)) =~= b);
}

/// Decoding an encoded run of five-byte groups restores the bytes.
proof fn lemma_groups_round_trip(b: Seq<u8>)
    requires
        b.len() % 5 == 0,
    ensures
        enc_groups(b).len() == b.len() / 5 * 8,
        dec_groups(enc_groups(b)) == Some(b),
    decreases b.len(),
{
    if b.len() < 5 {
        assert(b =~= Seq::<u8>::empty());
    } else {
        let head = b.take(5);
        let rest = b.skip(5);
        lemma_group_round_trip(head);
        lemma_groups_round_trip(rest);
        let e = enc_groups(b);
        assert(e == enc_group(head) + enc_groups(rest));
        assert(e.take(8) =~= enc_group(head));
        assert(e.skip(8) =~= enc_groups(rest));
        assert(head + rest =~= b);
    }
}

/// The law of the key text form: decoding the encoding of any 32-byte key
/// yields exactly that key.
pub proof fn lemma_z32_round_trip(b: Seq<u8>)
    requires
        b.len() == 32,
    ensures
        z32_encode_spec(b).len() == 52,
        z32_decode_spec(z32_encode_spec(b)) == Some(b),
{
    let head = b.take(30);
    let tail = b.skip(30);
    lemma_groups_round_trip(head);
    lemma_tail_round_trip(tail);
    let e = z32_encode_spec(b);
    assert(e.take(48) =~= enc_groups(head));
    assert(e.skip(48) =~= enc_tail(tail));
    assert(head + tail =~= b);
}

/// Encoding the digit of a character of the alphabet yields the character.
pub proof fn lemma_z32_val_char(c: u8)
    requires
        z32_val(c) < 32,
    ensures
        z32_char(z32_val(c)) == c,
{
}

/// Decoding a group of eight characters and encoding the five bytes back
/// restores the characters.
proof fn lemma_group_canonical(cs: Seq<u8>)
    requires
        cs.len() == 8,
        dec_group(cs) is Some,
    ensures
        dec_group(cs)->Some_0.len() == 5,
        enc_group(dec_group(cs)->Some_0) == cs,
{
    let vals = Seq::new(8, |j: int| z32_val(cs[j]));
    assert(forall|j: int| 0 <= j < 8 ==> vals[j] < 32);
    let v = undigits(vals, 32);
    lemma_undigits_bounded(vals, 32);
    lemma_pow_values();
    assert(pow_b(32, 8) == pow_b(256, 5));
    let b = bytes_of(digits_of(v, 256, 5));
    lemma_digits_of_bounded(v, 256, 5);
    assert(nats_of(b) =~= digits_of(v, 256, 5));
    lemma_undigits_of_digits(v, 256, 5);
    lemma_digits_of_undigits(vals, 32);
    assert(digits_of(v, 32, 8) == vals);
    assert forall|j: int| 0 <= j < 8 implies enc_group(b)[j] == cs[j] by {
        lemma_z32_val_char(cs[j]);
    }
    assert(enc_group(b) =~= cs);
}

/// Decoding the tail characters and encoding the two bytes back restores
/// the characters.
proof fn lemma_tail_canonical(cs: Seq<u8>)
    requires
        cs.len() == 4,
        dec_tail(cs) is Some,
    ensures
        dec_tail(cs)->Some_0.len() == 2,
        enc_tail(dec_tail(cs)->Some_0) == cs,
{
    let vals = Seq::new(4, |j: int| z32_val(cs[j]));
    assert(forall|j: int| 0 <= j < 4 ==> vals[j] < 32);
    let v4 = undigits(vals, 32);
    lemma_undigits_bounded(vals, 32);
    lemma_pow_values();
    assert(pow_b(32, 4) == 0x100000);
    assert(pow_b(256, 2) == 0x10000);
    let v = v4 / 16;
    vstd::arithmetic::div_mod::lemma_fundamental_div_mod(v4 as int, 16);
    assert(v4 == v * 16) by (nonlinear_arith)
        requires v4 % 16 == 0 && v == v4 / 16 && v4 == 16 * (v4 / 16) + v4 % 16;
    assert(v < 0x10000) by (nonlinear_arith)
        requires v4 < 0x100000 && v4 == v * 16;
    let b = bytes_of(digits_of(v, 256, 2));
    lemma_digits_of_bounded(v, 256, 2);
    assert(nats_of(b) =~= digits_of(v, 256, 2));
    lemma_undigits_of_digits(v, 256, 2);
    lemma_digits_of_undigits(vals, 32);
    assert(digits_of(v4, 32, 4) == vals);
    assert forall|j: int| 0 <= j < 4 implies enc_tail(b)[j] == cs[j] by {
        lemma_z32_val_char(cs[j]);
    }
    assert(enc_tail(b) =~= cs);
}

/// Decoding a run of groups and encoding the bytes back restores the
/// characters.
proof fn lemma_groups_canonical(cs: Seq<u8>)
    requires
        cs.len() % 8 == 0,
        dec_groups(cs) is Some,
    ensures
        dec_groups(cs)->Some_0.len() == cs.len() / 8 * 5,
        enc_groups(dec_groups(cs)->Some_0) == cs,
    decreases cs.len(),
{
    if cs.len() < 8 {
        assert(cs =~= Seq::<u8>::empty());
        assert(dec_groups(cs)->Some_0 =~= Seq::<u8>::empty());
    } else {
        let head = cs.take(8);
        let rest = cs.skip(8);
        lemma_group_canonical(head);
        lemma_groups_canonical(rest);
        let b_head = dec_group(head)->Some_0;
        let b_rest = dec_groups(rest)->Some_0;
        let b = dec_groups(cs)->Some_0;
        assert(b == b_head + b_rest);
        assert(b.len() >= 5);
        assert(b.take(5) =~= b_head);
        assert(b.skip(5) =~= b_rest);
        assert(enc_group(b.take(5)) + enc_groups(b.skip(5)) =~= cs);
    }
}

/// The canonicality law of the key text form: a string that decodes at all
/// is the encoding of the key it decodes to. Hence every key has exactly
/// one accepted text, and no two texts denote the same key.
pub proof fn lemma_z32_canonical(s: Seq<u8>)
    ensures
        match z32_decode_spec(s) {
            Some(b) => z32_encode_spec(b) == s && b.len() == 32,
            None => true,
        },
{
    if z32_decode_spec(s) is Some {
        let head_cs = s.take(48);
        let tail_cs = s.skip(48);
        lemma_groups_canonical(head_cs);
        lemma_tail_canonical(tail_cs);
        let b = z32_decode_spec(s)->Some_0;
        let b_head = dec_groups(head_cs)->Some_0;
        let b_tail = dec_tail(tail_cs)->Some_0;
        assert(b == b_head + b_tail);
        assert(b.take(30) =~= b_head);
        assert(b.skip(30) =~= b_tail);
        assert(enc_groups(b.take(30)) + enc_tail(b.skip(30)) =~= s);
    }
}

/// The z-base-32 character for a digit below 32.
fn z32_char_of(d: u8) -> (r: u8)
    requires
        d < 32,
    ensures
        r == z32_char(d as nat),
{
    if d == 0 { 121 } else if d == 1 { 98 } else if d == 2 { 110 } else if d == 3 { 100 }
    else if d == 4 { 114 } else if d == 5 { 102 } else if d == 6 { 103 } else if d == 7 { 56 }
    else if d == 8 { 101 } else if d == 9 { 106 } else if d == 10 { 107 } else if d == 11 { 109 }
    else if d == 12 { 99 } else if d == 13 { 112 } else if d == 14 { 113 } else if d == 15 { 120 }
    else if d == 16 { 111 } else if d == 17 { 116 } else if d == 18 { 49 } else if d == 19 { 117 }
    else if d == 20 { 119 } else if d == 21 { 105 } else if d == 22 { 115 } else if d == 23 { 122 }
    else if d == 24 { 97 } else if d == 25 { 51 } else if d == 26 { 52 } else if d == 27 { 53 }
    else if d == 28 { 104 } else if d == 29 { 55 } else if d == 30 { 54 } else { 57 }
}

/// The digit of a z-base-32 character; 32 for a character outside the alphabet.
fn z32_val_of(c: u8) -> (r: u8)
    ensures
        r as nat == z32_val(c),
{
    if c == 121 { 0 } else if c == 98 { 1 } else if c == 110 { 2 } else if c == 100 { 3 }
    else if c == 114 { 4 } else if c == 102 { 5 } else if c == 103 { 6 } else if c == 56 { 7 }
    else if c == 101 { 8 } else if c == 106 { 9 } else if c == 107 { 10 } else if c == 109 { 11 }
    else if c == 99 { 12 } else if c == 112 { 13 } else if c == 113 { 14 } else if c == 120 { 15 }
    else if c == 111 { 16 } else if c == 116 { 17 } else if c == 49 { 18 } else if c == 117 { 19 }
    else if c == 119 { 20 } else if c == 105 { 21 } else if c == 115 { 22 } else if c == 122 { 23 }
    else if c == 97 { 24 } else if c == 51 { 25 } else if c == 52 { 26 } else if c == 53 { 27 }
    else if c == 104 { 28 } else if c == 55 { 29 } else if c == 54 { 30 } else if c == 57 { 31 }
    else { 32 }
}

/// Encodes a 32-byte public key as its 52-character z-base-32 text.
#[verifier::loop_isolation(false)]
pub fn z32_encode(b: &Vec<u8>) -> (r: Vec<u8>)
    requires
        b@.len() == 32,
    ensures
        r@ == z32_encode_spec(b@),
        r@.len() == 52,
{
    let ghost head = b@.take(30);
    let mut out: Vec<u8> = Vec::new();
    proof {
        assert(head.skip(0) =~= head);
        assert(out@ + enc_groups(head.skip(0)) =~= enc_groups(head));
    }
    let mut g: usize = 0;
    while g < 6
        invariant
            b@.len() == 32,
            0 <= g <= 6,
            enc_groups(head) == out@ + enc_groups(head.skip(5 * g)),
            out@.len() == 8 * g,
        decreases 6 - g,
    {
        let mut chunk: Vec<u8> = Vec::new();
        let mut k: usize = 0;
        while k < 5
            invariant
                b@.len() == 32,
                g < 6,
                0 <= k <= 5,
                chunk@ =~= b@.subrange(5 * g as int, 5 * g as int + k as int),
            decreases 5 - k,
        {
            chunk.push(b[5 * g + k]);
            k = k + 1;
        }
        proof {
            lemma_pow_values();
            assert(pow_b(256, 5) <= 0x1_0000_0000_0000_0000);
        }
        let v = undigits_u64(&chunk, 256);
        proof {
            lemma_undigits_bounded(nats_of(chunk@), 256);
            lemma_pow_values();
            assert(pow_b(256, 5) == pow_b(32, 8));
        }
        let ds = digits_u64(v, 32, 8);
        let ghost old_out = out@;
        let mut j: usize = 0;
        while j < 8
            invariant
                ds@.len() == 8,
                forall|i: int| 0 <= i < 8 ==> ds@[i] < 32,
                nats_of(ds@) == digits_of(v as nat, 32, 8),
                0 <= j <= 8,
                out@ =~= old_out + Seq::new(j as nat, |i: int| z32_char(ds@[i] as nat)),
            decreases 8 - j,
        {
            out.push(z32_char_of(ds[j]));
            j = j + 1;
        }
        proof {
            let sub = head.skip(5 * g as int);
            assert forall|i: int| 0 <= i < 5 implies sub.take(5)[i] == b@[5 * g + i] by {
                assert(sub.take(5)[i] == head[5 * g + i]);
            }
            assert(sub.take(5) =~= b@.subrange(5 * g as int, 5 * g as int + 5));
            assert(chunk@ == sub.take(5));
            assert(enc_group(sub.take(5)) =~= Seq::new(8, |i: int| z32_char(ds@[i] as nat))) by {
                assert(forall|i: int| 0 <= i < 8 ==>
                    digits_of(v as nat, 32, 8)[i] == ds@[i] as nat);
            }
            assert(sub.skip(5) =~= head.skip(5 * (g + 1) as int));
            assert(enc_groups(sub) == enc_group(sub.take(5)) + enc_groups(sub.skip(5)));
            assert(old_out + (enc_group(sub.take(5)) + enc_groups(sub.skip(5)))
                =~= out@ + enc_groups(head.skip(5 * (g + 1) as int)));
        }
        g = g + 1;
    }
    proof {
        assert(head.skip(30) =~= Seq::<u8>::empty());
        assert(enc_groups(head.skip(30)) =~= Seq::<u8>::empty());
        assert(out@ =~= enc_groups(head));
    }
    // final two bytes, four padding zero bits
    let mut chunk: Vec<u8> = Vec::new();
    chunk.push(b[30]);
    chunk.push(b[31]);
    proof {
        assert(chunk@ =~= b@.skip(30));
        lemma_pow_values();
        assert(pow_b(256, 2) <= 0x1_0000_0000_0000_0000);
    }
    let v = undigits_u64(&chunk, 256);
    proof {
        lemma_undigits_bounded(nats_of(chunk@), 256);
        lemma_pow_values();
        assert(pow_b(256, 2) == 0x10000);
        assert(pow_b(32, 4) == 0x100000);
    }
    let ds = digits_u64(v * 16, 32, 4);
    let ghost before_tail = out@;
    let mut j: usize = 0;
    while j < 4
        invariant
            ds@.len() == 4,
            forall|i: int| 0 <= i < 4 ==> ds@[i] < 32,
            nats_of(ds@) == digits_of((v * 16) as nat, 32, 4),
            0 <= j <= 4,
            out@ =~= before_tail + Seq::new(j as nat, |i: int| z32_char(ds@[i] as nat)),
        decreases 4 - j,
    {
        out.push(z32_char_of(ds[j]));
        j = j + 1;
    }
    proof {
        assert((v * 16) as nat == undigits(nats_of(b@.skip(30)), 256) * 16);
        assert(enc_tail(b@.skip(30)) =~= Seq::new(4, |i: int| z32_char(ds@[i] as nat))) by {
            assert(forall|i: int| 0 <= i < 4 ==>
                digits_of((v * 16) as nat, 32, 4)[i] == ds@[i] as nat);
        }
        assert(out@ =~= z32_encode_spec(b@));
        lemma_groups_round_trip(head);
    }
    out
}

/// Decodes a 52-character z-base-32 string to the 32-byte key it denotes.
/// Returns `None` unless the string is the canonical text of some key.
#[verifier::loop_isolation(false)]
pub fn z32_decode(s: &Vec<u8>) -> (r: Option<Vec<u8>>)
    ensures
        match r {
            Some(b) => z32_decode_spec(s@) == Some(b@) && b@.len() == 32,
            None => z32_decode_spec(s@) is None,
        },
{
    if s.len() != 52 {
        return None;
    }
    let ghost head = s@.take(48);
    let mut out: Vec<u8> = Vec::new();
    proof {
        assert(head.skip(0) =~= head);
        assert forall|rest: Seq<u8>| dec_groups(head.skip(0)) == Some(rest)
            implies dec_groups(head) == Some(out@ + rest) by {
            assert(out@ + rest =~= rest);
        }
    }
    let mut g: usize = 0;
    while g < 6
        invariant
            s@.len() == 52,
            0 <= g <= 6,
            out@.len() == 5 * g,
            forall|rest: Seq<u8>|
                dec_groups(head.skip(8 * g)) == Some(rest) ==> dec_groups(head) == Some(out@ + rest),
            dec_groups(head.skip(8 * g)) is None ==> dec_groups(head) is None,
        decreases 6 - g,
    {
        let mut vals: Vec<u8> = Vec::new();
        let mut j: usize = 0;
        let mut ok: bool = true;
        while j < 8
            invariant
                s@.len() == 52,
                g < 6,
                0 <= j <= 8,
                vals@.len() == j,
                forall|i: int| 0 <= i < j ==> (#[trigger] vals@[i]) as nat == z32_val(s@[8 * g + i]),
                ok ==> (forall|i: int| 0 <= i < j ==> #[trigger] vals@[i] < 32),
                !ok ==> (exists|i: int| 0 <= i < j && #[trigger] vals@[i] >= 32),
            decreases 8 - j,
        {
            let v = z32_val_of(s[8 * g + j]);
            let ghost prev = vals@;
            vals.push(v);
            proof {
                if v >= 32 {
                    assert(vals@[j as int] >= 32);
                }
                if !ok {
                    let bad = choose|i: int| 0 <= i < prev.len() && #[trigger] prev[i] >= 32;
                    assert(vals@[bad] == prev[bad]);
                    assert(vals@[bad] >= 32);
                }
            }
            if v >= 32 {
                ok = false;
            }
            j = j + 1;
        }
        let ghost sub = head.skip(8 * g);
        proof {
            assert(sub.take(8) =~= s@.subrange(8 * g as int, 8 * g as int + 8));
            assert(dec_groups(sub) == match (dec_group(sub.take(8)), dec_groups(sub.skip(8))) {
                (Some(h), Some(rst)) => Some(h + rst),
                _ => None,
            });
        }
        if !ok {
            proof {
                let bad = choose|i: int| 0 <= i < 8 && #[trigger] vals@[i] >= 32;
                assert(sub.take(8)[bad] == s@[8 * g + bad]);
                assert(z32_val(sub.take(8)[bad]) >= 32);
                assert(dec_group(sub.take(8)) is None);
                assert(dec_groups(sub) is None);
                assert(z32_decode_spec(s@) is None);
            }
            return None;
        }
        proof {
            assert forall|i: int| 0 <= i < 8 implies sub.take(8)[i] == s@[8 * g + i] by {
                assert(sub.take(8)[i] == head[8 * g + i]);
            }
            assert forall|i: int| 0 <= i < 8 implies z32_val(sub.take(8)[i]) < 32 by {
                assert(vals@[i] < 32);
            }
            assert(dec_group(sub.take(8)) is Some);
            lemma_pow_values();
            assert(pow_b(32, 8) <= 0x1_0000_0000_0000_0000);
        }
        let v = undigits_u64(&vals, 32);
        proof {
            assert(Seq::new(8, |i: int| z32_val(sub.take(8)[i])) =~= nats_of(vals@));
            lemma_undigits_bounded(nats_of(vals@), 32);
            lemma_pow_values();
            assert(pow_b(32, 8) == pow_b(256, 5));
        }
        let bs = digits_u64(v, 256, 5);
        let ghost before_out = out@;
        let mut k: usize = 0;
        while k < 5
            invariant
                bs@.len() == 5,
                0 <= k <= 5,
                out@ =~= before_out + bs@.take(k as int),
            decreases 5 - k,
        {
            out.push(bs[k]);
            k = k + 1;
        }
        proof {
            assert(bs@.take(5) =~= bs@);
            assert(bytes_of(digits_of(v as nat, 256, 5)) =~= bs@) by {
                assert(forall|i: int| 0 <= i < 5 ==>
                    digits_of(v as nat, 256, 5)[i] == bs@[i] as nat);
            }
            assert(dec_group(sub.take(8)) == Some(bs@));
            assert(sub.skip(8) =~= head.skip(8 * (g + 1) as int));
            if dec_groups(head.skip(8 * (g + 1) as int)) is None {
                assert(dec_groups(sub) is None);
            }
            assert forall|rest: Seq<u8>| dec_groups(head.skip(8 * (g + 1) as int)) == Some(rest)
                implies dec_groups(head) == Some(out@ + rest) by {
                assert(dec_groups(sub) == Some(bs@ + rest));
                assert(before_out + (bs@ + rest) =~= out@ + rest);
            }
        }
        g = g + 1;
    }
    proof {
        assert(head.skip(48) =~= Seq::<u8>::empty());
        assert(dec_groups(head.skip(48)) == Some(Seq::<u8>::empty()));
        assert(dec_groups(head) == Some(out@ + Seq::<u8>::empty()));
        assert(out@ + Seq::<u8>::empty() =~= out@);
    }
    // tail: last four characters carry the final two bytes
    let mut vals: Vec<u8> = Vec::new();
    let mut j: usize = 0;
    let mut ok: bool = true;
    while j < 4
        invariant
            s@.len() == 52,
            0 <= j <= 4,
            vals@.len() == j,
            forall|i: int| 0 <= i < j ==> (#[trigger] vals@[i]) as nat == z32_val(s@[48 + i]),
            ok ==> (forall|i: int| 0 <= i < j ==> #[trigger] vals@[i] < 32),
            !ok ==> (exists|i: int| 0 <= i < j && #[trigger] vals@[i] >= 32),
        decreases 4 - j,
    {
        let v = z32_val_of(s[48 + j]);
        let ghost prev = vals@;
        vals.push(v);
        proof {
            if v >= 32 {
                assert(vals@[j as int] >= 32);
            }
            if !ok {
                let bad = choose|i: int| 0 <= i < prev.len() && #[trigger] prev[i] >= 32;
                assert(vals@[bad] == prev[bad]);
                assert(vals@[bad] >= 32);
            }
        }
        if v >= 32 {
            ok = false;
        }
        j = j + 1;
    }
    let ghost tail = s@.skip(48);
    proof {
        assert(forall|i: int| 0 <= i < 4 ==> tail[i] == s@[48 + i]);
    }
    if !ok {
        proof {
            let bad = choose|i: int| 0 <= i < 4 && #[trigger] vals@[i] >= 32;
            assert(z32_val(tail[bad]) >= 32);
            assert(dec_tail(tail) is None);
        }
        return None;
    }
    proof {
        lemma_pow_values();
        assert(pow_b(32, 4) <= 0x1_0000_0000_0000_0000);
    }
    let v4 = undigits_u64(&vals, 32);
    proof {
        assert forall|i: int| 0 <= i < 4 implies z32_val(tail[i]) < 32 by {
            assert(vals@[i] < 32);
        }
        assert(Seq::new(4, |i: int| z32_val(tail[i])) =~= nats_of(vals@));
        lemma_undigits_bounded(nats_of(vals@), 32);
        lemma_pow_values();
        assert(pow_b(32, 4) == 0x100000);
    }
    if v4 % 16 != 0 {
        proof {
            assert(dec_tail(tail) is None);
        }
        return None;
    }
    let v = v4 / 16;
    proof {
        lemma_pow_values();
        assert(pow_b(256, 2) == 0x10000);
        assert(v < 0x10000);
    }
    let bs = digits_u64(v, 256, 2);
    let ghost before_tail_out = out@;
    out.push(bs[0]);
    out.push(bs[1]);
    proof {
        assert(bytes_of(digits_of(v as nat, 256, 2)) =~= bs@) by {
            assert(forall|i: int| 0 <= i < 2 ==> digits_of(v as nat, 256, 2)[i] == bs@[i] as nat);
        }
        assert(dec_tail(tail) == Some(bs@));
        assert(out@ =~= before_tail_out + bs@);
        assert(z32_decode_spec(s@) == Some(out@));
    }
    Some(out)
}

} // verus!
