//! SOA record data: parsed from its text form, written in its wire form.
//!
//! The configured SOA is a text of seven space-separated fields: the
//! primary name server, the responsible mailbox, and the serial, refresh,
//! retry, expire and minimum numbers. The serial becomes the serial of
//! every synthesized record set.

use vstd::prelude::*;
use crate::attrs::split_parts;
use crate::name::{name_wf, parse_name_text, parse_name_text_spec, DnsName};
use crate::radix::{digits_of, digits_u64, lemma_pow_values, pow_b};
use crate::z32::bytes_of;

verus! {

/// The value of a decimal digit string, most significant digit first.
pub open spec fn dec_val(s: Seq<u8>) -> int
    decreases s.len(),
{
    if s.len() == 0 {
        0
    } else {
        dec_val(s.drop_last()) * 10 + (s.last() - 48)
    }
}

/// Ten to the `n`.
pub open spec fn ten_pow(n: nat) -> nat
    decreases n,
{
    if n == 0 {
        1
    } else {
        10 * ten_pow((n - 1) as nat)
    }
}

/// Whether every byte is a decimal digit.
pub open spec fn all_digits(s: Seq<u8>) -> bool {
    forall|i: int| 0 <= i < s.len() ==> 48 <= #[trigger] s[i] <= 57
}

/// The number a decimal text denotes: `None` on an empty text, a text of
/// more than ten digits, a byte that is no digit, or a value above `u32`.
pub open spec fn parse_u32_spec(s: Seq<u8>) -> Option<u32> {
    if s.len() == 0 || s.len() > 10 || !all_digits(s) {
        None
    } else if dec_val(s) < 0x1_0000_0000 {
        Some(dec_val(s) as u32)
    } else {
        None
    }
}

/// Parses a decimal text as a `u32`.
#[verifier::loop_isolation(false)]
pub fn parse_u32(s: &Vec<u8>) -> (r: Option<u32>)
    ensures
        r == parse_u32_spec(s@),
{
    if s.len() == 0 || s.len() > 10 {
        return None;
    }
    let mut acc: u64 = 0;
    let mut i: usize = 0;
    proof {
        reveal_with_fuel(ten_pow, 11);
    }
    while i < s.len()
        invariant
            s@.len() <= 10,
            0 <= i <= s@.len(),
            all_digits(s@.take(i as int)),
            acc == dec_val(s@.take(i as int)),
            acc < ten_pow(i as nat),
        decreases s@.len() - i,
    {
        let b = s[i];
        if b < 48 || b > 57 {
            proof {
                assert(s@.take(s@.len() as int) =~= s@);
                assert(!all_digits(s@));
            }
            return None;
        }
        proof {
            reveal_with_fuel(ten_pow, 11);
            assert(s@.take(i + 1).drop_last() =~= s@.take(i as int));
            assert(s@.take(i + 1).last() == s@[i as int]);
            assert(forall|j: int| 0 <= j < i + 1 ==> 48 <= #[trigger] s@.take(i + 1)[j] <= 57);
            assert(ten_pow((i + 1) as nat) == 10 * ten_pow(i as nat));
            assert(ten_pow(i as nat) <= ten_pow(10)) by {
                lemma_ten_pow_monotonic(i as nat, 10);
            }
        }
        acc = acc * 10 + ((b - 48) as u64);
        i = i + 1;
    }
    proof {
        assert(s@.take(s@.len() as int) =~= s@);
    }
    if acc < 0x1_0000_0000 {
        Some(acc as u32)
    } else {
        None
    }
}

/// `ten_pow` grows with its argument.
proof fn lemma_ten_pow_monotonic(m: nat, n: nat)
    requires
        m <= n,
    ensures
        ten_pow(m) <= ten_pow(n),
    decreases n,
{
    if m < n {
        lemma_ten_pow_monotonic(m, (n - 1) as nat);
        assert(ten_pow(n) == 10 * ten_pow((n - 1) as nat));
    }
}

/// SOA record data: the two names and the five numbers.
pub struct SoaData {
    pub mname: DnsName,
    pub rname: DnsName,
    pub serial: u32,
    pub refresh: u32,
    pub retry: u32,
    pub expire: u32,
    pub minimum: u32,
}

/// The mathematical form of SOA record data.
pub ghost struct SoaDataV {
    pub mname: Seq<Seq<u8>>,
    pub rname: Seq<Seq<u8>>,
    pub serial: u32,
    pub refresh: u32,
    pub retry: u32,
    pub expire: u32,
    pub minimum: u32,
}

impl View for SoaData {
    type V = SoaDataV;

    open spec fn view(&self) -> SoaDataV {
        SoaDataV {
            mname: self.mname@,
            rname: self.rname@,
            serial: self.serial,
            refresh: self.refresh,
            retry: self.retry,
            expire: self.expire,
            minimum: self.minimum,
        }
    }
}

/// The non-empty fields of a space-separated text.
pub open spec fn fields_of(s: Seq<u8>) -> Seq<Seq<u8>> {
    split_parts(s, 32, 0).filter(|p: Seq<u8>| p.len() > 0)
}

/// The SOA data a text denotes: exactly seven fields, two names and five
/// numbers, each well formed.
pub open spec fn parse_soa_spec(s: Seq<u8>) -> Option<SoaDataV> {
    let fs = fields_of(s);
    if fs.len() != 7 {
        None
    } else {
        match (parse_name_text_spec(fs[0]), parse_name_text_spec(fs[1]), parse_u32_spec(fs[2]),
        parse_u32_spec(fs[3]), parse_u32_spec(fs[4]), parse_u32_spec(fs[5]), parse_u32_spec(
            fs[6],
        )) {
            (
                Some(mname),
                Some(rname),
                Some(serial),
                Some(refresh),
                Some(retry),
                Some(expire),
                Some(minimum),
            ) => Some(SoaDataV { mname, rname, serial, refresh, retry, expire, minimum }),
            _ => None,
        }
    }
}

/// Parses the configured SOA text: seven space-separated fields.
#[verifier::loop_isolation(false)]
pub fn parse_soa(s: &Vec<u8>) -> (r: Option<SoaData>)
    ensures
        match r {
            Some(soa) => parse_soa_spec(s@) == Some(soa@) && name_wf(soa@.mname) && name_wf(
                soa@.rname,
            ),
            None => parse_soa_spec(s@) is None,
        },
{
    let ghost keep = |p: Seq<u8>| p.len() > 0;
    let parts = crate::attrs::split_parts_exec(s, 32, 0);
    let ghost parts_v = Seq::new(parts@.len(), |j: int| parts@[j]@);
    let mut fields: Vec<Vec<u8>> = Vec::new();
    let mut k: usize = 0;
    proof {
        reveal(Seq::filter);
        assert(parts_v.take(0) =~= Seq::<Seq<u8>>::empty());
        assert(Seq::new(fields@.len(), |j: int| fields@[j]@) =~= parts_v.take(0).filter(keep));
    }
    while k < parts.len()
        invariant
            0 <= k <= parts@.len(),
            Seq::new(fields@.len(), |j: int| fields@[j]@) == parts_v.take(k as int).filter(keep),
        decreases parts@.len() - k,
    {
        proof {
            reveal(Seq::filter);
            assert(parts_v.take(k + 1).drop_last() =~= parts_v.take(k as int));
            assert(parts_v.take(k + 1).last() == parts@[k as int]@);
        }
        let ghost old_fields = Seq::new(fields@.len(), |j: int| fields@[j]@);
        if parts[k].len() > 0 {
            let part = crate::name::clone_bytes(&parts[k]);
            fields.push(part);
            proof {
                assert(Seq::new(fields@.len(), |j: int| fields@[j]@)
                    =~= old_fields.push(parts@[k as int]@));
            }
        }
        k = k + 1;
    }
    proof {
        assert(parts_v.take(parts_v.len() as int) =~= parts_v);
    }
    if fields.len() != 7 {
        return None;
    }
    proof {
        assert(fields_of(s@)[0] == fields@[0]@);
        assert(fields_of(s@)[1] == fields@[1]@);
        assert(fields_of(s@)[2] == fields@[2]@);
        assert(fields_of(s@)[3] == fields@[3]@);
        assert(fields_of(s@)[4] == fields@[4]@);
        assert(fields_of(s@)[5] == fields@[5]@);
        assert(fields_of(s@)[6] == fields@[6]@);
    }
    let mname = match parse_name_text(&fields[0]) {
        None => {
            return None;
        },
        Some(n) => n,
    };
    let rname = match parse_name_text(&fields[1]) {
        None => {
            return None;
        },
        Some(n) => n,
    };
    let serial = match parse_u32(&fields[2]) {
        None => {
            return None;
        },
        Some(v) => v,
    };
    let refresh = match parse_u32(&fields[3]) {
        None => {
            return None;
        },
        Some(v) => v,
    };
    let retry = match parse_u32(&fields[4]) {
        None => {
            return None;
        },
        Some(v) => v,
    };
    let expire = match parse_u32(&fields[5]) {
        None => {
            return None;
        },
        Some(v) => v,
    };
    let minimum = match parse_u32(&fields[6]) {
        None => {
            return None;
        },
        Some(v) => v,
    };
    Some(SoaData { mname, rname, serial, refresh, retry, expire, minimum })
}

/// The uncompressed wire form of a name: each label length-prefixed, then a
/// zero byte.
pub open spec fn name_wire(n: Seq<Seq<u8>>) -> Seq<u8>
    decreases n.len(),
{
    if n.len() == 0 {
        seq![0u8]
    } else {
        seq![n[0].len() as u8] + n[0] + name_wire(n.skip(1))
    }
}

/// A `u32` as four big-endian bytes.
pub open spec fn be32_bytes(v: u32) -> Seq<u8> {
    bytes_of(digits_of(v as nat, 256, 4))
}

/// Writes a `u32` as four big-endian bytes.
pub fn be32_bytes_exec(v: u32) -> (r: Vec<u8>)
    ensures
        r@ == be32_bytes(v),
{
    proof {
        lemma_pow_values();
        assert(pow_b(256, 4) == 0x1_0000_0000) by {
            reveal_with_fuel(pow_b, 5);
        }
    }
    let ds = digits_u64(v as u64, 256, 4);
    proof {
        assert(bytes_of(digits_of(v as nat, 256, 4)) =~= ds@) by {
            assert(forall|i: int| 0 <= i < 4 ==> digits_of(v as nat, 256, 4)[i] == ds@[i] as nat);
        }
    }
    ds
}

/// Writes a name in its uncompressed wire form.
#[verifier::loop_isolation(false)]
pub fn encode_name(n: &DnsName) -> (r: Vec<u8>)
    requires
        name_wf(n@),
    ensures
        r@ == name_wire(n@),
{
    let mut out: Vec<u8> = Vec::new();
    let mut i: usize = 0;
    proof {
        assert(n@.skip(0) =~= n@);
        assert(out@ + name_wire(n@.skip(0)) =~= name_wire(n@));
    }
    while i < n.num_labels()
        invariant
            0 <= i <= n@.len(),
            name_wire(n@) == out@ + name_wire(n@.skip(i as int)),
        decreases n@.len() - i,
    {
        let label = n.label_at(i);
        let ghost before = out@;
        out.push(label.len() as u8);
        let mut k: usize = 0;
        while k < label.len()
            invariant
                label@ == n@[i as int],
                out@ =~= before + seq![label@.len() as u8] + label@.take(k as int),
                0 <= k <= label@.len(),
            decreases label@.len() - k,
        {
            out.push(label[k]);
            k = k + 1;
        }
        proof {
            let sub = n@.skip(i as int);
            assert(label@.take(label@.len() as int) =~= label@);
            assert(sub[0] == n@[i as int]);
            assert(name_wire(sub) == seq![sub[0].len() as u8] + sub[0] + name_wire(sub.skip(1)));
            assert(sub.skip(1) =~= n@.skip(i + 1));
            assert(before + (seq![sub[0].len() as u8] + sub[0] + name_wire(n@.skip(i + 1)))
                =~= out@ + name_wire(n@.skip(i + 1)));
        }
        i = i + 1;
    }
    proof {
        assert(n@.skip(n@.len() as int) =~= Seq::<Seq<u8>>::empty());
    }
    out.push(0);
    proof {
        assert(out@ =~= name_wire(n@));
    }
    out
}

/// The wire form of SOA record data: the two names, then the five numbers.
pub open spec fn soa_rdata_spec(soa: SoaDataV) -> Seq<u8> {
    name_wire(soa.mname) + name_wire(soa.rname) + be32_bytes(soa.serial) + be32_bytes(soa.refresh)
        + be32_bytes(soa.retry) + be32_bytes(soa.expire) + be32_bytes(soa.minimum)
}

/// Writes SOA record data in its wire form.
pub fn encode_soa_rdata(soa: &SoaData) -> (r: Vec<u8>)
    requires
        name_wf(soa@.mname),
        name_wf(soa@.rname),
    ensures
        r@ == soa_rdata_spec(soa@),
{
    let mut out = encode_name(&soa.mname);
    let rn = encode_name(&soa.rname);
    let ghost parts0 = out@;
    let mut out = append_bytes(out, &rn);
    let s1 = be32_bytes_exec(soa.serial);
    let mut out = append_bytes(out, &s1);
    let s2 = be32_bytes_exec(soa.refresh);
    let mut out = append_bytes(out, &s2);
    let s3 = be32_bytes_exec(soa.retry);
    let mut out = append_bytes(out, &s3);
    let s4 = be32_bytes_exec(soa.expire);
    let mut out = append_bytes(out, &s4);
    let s5 = be32_bytes_exec(soa.minimum);
    let out = append_bytes(out, &s5);
    proof {
        assert(out@ =~= soa_rdata_spec(soa@));
    }
    out
}

/// Appends one byte string to another.
pub fn append_bytes(mut a: Vec<u8>, b: &Vec<u8>) -> (r: Vec<u8>)
    ensures
        r@ == a@ + b@,
{
    let ghost base = a@;
    let mut i: usize = 0;
    while i < b.len()
        invariant
            0 <= i <= b@.len(),
            a@ =~= base + b@.take(i as int),
        decreases b@.len() - i,
    {
        a.push(b[i]);
        i = i + 1;
    }
    proof {
        assert(b@.take(b@.len() as int) =~= b@);
    }
    a
}

} // verus!
