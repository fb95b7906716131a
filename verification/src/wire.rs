//! The DNS wire format: parsing a message into its questions and records.
//!
//! Names may use the standard compression scheme; a pointer must point
//! strictly before the position where the current name began, which also
//! bounds the parse. Record data is kept as raw bytes: the authority treats
//! record contents opaquely.

use vstd::prelude::*;
use crate::name::{name_wf, DnsName};

verus! {

/// A resource record: owner name, type, class, time to live, raw data.
pub ghost struct RecordV {
    pub name: Seq<Seq<u8>>,
    pub rtype: u16,
    pub rclass: u16,
    pub ttl: u32,
    pub rdata: Seq<u8>,
}

/// A resource record as parsed from or destined for the wire.
pub struct WireRecord {
    pub name: DnsName,
    pub rtype: u16,
    pub rclass: u16,
    pub ttl: u32,
    pub rdata: Vec<u8>,
}

impl View for WireRecord {
    type V = RecordV;

    open spec fn view(&self) -> RecordV {
        RecordV {
            name: self.name@,
            rtype: self.rtype,
            rclass: self.rclass,
            ttl: self.ttl,
            rdata: self.rdata@,
        }
    }
}

/// A question: queried name, type and class.
pub ghost struct QuestionV {
    pub name: Seq<Seq<u8>>,
    pub qtype: u16,
    pub qclass: u16,
}

/// A question as parsed from the wire.
pub struct WireQuestion {
    pub name: DnsName,
    pub qtype: u16,
    pub qclass: u16,
}

impl View for WireQuestion {
    type V = QuestionV;

    open spec fn view(&self) -> QuestionV {
        QuestionV { name: self.name@, qtype: self.qtype, qclass: self.qclass }
    }
}

/// A DNS message: header id and flags, and the four sections.
pub ghost struct MessageV {
    pub id: u16,
    pub flags: u16,
    pub questions: Seq<QuestionV>,
    pub answers: Seq<RecordV>,
    pub authorities: Seq<RecordV>,
    pub additionals: Seq<RecordV>,
}

/// A DNS message as parsed from the wire.
pub struct WireMessage {
    pub id: u16,
    pub flags: u16,
    pub questions: Vec<WireQuestion>,
    pub answers: Vec<WireRecord>,
    pub authorities: Vec<WireRecord>,
    pub additionals: Vec<WireRecord>,
}

/// The view of a sequence of records.
pub open spec fn records_view(v: Seq<WireRecord>) -> Seq<RecordV> {
    Seq::new(v.len(), |i: int| v[i]@)
}

/// The view of a sequence of questions.
pub open spec fn questions_view(v: Seq<WireQuestion>) -> Seq<QuestionV> {
    Seq::new(v.len(), |i: int| v[i]@)
}

impl View for WireMessage {
    type V = MessageV;

    open spec fn view(&self) -> MessageV {
        MessageV {
            id: self.id,
            flags: self.flags,
            questions: questions_view(self.questions@),
            answers: records_view(self.answers@),
            authorities: records_view(self.authorities@),
            additionals: records_view(self.additionals@),
        }
    }
}

/// The big-endian 16-bit value at `pos`.
pub open spec fn be16_at(s: Seq<u8>, pos: int) -> u16 {
    (s[pos] * 256 + s[pos + 1]) as u16
}

/// The big-endian 32-bit value at `pos`.
pub open spec fn be32_at(s: Seq<u8>, pos: int) -> u32 {
    (s[pos] * 0x1000000 + s[pos + 1] * 0x10000 + s[pos + 2] * 0x100 + s[pos + 3]) as u32
}

/// Parses a possibly compressed name at `pos`. A pointer may only target a
/// position strictly below `limit`, the position where the outermost name
/// began. Returns the labels and the position after the name.
pub open spec fn parse_name_at(s: Seq<u8>, pos: int, limit: int) -> Option<(Seq<Seq<u8>>, int)>
    decreases limit, s.len() - pos,
    when 0 <= limit <= s.len()
{
    if pos < 0 || pos >= s.len() {
        None
    } else {
        let b = s[pos];
        if b == 0 {
            Some((Seq::empty(), pos + 1))
        } else if b < 64 {
            if pos + 1 + b <= s.len() {
                match parse_name_at(s, pos + 1 + b, limit) {
                    None => None,
                    Some((labels, end)) => if labels.len() < 127 {
                        Some((seq![s.subrange(pos + 1, pos + 1 + b)] + labels, end))
                    } else {
                        None
                    },
                }
            } else {
                None
            }
        } else if b >= 192 {
            if pos + 1 < s.len() {
                let target = (b - 192) * 256 + s[pos + 1];
                if target < limit {
                    match parse_name_at(s, target, target) {
                        None => None,
                        Some((labels, _)) => Some((labels, pos + 2)),
                    }
                } else {
                    None
                }
            } else {
                None
            }
        } else {
            None
        }
    }
}

/// A parsed name is well formed and ends within the input, after `pos`.
pub proof fn lemma_parse_name_at_wf(s: Seq<u8>, pos: int, limit: int)
    requires
        0 <= limit <= s.len(),
    ensures
        match parse_name_at(s, pos, limit) {
            Some((labels, end)) => name_wf(labels) && pos < end <= s.len(),
            None => true,
        },
    decreases limit, s.len() - pos,
{
    if pos < 0 || pos >= s.len() {
    } else {
        let b = s[pos];
        if b == 0 {
        } else if b < 64 {
            if pos + 1 + b <= s.len() {
                lemma_parse_name_at_wf(s, pos + 1 + b, limit);
            }
        } else if b >= 192 {
            if pos + 1 < s.len() {
                let target = (b - 192) * 256 + s[pos + 1];
                if target < limit {
                    lemma_parse_name_at_wf(s, target, target);
                }
            }
        }
    }
}

/// Parses the question at `pos`: a name and four bytes.
pub open spec fn parse_question_at(s: Seq<u8>, pos: int) -> Option<(QuestionV, int)> {
    match parse_name_at(s, pos, pos) {
        None => None,
        Some((name, e)) => if e + 4 <= s.len() {
            Some((QuestionV { name, qtype: be16_at(s, e), qclass: be16_at(s, e + 2) }, e + 4))
        } else {
            None
        },
    }
}

/// Parses the record at `pos`: a name, ten fixed bytes, and the record data.
pub open spec fn parse_record_at(s: Seq<u8>, pos: int) -> Option<(RecordV, int)> {
    match parse_name_at(s, pos, pos) {
        None => None,
        Some((name, e)) => if e + 10 <= s.len() {
            let rdlen = be16_at(s, e + 8) as int;
            if e + 10 + rdlen <= s.len() {
                Some((
                    RecordV {
                        name,
                        rtype: be16_at(s, e),
                        rclass: be16_at(s, e + 2),
                        ttl: be32_at(s, e + 4),
                        rdata: s.subrange(e + 10, e + 10 + rdlen),
                    },
                    e + 10 + rdlen,
                ))
            } else {
                None
            }
        } else {
            None
        },
    }
}

/// Parses `n` questions starting at `pos`.
pub open spec fn parse_questions_at(s: Seq<u8>, pos: int, n: int) -> Option<(Seq<QuestionV>, int)>
    decreases n,
{
    if n <= 0 {
        Some((Seq::empty(), pos))
    } else {
        match parse_question_at(s, pos) {
            None => None,
            Some((q, e)) => match parse_questions_at(s, e, n - 1) {
                None => None,
                Some((rest, end)) => Some((seq![q] + rest, end)),
            },
        }
    }
}

/// Parses `n` records starting at `pos`.
pub open spec fn parse_records_at(s: Seq<u8>, pos: int, n: int) -> Option<(Seq<RecordV>, int)>
    decreases n,
{
    if n <= 0 {
        Some((Seq::empty(), pos))
    } else {
        match parse_record_at(s, pos) {
            None => None,
            Some((r, e)) => match parse_records_at(s, e, n - 1) {
                None => None,
                Some((rest, end)) => Some((seq![r] + rest, end)),
            },
        }
    }
}

/// The message a byte string holds: header, questions, answers, authority
/// and additional records, consuming the whole input.
pub open spec fn parse_message_spec(s: Seq<u8>) -> Option<MessageV> {
    if s.len() < 12 {
        None
    } else {
        let qd = be16_at(s, 4) as int;
        let an = be16_at(s, 6) as int;
        let ns = be16_at(s, 8) as int;
        let ar = be16_at(s, 10) as int;
        match parse_questions_at(s, 12, qd) {
            None => None,
            Some((questions, p1)) => match parse_records_at(s, p1, an) {
                None => None,
                Some((answers, p2)) => match parse_records_at(s, p2, ns) {
                    None => None,
                    Some((authorities, p3)) => match parse_records_at(s, p3, ar) {
                        None => None,
                        Some((additionals, p4)) => if p4 == s.len() {
                            Some(MessageV {
                                id: be16_at(s, 0),
                                flags: be16_at(s, 2),
                                questions,
                                answers,
                                authorities,
                                additionals,
                            })
                        } else {
                            None
                        },
                    },
                },
            },
        }
    }
}

/// Reads the big-endian 16-bit value at `pos`.
fn read_be16(s: &Vec<u8>, pos: usize) -> (r: u16)
    requires
        pos + 2 <= s.len(),
    ensures
        r == be16_at(s@, pos as int),
{
    (s[pos] as u16) * 256 + (s[pos + 1] as u16)
}

/// Reads the big-endian 32-bit value at `pos`.
fn read_be32(s: &Vec<u8>, pos: usize) -> (r: u32)
    requires
        pos + 4 <= s.len(),
    ensures
        r == be32_at(s@, pos as int),
{
    (s[pos] as u32) * 0x1000000 + (s[pos + 1] as u32) * 0x10000 + (s[pos + 2] as u32) * 0x100
        + (s[pos + 3] as u32)
}

/// Parses a possibly compressed name at `pos`.
fn parse_name_exec(s: &Vec<u8>, pos: usize, limit: usize) -> (r: Option<(DnsName, usize)>)
    requires
        limit <= s@.len(),
    ensures
        match r {
            Some((n, end)) => parse_name_at(s@, pos as int, limit as int)
                == Some((n@, end as int)) && name_wf(n@) && pos < end <= s.len(),
            None => parse_name_at(s@, pos as int, limit as int) is None,
        },
    decreases limit, s@.len() - pos,
{
    if pos >= s.len() {
        return None;
    }
    let b = s[pos];
    if b == 0 {
        Some((DnsName { labels: Vec::new() }, pos + 1))
    } else if b < 64 {
        let blen = b as usize;
        if blen <= s.len() - (pos + 1) {
            match parse_name_exec(s, pos + 1 + blen, limit) {
                None => None,
                Some((mut name, end)) => {
                    if name.labels.len() < 127 {
                        let mut label: Vec<u8> = Vec::new();
                        let mut k: usize = pos + 1;
                        while k < pos + 1 + blen
                            invariant
                                pos + 1 <= k <= pos + 1 + blen,
                                pos + 1 + blen <= s.len(),
                                label@ =~= s@.subrange(pos + 1, k as int),
                            decreases pos + 1 + blen - k,
                        {
                            label.push(s[k]);
                            k = k + 1;
                        }
                        let ghost old_name = name@;
                        name.labels.insert(0, label);
                        proof {
                            assert(name@ =~= seq![s@.subrange(pos + 1, pos + 1 + blen)]
                                + old_name);
                        }
                        Some((name, end))
                    } else {
                        None
                    }
                },
            }
        } else {
            None
        }
    } else if b >= 192 {
        if pos + 1 < s.len() {
            let target = ((b - 192) as usize) * 256 + (s[pos + 1] as usize);
            if target < limit {
                match parse_name_exec(s, target, target) {
                    None => None,
                    Some((name, _)) => Some((name, pos + 2)),
                }
            } else {
                None
            }
        } else {
            None
        }
    } else {
        None
    }
}

/// Parses the question at `pos`.
fn parse_question_exec(s: &Vec<u8>, pos: usize) -> (r: Option<(WireQuestion, usize)>)
    requires
        pos <= s@.len(),
    ensures
        match r {
            Some((q, end)) => parse_question_at(s@, pos as int) == Some((q@, end as int))
                && name_wf(q@.name) && pos < end <= s.len(),
            None => parse_question_at(s@, pos as int) is None,
        },
{
    match parse_name_exec(s, pos, pos) {
        None => None,
        Some((name, e)) => {
            if s.len() - e >= 4 {
                let qtype = read_be16(s, e);
                let qclass = read_be16(s, e + 2);
                Some((WireQuestion { name, qtype, qclass }, e + 4))
            } else {
                None
            }
        },
    }
}

/// Parses the record at `pos`.
fn parse_record_exec(s: &Vec<u8>, pos: usize) -> (r: Option<(WireRecord, usize)>)
    requires
        pos <= s@.len(),
    ensures
        match r {
            Some((rec, end)) => parse_record_at(s@, pos as int) == Some((rec@, end as int))
                && name_wf(rec@.name) && pos < end <= s.len(),
            None => parse_record_at(s@, pos as int) is None,
        },
{
    match parse_name_exec(s, pos, pos) {
        None => None,
        Some((name, e)) => {
            if s.len() - e >= 10 {
                let rtype = read_be16(s, e);
                let rclass = read_be16(s, e + 2);
                let ttl = read_be32(s, e + 4);
                let rdlen = read_be16(s, e + 8) as usize;
                if rdlen <= s.len() - (e + 10) {
                    let mut rdata: Vec<u8> = Vec::new();
                    let mut k: usize = e + 10;
                    while k < e + 10 + rdlen
                        invariant
                            e + 10 <= k <= e + 10 + rdlen,
                            e + 10 + rdlen <= s.len(),
                            rdata@ =~= s@.subrange(e + 10, k as int),
                        decreases e + 10 + rdlen - k,
                    {
                        rdata.push(s[k]);
                        k = k + 1;
                    }
                    Some((WireRecord { name, rtype, rclass, ttl, rdata }, e + 10 + rdlen))
                } else {
                    None
                }
            } else {
                None
            }
        },
    }
}

/// Parses `n` questions starting at `pos`.
#[verifier::loop_isolation(false)]
fn parse_questions_exec(s: &Vec<u8>, pos: usize, n: usize) -> (r: Option<(Vec<WireQuestion>, usize)>)
    requires
        pos <= s@.len(),
    ensures
        match r {
            Some((qs, end)) => parse_questions_at(s@, pos as int, n as int)
                == Some((questions_view(qs@), end as int)) && end <= s.len(),
            None => parse_questions_at(s@, pos as int, n as int) is None,
        },
{
    let mut out: Vec<WireQuestion> = Vec::new();
    let mut cur: usize = pos;
    let mut i: usize = 0;
    proof {
        assert(questions_view(out@) + Seq::<QuestionV>::empty() =~= questions_view(out@));
    }
    while i < n
        invariant
            0 <= i <= n,
            cur <= s.len(),
            forall|rest: Seq<QuestionV>, end: int|
                parse_questions_at(s@, cur as int, n - i) == Some((rest, end))
                    ==> parse_questions_at(s@, pos as int, n as int)
                        == Some((questions_view(out@) + rest, end)),
            parse_questions_at(s@, cur as int, n - i) is None
                ==> parse_questions_at(s@, pos as int, n as int) is None,
        decreases n - i,
    {
        match parse_question_exec(s, cur) {
            None => {
                return None;
            },
            Some((q, e)) => {
                let ghost old_out = questions_view(out@);
                out.push(q);
                proof {
                    assert(questions_view(out@) =~= old_out + seq![q@]);
                    assert forall|rest: Seq<QuestionV>, end: int|
                        parse_questions_at(s@, e as int, n - i - 1) == Some((rest, end))
                            implies parse_questions_at(s@, pos as int, n as int)
                                == Some((questions_view(out@) + rest, end)) by {
                        assert(parse_questions_at(s@, cur as int, n - i)
                            == Some((seq![q@] + rest, end)));
                        assert(old_out + (seq![q@] + rest) =~= questions_view(out@) + rest);
                    }
                }
                cur = e;
            },
        }
        i = i + 1;
    }
    proof {
        assert(questions_view(out@) + Seq::<QuestionV>::empty() =~= questions_view(out@));
    }
    Some((out, cur))
}

/// Parses `n` records starting at `pos`.
#[verifier::loop_isolation(false)]
fn parse_records_exec(s: &Vec<u8>, pos: usize, n: usize) -> (r: Option<(Vec<WireRecord>, usize)>)
    requires
        pos <= s@.len(),
    ensures
        match r {
            Some((rs, end)) => parse_records_at(s@, pos as int, n as int)
                == Some((records_view(rs@), end as int)) && end <= s.len(),
            None => parse_records_at(s@, pos as int, n as int) is None,
        },
{
    let mut out: Vec<WireRecord> = Vec::new();
    let mut cur: usize = pos;
    let mut i: usize = 0;
    proof {
        assert(records_view(out@) + Seq::<RecordV>::empty() =~= records_view(out@));
    }
    while i < n
        invariant
            0 <= i <= n,
            cur <= s.len(),
            forall|rest: Seq<RecordV>, end: int|
                parse_records_at(s@, cur as int, n - i) == Some((rest, end))
                    ==> parse_records_at(s@, pos as int, n as int)
                        == Some((records_view(out@) + rest, end)),
            parse_records_at(s@, cur as int, n - i) is None
                ==> parse_records_at(s@, pos as int, n as int) is None,
        decreases n - i,
    {
        match parse_record_exec(s, cur) {
            None => {
                return None;
            },
            Some((rec, e)) => {
                let ghost old_out = records_view(out@);
                out.push(rec);
                proof {
                    assert(records_view(out@) =~= old_out + seq![rec@]);
                    assert forall|rest: Seq<RecordV>, end: int|
                        parse_records_at(s@, e as int, n - i - 1) == Some((rest, end))
                            implies parse_records_at(s@, pos as int, n as int)
                                == Some((records_view(out@) + rest, end)) by {
                        assert(parse_records_at(s@, cur as int, n - i)
                            == Some((seq![rec@] + rest, end)));
                        assert(old_out + (seq![rec@] + rest) =~= records_view(out@) + rest);
                    }
                }
                cur = e;
            },
        }
        i = i + 1;
    }
    proof {
        assert(records_view(out@) + Seq::<RecordV>::empty() =~= records_view(out@));
    }
    Some((out, cur))
}

/// Parses a whole DNS message, or returns `None` if the bytes are not a
/// well-formed message that the parser consumes exactly.
pub fn parse_message(s: &Vec<u8>) -> (r: Option<WireMessage>)
    ensures
        match r {
            Some(m) => parse_message_spec(s@) == Some(m@),
            None => parse_message_spec(s@) is None,
        },
{
    if s.len() < 12 {
        return None;
    }
    let id = read_be16(s, 0);
    let flags = read_be16(s, 2);
    let qd = read_be16(s, 4) as usize;
    let an = read_be16(s, 6) as usize;
    let ns = read_be16(s, 8) as usize;
    let ar = read_be16(s, 10) as usize;
    let (questions, p1) = match parse_questions_exec(s, 12, qd) {
        None => {
            return None;
        },
        Some(x) => x,
    };
    let (answers, p2) = match parse_records_exec(s, p1, an) {
        None => {
            return None;
        },
        Some(x) => x,
    };
    let (authorities, p3) = match parse_records_exec(s, p2, ns) {
        None => {
            return None;
        },
        Some(x) => x,
    };
    let (additionals, p4) = match parse_records_exec(s, p3, ar) {
        None => {
            return None;
        },
        Some(x) => x,
    };
    if p4 != s.len() {
        return None;
    }
    Some(WireMessage { id, flags, questions, answers, authorities, additionals })
}

} // verus!
