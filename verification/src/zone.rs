//! Per-key zones projected from signed packets.
//!
//! A packet's answers become a zone: SOA and NS records are dropped, a
//! record whose top label is not the key's label is dropped, and every kept
//! record's owner name loses the key label and is folded to lower case, so
//! names in a zone are relative to the key. A zone lookup collects the
//! records under one relative name and type.

use vstd::prelude::*;
use crate::name::{bytes_equal, clone_bytes, fold_label, fold_name, DnsName};
use crate::wire::{records_view, RecordV, WireMessage, WireRecord};
use crate::{RT_NS, RT_SOA};

verus! {

/// The data of one record inside a record set: time to live and raw bytes.
pub struct RecordData {
    pub ttl: u32,
    pub rdata: Vec<u8>,
}

/// The mathematical form of one record's data.
pub ghost struct RecordDataV {
    pub ttl: u32,
    pub rdata: Seq<u8>,
}

impl View for RecordData {
    type V = RecordDataV;

    open spec fn view(&self) -> RecordDataV {
        RecordDataV { ttl: self.ttl, rdata: self.rdata@ }
    }
}

/// The view of a sequence of record data.
pub open spec fn items_view(v: Seq<RecordData>) -> Seq<RecordDataV> {
    Seq::new(v.len(), |i: int| v[i]@)
}

/// Whether a packet answer is kept in the zone: not SOA or NS, and its
/// owner name is rooted at the key's label, case-folded.
pub open spec fn keeps(r: RecordV, key_label: Seq<u8>) -> bool {
    r.rtype != RT_SOA && r.rtype != RT_NS && r.name.len() >= 1 && fold_label(r.name.last())
        == key_label
}

/// The record with the key label stripped and the remaining name folded.
pub open spec fn strip_fold(r: RecordV) -> RecordV {
    RecordV {
        name: fold_name(r.name.drop_last()),
        rtype: r.rtype,
        rclass: r.rclass,
        ttl: r.ttl,
        rdata: r.rdata,
    }
}

/// All records, stripped and folded.
pub open spec fn strip_all(rs: Seq<RecordV>) -> Seq<RecordV> {
    Seq::new(rs.len(), |i: int| strip_fold(rs[i]))
}

/// The zone a run of answers projects to: the kept records, stripped.
pub open spec fn spec_project(answers: Seq<RecordV>, key_label: Seq<u8>) -> Seq<RecordV> {
    strip_all(answers.filter(|r: RecordV| keeps(r, key_label)))
}

/// The data items of the given records.
pub open spec fn items_of(rs: Seq<RecordV>) -> Seq<RecordDataV> {
    Seq::new(rs.len(), |i: int| RecordDataV { ttl: rs[i].ttl, rdata: rs[i].rdata })
}

/// The items a zone holds under one relative name and type.
pub open spec fn zone_items(zone: Seq<RecordV>, rel: Seq<Seq<u8>>, rtype: u16) -> Seq<
    RecordDataV,
> {
    items_of(zone.filter(|r: RecordV| r.name == rel && r.rtype == rtype))
}

/// The in-memory projection of one signed packet.
pub struct PkarrZone {
    pub timestamp: u64,
    pub records: Vec<WireRecord>,
}

/// The mathematical form of a zone.
pub ghost struct ZoneV {
    pub timestamp: u64,
    pub records: Seq<RecordV>,
}

impl View for PkarrZone {
    type V = ZoneV;

    open spec fn view(&self) -> ZoneV {
        ZoneV { timestamp: self.timestamp, records: records_view(self.records@) }
    }
}

impl PkarrZone {
    /// Projects a parsed packet message into a zone.
    #[verifier::loop_isolation(false)]
    pub fn from_message(m: &WireMessage, key_label: &Vec<u8>, timestamp: u64) -> (r: PkarrZone)
        ensures
            r@.timestamp == timestamp,
            r@.records == spec_project(records_view(m.answers@), key_label@),
    {
        let ghost pred = |rec: RecordV| keeps(rec, key_label@);
        let mut records: Vec<WireRecord> = Vec::new();
        let mut k: usize = 0;
        proof {
            reveal(Seq::filter);
            assert(records_view(m.answers@).take(0) =~= Seq::<RecordV>::empty());
            assert(records_view(records@)
                =~= strip_all(records_view(m.answers@).take(0).filter(pred)));
        }
        while k < m.answers.len()
            invariant
                0 <= k <= m.answers@.len(),
                records_view(records@)
                    == strip_all(records_view(m.answers@).take(k as int).filter(pred)),
            decreases m.answers@.len() - k,
        {
            let ghost answers = records_view(m.answers@);
            let rec = &m.answers[k];
            let n = rec.name.num_labels();
            proof {
                reveal(Seq::filter);
                assert(answers.take(k + 1).drop_last() =~= answers.take(k as int));
                assert(answers.take(k + 1).last() == rec@);
            }
            if rec.rtype != RT_SOA && rec.rtype != RT_NS && n >= 1 {
                let top = crate::name::fold_label_bytes(rec.name.label_at(n - 1));
                if bytes_equal(&top, key_label) {
                    proof {
                        assert(keeps(rec@, key_label@));
                    }
                    let rel = rec.name.prefix(n - 1).folded();
                    let stripped = WireRecord {
                        name: rel,
                        rtype: rec.rtype,
                        rclass: rec.rclass,
                        ttl: rec.ttl,
                        rdata: clone_bytes(&rec.rdata),
                    };
                    let ghost old_recs = records_view(records@);
                    records.push(stripped);
                    proof {
                        assert(rec@.name.drop_last() =~= rec@.name.take(n - 1));
                        assert(stripped@ == strip_fold(rec@));
                        assert(records_view(records@) =~= old_recs.push(strip_fold(rec@)));
                        assert(answers.take(k + 1).filter(pred)
                            =~= answers.take(k as int).filter(pred).push(rec@));
                        assert(strip_all(answers.take(k as int).filter(pred).push(rec@))
                            =~= old_recs.push(strip_fold(rec@)));
                    }
                } else {
                    proof {
                        assert(!keeps(rec@, key_label@));
                        assert(answers.take(k + 1).filter(pred)
                            =~= answers.take(k as int).filter(pred));
                    }
                }
            } else {
                proof {
                    assert(!keeps(rec@, key_label@));
                    assert(answers.take(k + 1).filter(pred)
                        =~= answers.take(k as int).filter(pred));
                }
            }
            k = k + 1;
        }
        proof {
            assert(records_view(m.answers@).take(m.answers@.len() as int)
                =~= records_view(m.answers@));
        }
        PkarrZone { timestamp, records }
    }

    /// The data items stored under one relative name and type, in packet
    /// order. The name must already be folded.
    #[verifier::loop_isolation(false)]
    pub fn lookup(&self, rel: &DnsName, rtype: u16) -> (r: Vec<RecordData>)
        ensures
            items_view(r@) == zone_items(self@.records, rel@, rtype),
    {
        collect_items(&self.records, rel, rtype)
    }
}

/// Collects the data of the records under one name and type, in order.
#[verifier::loop_isolation(false)]
pub fn collect_items(records: &Vec<WireRecord>, name: &DnsName, rtype: u16) -> (r: Vec<
    RecordData,
>)
    ensures
        items_view(r@) == zone_items(records_view(records@), name@, rtype),
{
    let ghost pred = |rec: RecordV| rec.name == name@ && rec.rtype == rtype;
    let mut out: Vec<RecordData> = Vec::new();
    let mut k: usize = 0;
    proof {
        reveal(Seq::filter);
        assert(records_view(records@).take(0) =~= Seq::<RecordV>::empty());
        assert(items_view(out@) =~= items_of(records_view(records@).take(0).filter(pred)));
    }
    while k < records.len()
        invariant
            0 <= k <= records@.len(),
            items_view(out@) == items_of(records_view(records@).take(k as int).filter(pred)),
        decreases records@.len() - k,
    {
        let ghost zrs = records_view(records@);
        let rec = &records[k];
        proof {
            reveal(Seq::filter);
            assert(zrs.take(k + 1).drop_last() =~= zrs.take(k as int));
            assert(zrs.take(k + 1).last() == rec@);
        }
        if rec.rtype == rtype && rec.name.equals(name) {
            let ghost old_items = items_view(out@);
            out.push(RecordData { ttl: rec.ttl, rdata: clone_bytes(&rec.rdata) });
            proof {
                assert(pred(rec@));
                assert(zrs.take(k + 1).filter(pred) =~= zrs.take(k as int).filter(pred).push(
                    rec@,
                ));
                assert(items_view(out@) =~= old_items.push(
                    RecordDataV { ttl: rec@.ttl, rdata: rec@.rdata },
                ));
                assert(items_of(zrs.take(k as int).filter(pred).push(rec@)) =~= old_items.push(
                    RecordDataV { ttl: rec@.ttl, rdata: rec@.rdata },
                ));
            }
        } else {
            proof {
                assert(!pred(rec@));
                assert(zrs.take(k + 1).filter(pred) =~= zrs.take(k as int).filter(pred));
            }
        }
        k = k + 1;
    }
    proof {
        assert(records_view(records@).take(records@.len() as int) =~= records_view(records@));
    }
    out
}

/// Looking up a projected zone is looking into the packet itself: the items
/// under a relative name and type are exactly the data of the packet's
/// answers that are kept for the key, carry that type, and whose stripped,
/// folded owner name is that name.
pub proof fn lemma_zone_lookup_project(
    answers: Seq<RecordV>,
    key_label: Seq<u8>,
    rel: Seq<Seq<u8>>,
    rtype: u16,
)
    ensures
        zone_items(spec_project(answers, key_label), rel, rtype) == items_of(
            answers.filter(
                |r: RecordV| keeps(r, key_label) && fold_name(r.name.drop_last()) == rel
                    && r.rtype == rtype,
            ),
        ),
    decreases answers.len(),
{
    reveal(Seq::filter);
    let keep_pred = |r: RecordV| keeps(r, key_label);
    let look_pred = |r: RecordV| r.name == rel && r.rtype == rtype;
    let full_pred = |r: RecordV| keeps(r, key_label) && fold_name(r.name.drop_last()) == rel
        && r.rtype == rtype;
    if answers.len() == 0 {
        assert(answers.filter(keep_pred) =~= Seq::<RecordV>::empty());
        assert(strip_all(answers.filter(keep_pred)) =~= Seq::<RecordV>::empty());
        assert(spec_project(answers, key_label).filter(look_pred) =~= Seq::<RecordV>::empty());
        assert(answers.filter(full_pred) =~= Seq::<RecordV>::empty());
        assert(zone_items(spec_project(answers, key_label), rel, rtype) =~= items_of(
            answers.filter(full_pred),
        ));
    } else {
        let a0 = answers.drop_last();
        let r = answers.last();
        lemma_zone_lookup_project(a0, key_label, rel, rtype);
        if keep_pred(r) {
            assert(answers.filter(keep_pred) == a0.filter(keep_pred).push(r));
            assert(strip_all(a0.filter(keep_pred).push(r)) =~= strip_all(a0.filter(keep_pred))
                .push(strip_fold(r)));
            let z0 = spec_project(a0, key_label);
            assert(spec_project(answers, key_label) == z0.push(strip_fold(r)));
            assert(z0.push(strip_fold(r)).drop_last() =~= z0);
            if look_pred(strip_fold(r)) {
                assert(full_pred(r));
                assert(answers.filter(full_pred) == a0.filter(full_pred).push(r));
                assert(z0.push(strip_fold(r)).filter(look_pred) == z0.filter(look_pred).push(
                    strip_fold(r),
                ));
                assert(items_of(z0.filter(look_pred).push(strip_fold(r))) =~= items_of(
                    z0.filter(look_pred),
                ).push(RecordDataV { ttl: r.ttl, rdata: r.rdata }));
                assert(items_of(a0.filter(full_pred).push(r)) =~= items_of(a0.filter(full_pred))
                    .push(RecordDataV { ttl: r.ttl, rdata: r.rdata }));
            } else {
                assert(!full_pred(r));
                assert(answers.filter(full_pred) == a0.filter(full_pred));
                assert(z0.push(strip_fold(r)).filter(look_pred) == z0.filter(look_pred));
            }
        } else {
            assert(!full_pred(r));
            assert(answers.filter(keep_pred) == a0.filter(keep_pred));
            assert(answers.filter(full_pred) == a0.filter(full_pred));
            assert(spec_project(answers, key_label) == spec_project(a0, key_label));
        }
    }
}

} // verus!
