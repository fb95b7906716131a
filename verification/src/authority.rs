//! The zone authority: a static zone merged with per-key zones projected
//! from signed packets, and the name-resolution algorithm over them.
//!
//! A query name is folded and matched against the configured origins,
//! longest match first. The label above the matched origin must decode as a
//! z-base-32 public key; the rest of the name is looked up in that key's
//! zone, and the answer's owner name is the folded query name itself, so an
//! answer can never carry records out under another origin. Zone transfers
//! are refused, dynamic updates are not implemented.

use vstd::prelude::*;
use crate::metrics::{bump, bumped, Metrics};
use crate::name::{fold_name, is_suffix_of, name_wf, parse_name_text, parse_name_text_spec, DnsName};
use crate::packet::{decode_relay, packet_valid, PacketError, PacketV, SignedPacket};
use crate::soa::{encode_soa_rdata, name_wire, parse_soa, parse_soa_spec, soa_rdata_spec, SoaData, SoaDataV};
use crate::store::{store_upsert_spec, store_upsert_writes, SignedPacketStore, StoreError};
use crate::wire::{parse_message, parse_message_spec, records_view, RecordV, WireRecord};
use crate::z32::{z32_decode, z32_decode_spec, z32_encode, z32_encode_spec};
use crate::zone::{
    collect_items, items_of, items_view, keeps, spec_project, zone_items, PkarrZone, RecordData,
    RecordDataV, ZoneV,
};
use crate::{CLASS_IN, DEFAULT_A_TTL, DEFAULT_NS_TTL, DEFAULT_SOA_TTL, RT_A, RT_AXFR, RT_NS, RT_SOA};

verus! {

/// Where a published packet came from.
pub enum PacketSource {
    /// The relay endpoint.
    PkarrPublish,
    /// A distributed-hash-table resolver feeding the authority.
    Mainline,
}

/// A synthesized record set: one owner name, one type, the authority's
/// serial, and the records' data.
pub struct RecordSet {
    pub name: DnsName,
    pub rtype: u16,
    pub serial: u32,
    pub items: Vec<RecordData>,
}

/// The mathematical form of a record set.
pub ghost struct RecordSetV {
    pub name: Seq<Seq<u8>>,
    pub rtype: u16,
    pub serial: u32,
    pub items: Seq<RecordDataV>,
}

impl View for RecordSet {
    type V = RecordSetV;

    open spec fn view(&self) -> RecordSetV {
        RecordSetV {
            name: self.name@,
            rtype: self.rtype,
            serial: self.serial,
            items: items_view(self.items@),
        }
    }
}

/// What a lookup yields.
pub enum LookupOutcome {
    /// An authoritative answer.
    Answer(RecordSet),
    /// The name is not in any served zone.
    NxDomain,
    /// The query is refused, as every zone transfer is.
    Refused,
    /// The operation is not implemented, as every dynamic update is.
    NotImp,
}

/// The mathematical form of a lookup outcome.
pub ghost enum LookupOutcomeV {
    Answer(RecordSetV),
    NxDomain,
    Refused,
    NotImp,
}

impl View for LookupOutcome {
    type V = LookupOutcomeV;

    open spec fn view(&self) -> LookupOutcomeV {
        match self {
            LookupOutcome::Answer(rs) => LookupOutcomeV::Answer(rs@),
            LookupOutcome::NxDomain => LookupOutcomeV::NxDomain,
            LookupOutcome::Refused => LookupOutcomeV::Refused,
            LookupOutcome::NotImp => LookupOutcomeV::NotImp,
        }
    }
}

/// The view of the per-key zone list.
pub open spec fn zones_view(zs: Seq<(Vec<u8>, PkarrZone)>) -> Seq<(Seq<u8>, ZoneV)> {
    Seq::new(zs.len(), |i: int| ((zs[i].0)@, (zs[i].1)@))
}

/// The index of the zone for `k` at or after `i`, if any.
pub open spec fn find_zone(zs: Seq<(Seq<u8>, ZoneV)>, k: Seq<u8>, i: int) -> Option<int>
    decreases zs.len() - i,
    when 0 <= i <= zs.len()
{
    if i >= zs.len() {
        None
    } else if zs[i].0 == k {
        Some(i)
    } else {
        find_zone(zs, k, i + 1)
    }
}

/// The zone stored for a key, if any.
pub open spec fn zone_at(zs: Seq<(Seq<u8>, ZoneV)>, k: Seq<u8>) -> Option<ZoneV> {
    match find_zone(zs, k, 0) {
        Some(i) => Some(zs[i].1),
        None => None,
    }
}

/// Whether the zone list has pairwise distinct keys.
pub open spec fn zones_unique(zs: Seq<(Seq<u8>, ZoneV)>) -> bool {
    forall|i: int, j: int| 0 <= i < j < zs.len() ==> (#[trigger] zs[i]).0 != (#[trigger] zs[j]).0
}

/// Whether a fresh zone for `k` would be accepted: no zone yet, or only a
/// strictly older one.
pub open spec fn zones_accepts(zs: Seq<(Seq<u8>, ZoneV)>, k: Seq<u8>, ts: u64) -> bool {
    match zone_at(zs, k) {
        None => true,
        Some(old) => old.timestamp < ts,
    }
}

/// The zone list after offering zone `z` for key `k`: replaced or appended
/// when accepted, unchanged otherwise.
pub open spec fn zones_after(zs: Seq<(Seq<u8>, ZoneV)>, k: Seq<u8>, z: ZoneV) -> Seq<
    (Seq<u8>, ZoneV),
> {
    if zones_accepts(zs, k, z.timestamp) {
        match find_zone(zs, k, 0) {
            Some(i) => zs.update(i, (k, z)),
            None => zs.push((k, z)),
        }
    } else {
        zs
    }
}

/// What `find_zone` says: the first index with the key, or no index at all.
pub proof fn lemma_find_zone_char(zs: Seq<(Seq<u8>, ZoneV)>, k: Seq<u8>, i: int)
    requires
        0 <= i <= zs.len(),
    ensures
        match find_zone(zs, k, i) {
            Some(j) => i <= j < zs.len() && zs[j].0 == k && (forall|m: int|
                i <= m < j ==> (#[trigger] zs[m]).0 != k),
            None => forall|m: int| i <= m < zs.len() ==> (#[trigger] zs[m]).0 != k,
        },
    decreases zs.len() - i,
{
    if i < zs.len() && zs[i].0 != k {
        lemma_find_zone_char(zs, k, i + 1);
    }
}

/// After an offer, the key's zone is the fresher of old and new, and every
/// other key's zone is untouched.
pub proof fn lemma_zone_at_after(zs: Seq<(Seq<u8>, ZoneV)>, k: Seq<u8>, z: ZoneV)
    requires
        zones_unique(zs),
    ensures
        zones_unique(zones_after(zs, k, z)),
        zone_at(zones_after(zs, k, z), k) == if zones_accepts(zs, k, z.timestamp) {
            Some(z)
        } else {
            zone_at(zs, k)
        },
        forall|k2: Seq<u8>| k2 != k ==> #[trigger] zone_at(zones_after(zs, k, z), k2) == zone_at(
            zs,
            k2,
        ),
        zones_after(zs, k, z).len() >= zs.len(),
{
    lemma_find_zone_char(zs, k, 0);
    let out = zones_after(zs, k, z);
    if zones_accepts(zs, k, z.timestamp) {
        match find_zone(zs, k, 0) {
            Some(i) => {
                assert(zs[i].0 == k);
                assert(forall|m: int| 0 <= m < zs.len() ==> (#[trigger] out[m]).0 == zs[m].0);
                assert(zones_unique(out));
                lemma_find_zone_first(out, k, i);
                assert(out[i].1 == z);
            },
            None => {
                assert(forall|m: int| 0 <= m < zs.len() ==> (#[trigger] out[m]) == zs[m]);
                assert(forall|m: int| 0 <= m < zs.len() ==> (#[trigger] zs[m]).0 != k);
                assert(out[zs.len() as int].0 == k);
                assert(zones_unique(out));
                lemma_find_zone_first(out, k, zs.len() as int);
            },
        }
        assert forall|k2: Seq<u8>| k2 != k implies #[trigger] zone_at(out, k2) == zone_at(
            zs,
            k2,
        ) by {
            lemma_find_zone_char(out, k2, 0);
            lemma_find_zone_char(zs, k2, 0);
            match find_zone(zs, k2, 0) {
                Some(j) => {
                    assert(zs[j].0 == k2);
                    assert(out[j].0 == k2);
                    assert(forall|m: int| 0 <= m < j ==> (#[trigger] out[m]).0 == zs[m].0);
                    lemma_find_zone_first(out, k2, j);
                    assert(out[j].1 == zs[j].1);
                },
                None => {
                    if find_zone(out, k2, 0) is Some {
                        let j = find_zone(out, k2, 0)->Some_0;
                        assert(out[j].0 == k2);
                        assert(j < zs.len() ==> zs[j].0 == k2);
                        assert(j == zs.len() ==> out[j].0 == k);
                        assert(false);
                    }
                },
            }
        }
    }
}

/// If index `j` holds the key and no earlier index does, `find_zone` finds
/// exactly `j`.
pub proof fn lemma_find_zone_first(zs: Seq<(Seq<u8>, ZoneV)>, k: Seq<u8>, j: int)
    requires
        0 <= j < zs.len(),
        zs[j].0 == k,
        forall|m: int| 0 <= m < j ==> (#[trigger] zs[m]).0 != k,
    ensures
        find_zone(zs, k, 0) == Some(j),
{
    lemma_find_zone_first_from(zs, k, j, 0);
}

proof fn lemma_find_zone_first_from(zs: Seq<(Seq<u8>, ZoneV)>, k: Seq<u8>, j: int, i: int)
    requires
        0 <= i <= j < zs.len(),
        zs[j].0 == k,
        forall|m: int| i <= m < j ==> (#[trigger] zs[m]).0 != k,
    ensures
        find_zone(zs, k, i) == Some(j),
    decreases j - i,
{
    if i < j {
        lemma_find_zone_first_from(zs, k, j, i + 1);
    }
}


/// Whether `o` is an origin that contains `n` with at least one more label.
pub open spec fn origin_matches(o: Seq<Seq<u8>>, n: Seq<Seq<u8>>) -> bool {
    is_suffix_of(o, n) && n.len() >= o.len() + 1
}

/// The index of the longest matching origin at or after `i`; on equal
/// lengths the earliest index wins.
pub open spec fn best_origin_from(origins: Seq<Seq<Seq<u8>>>, n: Seq<Seq<u8>>, i: int) -> Option<
    int,
>
    decreases origins.len() - i,
    when 0 <= i <= origins.len()
{
    if i >= origins.len() {
        None
    } else {
        let rest = best_origin_from(origins, n, i + 1);
        if origin_matches(origins[i], n) {
            match rest {
                None => Some(i),
                Some(j) => if 0 <= j < origins.len() && origins[j].len() > origins[i].len() {
                    Some(j)
                } else {
                    Some(i)
                },
            }
        } else {
            rest
        }
    }
}

/// The view of a list of names.
pub open spec fn names_view(os: Seq<DnsName>) -> Seq<Seq<Seq<u8>>> {
    Seq::new(os.len(), |i: int| os[i]@)
}

/// The index of the longest matching origin at or after `i`.
fn best_origin_exec(origins: &Vec<DnsName>, n: &DnsName, i: usize) -> (r: Option<usize>)
    requires
        i <= origins@.len(),
    ensures
        match r {
            Some(j) => best_origin_from(names_view(origins@), n@, i as int) == Some(j as int)
                && i <= j < origins@.len(),
            None => best_origin_from(names_view(origins@), n@, i as int) is None,
        },
    decreases origins@.len() - i,
{
    if i >= origins.len() {
        return None;
    }
    let rest = best_origin_exec(origins, n, i + 1);
    if origins[i].zone_of(n) && n.num_labels() > origins[i].num_labels() {
        proof {
            assert(origin_matches(names_view(origins@)[i as int], n@));
        }
        match rest {
            None => Some(i),
            Some(j) => {
                if origins[j].num_labels() > origins[i].num_labels() {
                    Some(j)
                } else {
                    Some(i)
                }
            },
        }
    } else {
        proof {
            assert(!origin_matches(names_view(origins@)[i as int], n@));
        }
        rest
    }
}

/// A found best origin matches the name.
pub proof fn lemma_best_origin_matches(origins: Seq<Seq<Seq<u8>>>, n: Seq<Seq<u8>>, i: int)
    requires
        0 <= i <= origins.len(),
    ensures
        match best_origin_from(origins, n, i) {
            Some(j) => i <= j < origins.len() && origin_matches(origins[j], n),
            None => true,
        },
    decreases origins.len() - i,
{
    if i < origins.len() {
        lemma_best_origin_matches(origins, n, i + 1);
    }
}

/// The static zone: the records configured at startup, owner names folded.
pub struct StaticZone {
    pub records: Vec<WireRecord>,
}

/// The static answer for a folded name and type: the matching records, or
/// no domain.
pub open spec fn static_answer(
    static_records: Seq<RecordV>,
    serial: u32,
    n: Seq<Seq<u8>>,
    t: u16,
) -> LookupOutcomeV {
    let items = zone_items(static_records, n, t);
    if items.len() == 0 {
        LookupOutcomeV::NxDomain
    } else {
        LookupOutcomeV::Answer(RecordSetV { name: n, rtype: t, serial, items })
    }
}

/// The name-resolution algorithm over a folded or unfolded query name:
/// SOA and NS go to the static zone; otherwise the longest matching origin
/// is found, the label above it must decode as a key, and the remainder is
/// looked up in that key's zone; a name under no origin, or with a label
/// that is no key, falls back to the static zone; a key with no zone or no
/// matching record set is no domain.
pub open spec fn spec_lookup(
    origins: Seq<Seq<Seq<u8>>>,
    zones: Seq<(Seq<u8>, ZoneV)>,
    static_records: Seq<RecordV>,
    serial: u32,
    qname: Seq<Seq<u8>>,
    qtype: u16,
) -> LookupOutcomeV {
    let n = fold_name(qname);
    if qtype == RT_SOA || qtype == RT_NS {
        static_answer(static_records, serial, n, qtype)
    } else {
        match best_origin_from(origins, n, 0) {
            None => static_answer(static_records, serial, n, qtype),
            Some(oi) => {
                let o = origins[oi];
                let lab = n[n.len() - o.len() - 1];
                match z32_decode_spec(lab) {
                    None => static_answer(static_records, serial, n, qtype),
                    Some(k) => match zone_at(zones, k) {
                        None => LookupOutcomeV::NxDomain,
                        Some(z) => {
                            let rel = n.take(n.len() - o.len() - 1);
                            let items = zone_items(z.records, rel, qtype);
                            if items.len() == 0 {
                                LookupOutcomeV::NxDomain
                            } else {
                                LookupOutcomeV::Answer(
                                    RecordSetV { name: n, rtype: qtype, serial, items },
                                )
                            }
                        },
                    },
                }
            },
        }
    }
}

/// What a query is answered with: the SOA of the primary origin for SOA
/// queries, refusal for zone transfers, the resolution algorithm otherwise.
pub open spec fn spec_search(
    origins: Seq<Seq<Seq<u8>>>,
    zones: Seq<(Seq<u8>, ZoneV)>,
    static_records: Seq<RecordV>,
    serial: u32,
    qname: Seq<Seq<u8>>,
    qtype: u16,
) -> LookupOutcomeV {
    if qtype == RT_SOA {
        static_answer(static_records, serial, fold_name(origins[0]), RT_SOA)
    } else if qtype == RT_AXFR {
        LookupOutcomeV::Refused
    } else {
        spec_lookup(origins, zones, static_records, serial, qname, qtype)
    }
}

/// Whether a zone is exactly what one of the store's rows projects to: the
/// row decodes and verifies under its key, and the zone carries its
/// timestamp and projected records.
pub open spec fn zone_from_store(st: Map<Seq<u8>, Seq<u8>>, k: Seq<u8>, z: ZoneV) -> bool {
    &&& st.contains_key(k)
    &&& k.len() == 32
    &&& match crate::packet::decode_relay_spec(k, st[k]) {
        Ok(p) => z.timestamp == p.timestamp && match parse_message_spec(p.inner) {
            Some(m) => z.records == spec_project(m.answers, z32_encode_spec(k)),
            None => false,
        },
        Err(_) => false,
    }
}

/// Why a publish was not stored.
pub enum UpsertError {
    /// The packet failed a verification check.
    Packet(PacketError),
    /// The packet was accepted but the backing store refused the write; the
    /// in-memory zone is already updated and stays authoritative.
    Store(StoreError),
}

/// The zone authority.
pub struct NodeAuthority {
    pub serial: u32,
    pub origins: Vec<DnsName>,
    pub static_zone: StaticZone,
    pub zones: Vec<(Vec<u8>, PkarrZone)>,
    pub store: SignedPacketStore,
    pub metrics: Metrics,
}

impl NodeAuthority {
    /// The configured origins, primary first, folded.
    pub open spec fn origins_model(&self) -> Seq<Seq<Seq<u8>>> {
        names_view(self.origins@)
    }

    /// The per-key zones.
    pub open spec fn zones_model(&self) -> Seq<(Seq<u8>, ZoneV)> {
        zones_view(self.zones@)
    }

    /// The static zone's records.
    pub open spec fn static_model(&self) -> Seq<RecordV> {
        records_view(self.static_zone.records@)
    }

    /// What the store holds.
    pub open spec fn store_model(&self) -> Map<Seq<u8>, Seq<u8>> {
        self.store.view()
    }

    /// Well-formedness: at least one origin, every origin folded, zone keys
    /// pairwise distinct.
    pub open spec fn wf(&self) -> bool {
        &&& self.origins@.len() >= 1
        &&& forall|i: int| 0 <= i < self.origins@.len()
            ==> fold_name(#[trigger] self.origins_model()[i]) == self.origins_model()[i]
        &&& zones_unique(self.zones_model())
    }

    /// Builds the authority: origins are folded, primary first, and the
    /// per-key zones are rebuilt from every stored row that still decodes
    /// and verifies; rows that do not are skipped.
    #[verifier::loop_isolation(false)]
    pub fn new(
        store: SignedPacketStore,
        static_zone: StaticZone,
        origins: Vec<DnsName>,
        serial: u32,
    ) -> (r: Result<NodeAuthority, StoreError>)
        requires
            origins@.len() >= 1,
        ensures
            match r {
                Ok(a) => {
                    &&& a.wf()
                    &&& a.serial == serial
                    &&& a.origins_model() == Seq::new(
                        origins@.len(),
                        |i: int| fold_name(origins@[i]@),
                    )
                    &&& a.static_model() == records_view(static_zone.records@)
                    &&& a.store_model() == store.view()
                    &&& forall|k: Seq<u8>, z: ZoneV| zone_at(a.zones_model(), k) == Some(z)
                        ==> #[trigger] zone_from_store(store.view(), k, z)
                    &&& forall|k: Seq<u8>| store.view().contains_key(k) && k.len() == 32
                        && crate::packet::decode_relay_spec(k, store.view()[k]) is Ok
                        ==> #[trigger] zone_at(a.zones_model(), k) is Some
                },
                Err(_) => true,
            },
    {
        let mut folded: Vec<DnsName> = Vec::new();
        let mut i: usize = 0;
        while i < origins.len()
            invariant
                0 <= i <= origins@.len(),
                folded@.len() == i,
                forall|j: int| 0 <= j < i ==> #[trigger] folded@[j]@ == fold_name(origins@[j]@),
            decreases origins@.len() - i,
        {
            folded.push(origins[i].folded());
            i = i + 1;
        }
        let rows = match store.rows() {
            Ok(rows) => rows,
            Err(e) => {
                return Err(e);
            },
        };
        let mut a = NodeAuthority {
            serial,
            origins: folded,
            static_zone,
            zones: Vec::new(),
            store,
            metrics: Metrics::new(),
        };
        proof {
            assert(a.origins_model() =~= Seq::new(
                origins@.len(),
                |j: int| fold_name(origins@[j]@),
            ));
            assert forall|j: int| 0 <= j < a.origins@.len()
                implies fold_name(#[trigger] a.origins_model()[j]) == a.origins_model()[j] by {
                crate::name::lemma_fold_name_idempotent(origins@[j]@);
            }
            assert(zones_view(a.zones@) =~= Seq::<(Seq<u8>, ZoneV)>::empty());
            lemma_find_zone_char(a.zones_model(), Seq::empty(), 0);
        }
        let mut j: usize = 0;
        while j < rows.len()
            invariant
                a.wf(),
                a.serial == serial,
                a.origins_model() == Seq::new(origins@.len(), |m: int| fold_name(origins@[m]@)),
                a.static_model() == records_view(static_zone.records@),
                a.store_model() == store.view(),
                0 <= j <= rows@.len(),
                forall|i2: int| 0 <= i2 < rows@.len()
                    ==> store.view().contains_pair((#[trigger] rows@[i2]).0@, rows@[i2].1@),
                forall|k: Seq<u8>, z: ZoneV| zone_at(a.zones_model(), k) == Some(z)
                    ==> #[trigger] zone_from_store(store.view(), k, z),
                forall|i2: int| 0 <= i2 < j && (#[trigger] rows@[i2]).0@.len() == 32
                    && crate::packet::decode_relay_spec(rows@[i2].0@, rows@[i2].1@) is Ok
                    ==> zone_at(a.zones_model(), rows@[i2].0@) is Some,
            decreases rows@.len() - j,
        {
            let key = &rows[j].0;
            let value = &rows[j].1;
            if key.len() == 32 {
                match decode_relay(key, value) {
                    Ok(packet) => {
                        let m = match parse_message(&packet.inner) {
                            Some(m) => m,
                            None => {
                                proof {
                                    assert(packet_valid(packet@));
                                    assert(false);
                                }
                                return Err(StoreError::Storage);
                            },
                        };
                        let key_label = z32_encode(key);
                        let zone = PkarrZone::from_message(&m, &key_label, packet.timestamp);
                        let ghost old_zones = a.zones_model();
                        proof {
                            lemma_zone_at_after(old_zones, key@, zone@);
                        }
                        a.upsert_zone(key, zone);
                        proof {
                            assert(zone_from_store(store.view(), key@, zone@));
                            assert forall|k: Seq<u8>, z: ZoneV|
                                zone_at(a.zones_model(), k) == Some(z)
                                implies #[trigger] zone_from_store(store.view(), k, z) by {
                                if k != key@ {
                                    assert(zone_at(a.zones_model(), k) == zone_at(old_zones, k));
                                }
                            }
                        }
                    },
                    Err(_) => {},
                }
            }
            j = j + 1;
        }
        proof {
            assert forall|k: Seq<u8>|
                store.view().contains_key(k) && k.len() == 32
                    && crate::packet::decode_relay_spec(k, store.view()[k]) is Ok
                implies #[trigger] zone_at(a.zones_model(), k) is Some by {
                let i2 = choose|i2: int|
                    0 <= i2 < rows@.len() && (#[trigger] rows@[i2]).0@ == k;
                assert(store.view().contains_pair(rows@[i2].0@, rows@[i2].1@));
                assert(rows@[i2].1@ == store.view()[k]);
            }
        }
        Ok(a)
    }

    /// Offers a zone for a key: replaced or inserted when strictly fresher,
    /// untouched otherwise. Returns whether it was accepted.
    #[verifier::loop_isolation(false)]
    fn upsert_zone(&mut self, key: &Vec<u8>, zone: PkarrZone) -> (r: bool)
        requires
            zones_unique(old(self).zones_model()),
        ensures
            r == zones_accepts(old(self).zones_model(), key@, zone@.timestamp),
            final(self).zones_model() == zones_after(old(self).zones_model(), key@, zone@),
            final(self).serial == old(self).serial,
            final(self).origins == old(self).origins,
            final(self).static_zone == old(self).static_zone,
            final(self).store == old(self).store,
            final(self).metrics == old(self).metrics,
    {
        let ghost zs = self.zones_model();
        let mut i: usize = 0;
        while i < self.zones.len()
            invariant
                *self == *old(self),
                zs == self.zones_model(),
                0 <= i <= self.zones@.len(),
                find_zone(zs, key@, 0) == find_zone(zs, key@, i as int),
                forall|m: int| 0 <= m < i ==> (#[trigger] zs[m]).0 != key@,
            decreases self.zones@.len() - i,
        {
            if crate::name::bytes_equal(&self.zones[i].0, key) {
                proof {
                    assert(zs[i as int].0 == key@);
                    assert(find_zone(zs, key@, i as int) == Some(i as int));
                }
                if self.zones[i].1.timestamp < zone.timestamp {
                    let _old_entry = self.zones.remove(i);
                    let key_copy = crate::name::clone_bytes(key);
                    self.zones.insert(i, (key_copy, zone));
                    proof {
                        assert(self.zones_model() =~= zs.update(i as int, (key@, zone@)));
                    }
                    return true;
                } else {
                    proof {
                        assert(!zones_accepts(zs, key@, zone@.timestamp));
                    }
                    return false;
                }
            }
            proof {
                assert(find_zone(zs, key@, i as int) == find_zone(zs, key@, i + 1));
            }
            i = i + 1;
        }
        proof {
            assert(find_zone(zs, key@, 0) is None);
        }
        let key_copy = crate::name::clone_bytes(key);
        let ghost old_zs = self.zones_model();
        self.zones.push((key_copy, zone));
        proof {
            assert(self.zones_model() =~= old_zs.push((key@, zone@)));
        }
        true
    }

    /// Accepts a published packet: it is re-verified, projected, merged into
    /// the key's zone when strictly fresher, and written through to the
    /// store. Returns whether the packet was accepted; a stale packet is a
    /// no-op, never an error. On a storage error the packet had been
    /// accepted in memory, the zone stays updated and authoritative, and
    /// the store holds either the old or the new row. The counters record
    /// the outcome.
    pub fn upsert(&mut self, packet: &SignedPacket, source: PacketSource) -> (r: Result<
        bool,
        UpsertError,
    >)
        requires
            old(self).wf(),
        ensures
            final(self).wf(),
            final(self).serial == old(self).serial,
            final(self).origins == old(self).origins,
            final(self).static_zone == old(self).static_zone,
            match r {
                Ok(updated) => {
                    &&& packet_valid(packet@)
                    &&& updated == zones_accepts(
                        old(self).zones_model(),
                        packet@.public_key,
                        packet@.timestamp,
                    )
                    &&& if updated {
                        &&& final(self).zones_model() == zones_after(
                            old(self).zones_model(),
                            packet@.public_key,
                            spec_zone_of_packet(packet@),
                        )
                        &&& final(self).store_model() == store_upsert_spec(
                            old(self).store_model(),
                            packet@,
                        )
                        &&& final(self).metrics.pkarr_publish_update == bumped(
                            old(self).metrics.pkarr_publish_update,
                        )
                        &&& final(self).metrics.pkarr_publish_noop == old(
                            self,
                        ).metrics.pkarr_publish_noop
                        &&& final(self).metrics.pkarr_publish_error == old(
                            self,
                        ).metrics.pkarr_publish_error
                        &&& final(self).metrics.store_packets_inserted == if store_upsert_writes(
                            old(self).store_model(),
                            packet@,
                        ) && !old(self).store_model().contains_key(packet@.public_key) {
                            bumped(old(self).metrics.store_packets_inserted)
                        } else {
                            old(self).metrics.store_packets_inserted
                        }
                        &&& final(self).metrics.store_packets_updated == if store_upsert_writes(
                            old(self).store_model(),
                            packet@,
                        ) && old(self).store_model().contains_key(packet@.public_key) {
                            bumped(old(self).metrics.store_packets_updated)
                        } else {
                            old(self).metrics.store_packets_updated
                        }
                        &&& final(self).metrics.store_packets_removed == old(
                            self,
                        ).metrics.store_packets_removed
                    } else {
                        &&& final(self).zones_model() == old(self).zones_model()
                        &&& final(self).store_model() == old(self).store_model()
                        &&& final(self).metrics.pkarr_publish_noop == bumped(
                            old(self).metrics.pkarr_publish_noop,
                        )
                        &&& final(self).metrics.pkarr_publish_update == old(
                            self,
                        ).metrics.pkarr_publish_update
                        &&& final(self).metrics.pkarr_publish_error == old(
                            self,
                        ).metrics.pkarr_publish_error
                        &&& final(self).metrics.store_packets_inserted == old(
                            self,
                        ).metrics.store_packets_inserted
                        &&& final(self).metrics.store_packets_updated == old(
                            self,
                        ).metrics.store_packets_updated
                        &&& final(self).metrics.store_packets_removed == old(
                            self,
                        ).metrics.store_packets_removed
                    }
                },
                Err(UpsertError::Packet(e)) => {
                    &&& !packet_valid(packet@)
                    &&& crate::packet::check_packet_spec(packet@) == Err::<(), PacketError>(e)
                    &&& final(self).zones_model() == old(self).zones_model()
                    &&& final(self).store_model() == old(self).store_model()
                    &&& final(self).metrics.pkarr_publish_error == bumped(
                        old(self).metrics.pkarr_publish_error,
                    )
                    &&& final(self).metrics.pkarr_publish_update == old(
                        self,
                    ).metrics.pkarr_publish_update
                    &&& final(self).metrics.pkarr_publish_noop == old(
                        self,
                    ).metrics.pkarr_publish_noop
                    &&& final(self).metrics.store_packets_inserted == old(
                        self,
                    ).metrics.store_packets_inserted
                    &&& final(self).metrics.store_packets_updated == old(
                        self,
                    ).metrics.store_packets_updated
                    &&& final(self).metrics.store_packets_removed == old(
                        self,
                    ).metrics.store_packets_removed
                },
                Err(UpsertError::Store(_)) => {
                    &&& packet_valid(packet@)
                    &&& zones_accepts(
                        old(self).zones_model(),
                        packet@.public_key,
                        packet@.timestamp,
                    )
                    &&& final(self).zones_model() == zones_after(
                        old(self).zones_model(),
                        packet@.public_key,
                        spec_zone_of_packet(packet@),
                    )
                    &&& (final(self).store_model() == old(self).store_model()
                        || final(self).store_model() == store_upsert_spec(
                        old(self).store_model(),
                        packet@,
                    ))
                    &&& final(self).metrics.pkarr_publish_error == bumped(
                        old(self).metrics.pkarr_publish_error,
                    )
                    &&& final(self).metrics.pkarr_publish_update == old(
                        self,
                    ).metrics.pkarr_publish_update
                    &&& final(self).metrics.pkarr_publish_noop == old(
                        self,
                    ).metrics.pkarr_publish_noop
                    &&& final(self).metrics.store_packets_inserted == old(
                        self,
                    ).metrics.store_packets_inserted
                    &&& final(self).metrics.store_packets_updated == old(
                        self,
                    ).metrics.store_packets_updated
                    &&& final(self).metrics.store_packets_removed == old(
                        self,
                    ).metrics.store_packets_removed
                },
            },
    {
        let _ = source;
        let m = match crate::packet::verify_packet(packet) {
            Err(e) => {
                self.metrics.pkarr_publish_error = bump(self.metrics.pkarr_publish_error);
                proof {
                    assert(self.origins_model() =~= old(self).origins_model());
                    assert(self.zones_model() =~= old(self).zones_model());
                    assert(self.static_model() =~= old(self).static_model());
                }
                return Err(UpsertError::Packet(e));
            },
            Ok(m) => m,
        };
        let key_label = z32_encode(&packet.public_key);
        let zone = PkarrZone::from_message(&m, &key_label, packet.timestamp);
        proof {
            assert(zone@ == spec_zone_of_packet(packet@));
            lemma_zone_at_after(self.zones_model(), packet@.public_key, zone@);
        }
        let updated = self.upsert_zone(&packet.public_key, zone);
        proof {
            assert(self.origins_model() =~= old(self).origins_model());
            assert(self.static_model() =~= old(self).static_model());
        }
        if updated {
            match self.store.upsert(packet, &mut self.metrics) {
                Ok(_) => {
                    self.metrics.pkarr_publish_update = bump(self.metrics.pkarr_publish_update);
                    proof {
                        assert(self.origins_model() =~= old(self).origins_model());
                        assert(self.static_model() =~= old(self).static_model());
                    }
                    Ok(true)
                },
                Err(e) => {
                    self.metrics.pkarr_publish_error = bump(self.metrics.pkarr_publish_error);
                    proof {
                        assert(self.origins_model() =~= old(self).origins_model());
                        assert(self.static_model() =~= old(self).static_model());
                    }
                    Err(UpsertError::Store(e))
                },
            }
        } else {
            self.metrics.pkarr_publish_noop = bump(self.metrics.pkarr_publish_noop);
            proof {
                assert(self.origins_model() =~= old(self).origins_model());
                assert(self.static_model() =~= old(self).static_model());
            }
            Ok(false)
        }
    }

    /// The record set a key's zone holds under a relative name and type,
    /// with the authority's serial; `None` without a zone or matching set.
    pub fn resolve(&self, public_key: &Vec<u8>, name: &DnsName, record_type: u16) -> (r: Option<
        RecordSet,
    >)
        ensures
            match zone_at(self.zones_model(), public_key@) {
                None => r is None,
                Some(z) => {
                    let items = zone_items(z.records, fold_name(name@), record_type);
                    match r {
                        None => items.len() == 0,
                        Some(rs) => items.len() > 0 && rs@ == (RecordSetV {
                            name: fold_name(name@),
                            rtype: record_type,
                            serial: self.serial,
                            items,
                        }),
                    }
                },
            },
    {
        let folded = name.folded();
        match self.get_zone(public_key) {
            None => None,
            Some(zone) => {
                let items = zone.lookup(&folded, record_type);
                if items.len() == 0 {
                    None
                } else {
                    Some(RecordSet {
                        name: folded,
                        rtype: record_type,
                        serial: self.serial,
                        items,
                    })
                }
            },
        }
    }

    /// The zone stored for a key, if any.
    #[verifier::loop_isolation(false)]
    fn get_zone(&self, key: &Vec<u8>) -> (r: Option<&PkarrZone>)
        ensures
            match r {
                Some(z) => zone_at(self.zones_model(), key@) == Some(z@),
                None => zone_at(self.zones_model(), key@) is None,
            },
    {
        let ghost zs = self.zones_model();
        let mut i: usize = 0;
        while i < self.zones.len()
            invariant
                zs == self.zones_model(),
                0 <= i <= self.zones@.len(),
                find_zone(zs, key@, 0) == find_zone(zs, key@, i as int),
            decreases self.zones@.len() - i,
        {
            if crate::name::bytes_equal(&self.zones[i].0, key) {
                proof {
                    assert(find_zone(zs, key@, i as int) == Some(i as int));
                }
                return Some(&self.zones[i].1);
            }
            proof {
                assert(find_zone(zs, key@, i as int) == find_zone(zs, key@, i + 1));
            }
            i = i + 1;
        }
        None
    }

    /// Answers one name and type by the resolution algorithm.
    pub fn lookup(&self, qname: &DnsName, qtype: u16) -> (r: LookupOutcome)
        requires
            self.wf(),
        ensures
            r@ == spec_lookup(
                self.origins_model(),
                self.zones_model(),
                self.static_model(),
                self.serial,
                qname@,
                qtype,
            ),
    {
        let n = qname.folded();
        if qtype == RT_SOA || qtype == RT_NS {
            return self.static_answer_exec(&n, qtype);
        }
        match best_origin_exec(&self.origins, &n, 0) {
            None => self.static_answer_exec(&n, qtype),
            Some(oi) => {
                proof {
                    lemma_best_origin_matches(self.origins_model(), n@, 0);
                    assert(origin_matches(self.origins_model()[oi as int], n@));
                }
                let olen = self.origins[oi].num_labels();
                let lab = n.label_at(n.num_labels() - olen - 1);
                match z32_decode(lab) {
                    None => self.static_answer_exec(&n, qtype),
                    Some(k) => {
                        match self.get_zone(&k) {
                            None => LookupOutcome::NxDomain,
                            Some(zone) => {
                                let rel = n.prefix(n.num_labels() - olen - 1);
                                let items = zone.lookup(&rel, qtype);
                                proof {
                                    crate::name::lemma_fold_name_idempotent(qname@);
                                    assert(fold_name(rel@) =~= rel@);
                                }
                                if items.len() == 0 {
                                    LookupOutcome::NxDomain
                                } else {
                                    LookupOutcome::Answer(RecordSet {
                                        name: n,
                                        rtype: qtype,
                                        serial: self.serial,
                                        items,
                                    })
                                }
                            },
                        }
                    },
                }
            },
        }
    }

    /// The static answer for a folded name.
    fn static_answer_exec(&self, n: &DnsName, t: u16) -> (r: LookupOutcome)
        ensures
            r@ == static_answer(self.static_model(), self.serial, n@, t),
    {
        let items = collect_items(&self.static_zone.records, n, t);
        if items.len() == 0 {
            LookupOutcome::NxDomain
        } else {
            LookupOutcome::Answer(RecordSet {
                name: n.clone_name(),
                rtype: t,
                serial: self.serial,
                items,
            })
        }
    }

    /// Answers a query: the primary origin's SOA for an SOA query, refusal
    /// for any zone transfer, the resolution algorithm otherwise.
    pub fn search(&self, qname: &DnsName, qtype: u16) -> (r: LookupOutcome)
        requires
            self.wf(),
        ensures
            r@ == spec_search(
                self.origins_model(),
                self.zones_model(),
                self.static_model(),
                self.serial,
                qname@,
                qtype,
            ),
            qtype == RT_AXFR ==> r@ is Refused,
    {
        if qtype == RT_SOA {
            let primary = self.origins[0].folded();
            proof {
                crate::name::lemma_fold_name_idempotent(self.origins_model()[0]);
            }
            self.static_answer_exec(&primary, RT_SOA)
        } else if qtype == RT_AXFR {
            LookupOutcome::Refused
        } else {
            self.lookup(qname, qtype)
        }
    }

    /// The primary origin.
    pub fn origin(&self) -> (r: &DnsName)
        requires
            self.wf(),
        ensures
            r@ == self.origins_model()[0],
    {
        &self.origins[0]
    }

    /// Every configured origin, primary first.
    pub fn all_origins(&self) -> (r: &Vec<DnsName>)
        ensures
            names_view(r@) == self.origins_model(),
    {
        &self.origins
    }

    /// Whether a name is one of the configured origins.
    #[verifier::loop_isolation(false)]
    pub fn origin_is_allowed(&self, origin: &DnsName) -> (r: bool)
        ensures
            r == exists|i: int|
                0 <= i < self.origins_model().len() && #[trigger] self.origins_model()[i]
                    == origin@,
    {
        let mut i: usize = 0;
        while i < self.origins.len()
            invariant
                0 <= i <= self.origins@.len(),
                forall|j: int| 0 <= j < i ==> #[trigger] self.origins_model()[j] != origin@,
            decreases self.origins@.len() - i,
        {
            if self.origins[i].equals(origin) {
                proof {
                    assert(self.origins_model()[i as int] == origin@);
                }
                return true;
            }
            i = i + 1;
        }
        false
    }

    /// The serial every synthesized record set carries.
    pub fn serial(&self) -> (r: u32)
        ensures
            r == self.serial,
    {
        self.serial
    }

    /// The packet store.
    pub fn store(&self) -> (r: &SignedPacketStore)
        ensures
            r.view() == self.store_model(),
    {
        &self.store
    }

    /// The relay bytes stored under a key, if any.
    pub fn get_packet(&self, key: &Vec<u8>) -> (r: Result<Option<Vec<u8>>, StoreError>)
        ensures
            match r {
                Ok(Some(v)) => self.store_model().contains_key(key@) && self.store_model()[key@]
                    == v@,
                Ok(None) => !self.store_model().contains_key(key@),
                Err(_) => true,
            },
    {
        self.store.get(key)
    }

    /// Zone transfers are never allowed.
    pub fn is_axfr_allowed(&self) -> (r: bool)
        ensures
            !r,
    {
        false
    }

    /// Dynamic updates are not implemented.
    pub fn update(&self) -> (r: LookupOutcome)
        ensures
            r@ is NotImp,
    {
        LookupOutcome::NotImp
    }
}

/// The zone a valid packet projects to.
pub open spec fn spec_zone_of_packet(p: PacketV) -> ZoneV {
    ZoneV {
        timestamp: p.timestamp,
        records: spec_project(
            match parse_message_spec(p.inner) {
                Some(m) => m.answers,
                None => Seq::empty(),
            },
            z32_encode_spec(p.public_key),
        ),
    }
}


/// One A record per origin, all carrying the same address bytes.
pub open spec fn a_records_spec(origins: Seq<Seq<Seq<u8>>>, a: Seq<u8>) -> Seq<RecordV> {
    Seq::new(
        origins.len(),
        |i: int| RecordV {
            name: origins[i],
            rtype: RT_A,
            rclass: CLASS_IN,
            ttl: DEFAULT_A_TTL,
            rdata: a,
        },
    )
}

/// One NS record per origin, all naming the same server.
pub open spec fn ns_records_spec(origins: Seq<Seq<Seq<u8>>>, nsw: Seq<u8>) -> Seq<RecordV> {
    Seq::new(
        origins.len(),
        |i: int| RecordV {
            name: origins[i],
            rtype: RT_NS,
            rclass: CLASS_IN,
            ttl: DEFAULT_NS_TTL,
            rdata: nsw,
        },
    )
}

/// The records of the static zone: the SOA at the primary origin, then an
/// A record per origin if an address is configured, then an NS record per
/// origin if a name server is configured.
pub open spec fn static_records_spec(
    origins: Seq<Seq<Seq<u8>>>,
    soa: SoaDataV,
    a: Option<Seq<u8>>,
    ns: Option<Seq<Seq<u8>>>,
) -> Seq<RecordV> {
    seq![
        RecordV {
            name: origins[0],
            rtype: RT_SOA,
            rclass: CLASS_IN,
            ttl: DEFAULT_SOA_TTL,
            rdata: soa_rdata_spec(soa),
        },
    ] + (match a {
        Some(ab) => a_records_spec(origins, ab),
        None => Seq::empty(),
    }) + (match ns {
        Some(nn) => ns_records_spec(origins, name_wire(nn)),
        None => Seq::empty(),
    })
}

/// Builds the static zone from the configured SOA, optional apex address
/// and optional name server, one set of records per origin.
#[verifier::loop_isolation(false)]
pub fn build_static_zone(
    origins: &Vec<DnsName>,
    soa: &SoaData,
    a_rdata: &Option<Vec<u8>>,
    ns: &Option<DnsName>,
) -> (r: StaticZone)
    requires
        origins@.len() >= 1,
        name_wf(soa@.mname),
        name_wf(soa@.rname),
        ns is Some ==> name_wf(ns->Some_0@),
    ensures
        records_view(r.records@) == static_records_spec(
            names_view(origins@),
            soa@,
            match a_rdata {
                Some(v) => Some(v@),
                None => None,
            },
            match ns {
                Some(n) => Some(n@),
                None => None,
            },
        ),
{
    let ghost ov = names_view(origins@);
    let mut records: Vec<WireRecord> = Vec::new();
    records.push(WireRecord {
        name: origins[0].clone_name(),
        rtype: RT_SOA,
        rclass: CLASS_IN,
        ttl: DEFAULT_SOA_TTL,
        rdata: encode_soa_rdata(soa),
    });
    let ghost soa_part = records_view(records@);
    proof {
        assert(soa_part =~= seq![
            RecordV {
                name: ov[0],
                rtype: RT_SOA,
                rclass: CLASS_IN,
                ttl: DEFAULT_SOA_TTL,
                rdata: soa_rdata_spec(soa@),
            },
        ]);
    }
    match a_rdata {
        Some(ab) => {
            let mut i: usize = 0;
            while i < origins.len()
                invariant
                    0 <= i <= origins@.len(),
                    records_view(records@) =~= soa_part + a_records_spec(ov, ab@).take(i as int),
                decreases origins@.len() - i,
            {
                let ghost before = records_view(records@);
                records.push(WireRecord {
                    name: origins[i].clone_name(),
                    rtype: RT_A,
                    rclass: CLASS_IN,
                    ttl: DEFAULT_A_TTL,
                    rdata: crate::name::clone_bytes(ab),
                });
                proof {
                    assert(records_view(records@) =~= before.push(a_records_spec(ov, ab@)[i as int]));
                    assert(a_records_spec(ov, ab@).take(i + 1)
                        =~= a_records_spec(ov, ab@).take(i as int).push(
                        a_records_spec(ov, ab@)[i as int],
                    ));
                }
                i = i + 1;
            }
            proof {
                assert(a_records_spec(ov, ab@).take(origins@.len() as int)
                    =~= a_records_spec(ov, ab@));
            }
        },
        None => {
            proof {
                assert(records_view(records@) =~= soa_part + Seq::<RecordV>::empty());
            }
        },
    }
    let ghost head_part = records_view(records@);
    match ns {
        Some(nn) => {
            let nsw = crate::soa::encode_name(nn);
            let mut i: usize = 0;
            while i < origins.len()
                invariant
                    0 <= i <= origins@.len(),
                    nsw@ == name_wire(nn@),
                    records_view(records@) =~= head_part + ns_records_spec(ov, nsw@).take(
                        i as int,
                    ),
                decreases origins@.len() - i,
            {
                let ghost before = records_view(records@);
                records.push(WireRecord {
                    name: origins[i].clone_name(),
                    rtype: RT_NS,
                    rclass: CLASS_IN,
                    ttl: DEFAULT_NS_TTL,
                    rdata: crate::name::clone_bytes(&nsw),
                });
                proof {
                    assert(records_view(records@) =~= before.push(
                        ns_records_spec(ov, nsw@)[i as int],
                    ));
                    assert(ns_records_spec(ov, nsw@).take(i + 1)
                        =~= ns_records_spec(ov, nsw@).take(i as int).push(
                        ns_records_spec(ov, nsw@)[i as int],
                    ));
                }
                i = i + 1;
            }
            proof {
                assert(ns_records_spec(ov, nsw@).take(origins@.len() as int)
                    =~= ns_records_spec(ov, nsw@));
                assert(records_view(records@) =~= static_records_spec(
                    ov,
                    soa@,
                    match a_rdata {
                        Some(v) => Some(v@),
                        None => None,
                    },
                    Some(nn@),
                ));
            }
        },
        None => {
            proof {
                assert(records_view(records@) =~= head_part + Seq::<RecordV>::empty());
                assert(records_view(records@) =~= static_records_spec(
                    ov,
                    soa@,
                    match a_rdata {
                        Some(v) => Some(v@),
                        None => None,
                    },
                    None,
                ));
            }
        },
    }
    StaticZone { records }
}

/// The owner name of every successful answer of the resolution algorithm is
/// the case-folded query name, and its serial is the authority's serial.
pub proof fn lemma_lookup_owner_serial(
    origins: Seq<Seq<Seq<u8>>>,
    zones: Seq<(Seq<u8>, ZoneV)>,
    static_records: Seq<RecordV>,
    serial: u32,
    qname: Seq<Seq<u8>>,
    qtype: u16,
)
    ensures
        match spec_lookup(origins, zones, static_records, serial, qname, qtype) {
            LookupOutcomeV::Answer(rs) => rs.name == fold_name(qname) && rs.serial == serial
                && rs.rtype == qtype,
            _ => true,
        },
{
}

/// Cross-origin isolation: the same relative name and key label, queried
/// below two different configured origins, yield the same record data; each
/// answer's owner name stays rooted at its own origin. The premises ask
/// that each query's longest-origin match picks that query's own origin and
/// that the names are already folded: with origins that nest inside another
/// query's key region (a catch-all origin is the sharpest case), the two
/// queries can be routed to different zones, and the law does not speak of
/// those inputs.
pub proof fn lemma_cross_origin_isolation(
    origins: Seq<Seq<Seq<u8>>>,
    zones: Seq<(Seq<u8>, ZoneV)>,
    static_records: Seq<RecordV>,
    serial: u32,
    rel: Seq<Seq<u8>>,
    lab: Seq<u8>,
    i1: int,
    i2: int,
    k: Seq<u8>,
    qtype: u16,
)
    requires
        qtype != RT_SOA,
        qtype != RT_NS,
        0 <= i1 < origins.len(),
        0 <= i2 < origins.len(),
        fold_name(rel + seq![lab] + origins[i1]) == rel + seq![lab] + origins[i1],
        fold_name(rel + seq![lab] + origins[i2]) == rel + seq![lab] + origins[i2],
        best_origin_from(origins, rel + seq![lab] + origins[i1], 0) == Some(i1),
        best_origin_from(origins, rel + seq![lab] + origins[i2], 0) == Some(i2),
        z32_decode_spec(lab) == Some(k),
    ensures
        ({
            let q1 = rel + seq![lab] + origins[i1];
            let q2 = rel + seq![lab] + origins[i2];
            match (
                spec_lookup(origins, zones, static_records, serial, q1, qtype),
                spec_lookup(origins, zones, static_records, serial, q2, qtype),
            ) {
                (LookupOutcomeV::Answer(r1), LookupOutcomeV::Answer(r2)) => r1.items == r2.items
                    && r1.name == q1 && r2.name == q2,
                (LookupOutcomeV::NxDomain, LookupOutcomeV::NxDomain) => true,
                _ => false,
            }
        }),
{
    let q1 = rel + seq![lab] + origins[i1];
    let q2 = rel + seq![lab] + origins[i2];
    assert(q1.len() == rel.len() + 1 + origins[i1].len());
    assert(q2.len() == rel.len() + 1 + origins[i2].len());
    assert(q1[rel.len() as int] == lab);
    assert(q2[rel.len() as int] == lab);
    assert(q1.take(rel.len() as int) =~= rel);
    assert(q2.take(rel.len() as int) =~= rel);
}

/// Resolving a key's zone at its apex yields exactly the data of the
/// packet's answers of that type whose owner name is the bare key label
/// (SOA and NS records are never kept).
pub proof fn lemma_resolve_projected_apex(answers: Seq<RecordV>, key_label: Seq<u8>, t: u16)
    ensures
        zone_items(spec_project(answers, key_label), Seq::empty(), t) == items_of(
            answers.filter(
                |r: RecordV| keeps(r, key_label) && fold_name(r.name.drop_last())
                    == Seq::<Seq<u8>>::empty() && r.rtype == t,
            ),
        ),
{
    crate::zone::lemma_zone_lookup_project(answers, key_label, Seq::empty(), t);
}

/// After a valid packet is accepted, resolving its key at the zone apex for
/// a type yields exactly the data of the packet's answers of that type whose
/// owner name is the bare key label; SOA and NS records never appear.
pub proof fn lemma_upsert_then_resolve(zs: Seq<(Seq<u8>, ZoneV)>, p: PacketV, t: u16)
    requires
        zones_unique(zs),
        packet_valid(p),
        zones_accepts(zs, p.public_key, p.timestamp),
    ensures
        ({
            let answers = parse_message_spec(p.inner)->Some_0.answers;
            let key_label = z32_encode_spec(p.public_key);
            match zone_at(zones_after(zs, p.public_key, spec_zone_of_packet(p)), p.public_key) {
                Some(z) => zone_items(z.records, Seq::empty(), t) == items_of(
                    answers.filter(
                        |r: RecordV| keeps(r, key_label) && fold_name(r.name.drop_last())
                            == Seq::<Seq<u8>>::empty() && r.rtype == t,
                    ),
                ),
                None => false,
            }
        }),
{
    lemma_zone_at_after(zs, p.public_key, spec_zone_of_packet(p));
    let answers = parse_message_spec(p.inner)->Some_0.answers;
    lemma_resolve_projected_apex(answers, z32_encode_spec(p.public_key), t);
}


/// Why the authority could not be set up from its configuration.
pub enum SetupError {
    /// No origin was configured; at least one is required.
    NoOrigin,
    /// An origin text is not a well-formed name.
    BadOrigin,
    /// The SOA text is not seven fields of names and numbers.
    BadSoa,
    /// The name server text is not a well-formed name.
    BadNsName,
    /// The backing store refused an operation.
    Storage(StoreError),
}

/// Sets the authority up from its configuration texts: the origins (primary
/// first), the SOA text whose serial becomes the authority's serial, an
/// optional apex address, and an optional name server. The static zone is
/// built from them and the per-key zones are rebuilt from the store.
#[verifier::loop_isolation(false)]
pub fn setup_authority(
    store: SignedPacketStore,
    origin_texts: &Vec<Vec<u8>>,
    soa_text: &Vec<u8>,
    a_rdata: &Option<Vec<u8>>,
    ns_text: &Option<Vec<u8>>,
) -> (r: Result<NodeAuthority, SetupError>)
    ensures
        if origin_texts@.len() == 0 {
            r is Err && r->Err_0 is NoOrigin
        } else if parse_soa_spec(soa_text@) is None {
            r is Err && r->Err_0 is BadSoa
        } else if exists|i: int|
            0 <= i < origin_texts@.len() && parse_name_text_spec(
                (#[trigger] origin_texts@[i])@,
            ) is None {
            r is Err && r->Err_0 is BadOrigin
        } else if ns_text matches Some(nt) && parse_name_text_spec(nt@) is None {
            r is Err && r->Err_0 is BadNsName
        } else {
            match r {
                Ok(a) => {
                    &&& a.wf()
                    &&& a.serial == parse_soa_spec(soa_text@)->Some_0.serial
                    &&& a.origins_model() == Seq::new(
                        origin_texts@.len(),
                        |i: int| fold_name(parse_name_text_spec(origin_texts@[i]@)->Some_0),
                    )
                    &&& a.static_model() == static_records_spec(
                        a.origins_model(),
                        parse_soa_spec(soa_text@)->Some_0,
                        match a_rdata {
                            Some(v) => Some(v@),
                            None => None,
                        },
                        match ns_text {
                            Some(nt) => Some(fold_name(parse_name_text_spec(nt@)->Some_0)),
                            None => None,
                        },
                    )
                    &&& a.store_model() == store.view()
                    &&& forall|k: Seq<u8>, z: ZoneV| zone_at(a.zones_model(), k) == Some(z)
                        ==> #[trigger] zone_from_store(store.view(), k, z)
                    &&& forall|k: Seq<u8>| store.view().contains_key(k) && k.len() == 32
                        && crate::packet::decode_relay_spec(k, store.view()[k]) is Ok
                        ==> #[trigger] zone_at(a.zones_model(), k) is Some
                },
                Err(e) => e is Storage,
            }
        },
{
    if origin_texts.len() == 0 {
        return Err(SetupError::NoOrigin);
    }
    let soa = match parse_soa(soa_text) {
        None => {
            return Err(SetupError::BadSoa);
        },
        Some(soa) => soa,
    };
    let mut folded: Vec<DnsName> = Vec::new();
    let mut i: usize = 0;
    while i < origin_texts.len()
        invariant
            0 <= i <= origin_texts@.len(),
            folded@.len() == i,
            forall|j: int| 0 <= j < i ==> parse_name_text_spec(
                (#[trigger] origin_texts@[j])@,
            ) is Some,
            forall|j: int| 0 <= j < i ==> (#[trigger] folded@[j])@ == fold_name(
                parse_name_text_spec(origin_texts@[j]@)->Some_0,
            ),
        decreases origin_texts@.len() - i,
    {
        match parse_name_text(&origin_texts[i]) {
            None => {
                return Err(SetupError::BadOrigin);
            },
            Some(n) => {
                folded.push(n.folded());
            },
        }
        i = i + 1;
    }
    let ns = match ns_text {
        Some(nt) => match parse_name_text(nt) {
            None => {
                return Err(SetupError::BadNsName);
            },
            Some(n) => {
                let f = n.folded();
                proof {
                    assert(name_wf(f@)) by {
                        assert(name_wf(n@));
                        assert(forall|j: int| 0 <= j < n@.len()
                            ==> (#[trigger] fold_name(n@)[j]).len() == n@[j].len());
                    }
                }
                Some(f)
            },
        },
        None => None,
    };
    let static_zone = build_static_zone(&folded, &soa, a_rdata, &ns);
    let serial = soa.serial;
    let ghost folded_names = names_view(folded@);
    let a = match NodeAuthority::new(store, static_zone, folded, serial) {
        Ok(a) => a,
        Err(e) => {
            return Err(SetupError::Storage(e));
        },
    };
    proof {
        assert forall|j: int| 0 <= j < folded_names.len()
            implies #[trigger] fold_name(folded_names[j]) == folded_names[j] by {
            crate::name::lemma_fold_name_idempotent(parse_name_text_spec(origin_texts@[j]@)->Some_0);
        }
        assert(a.origins_model() =~= folded_names);
        assert(a.origins_model() =~= Seq::new(
            origin_texts@.len(),
            |i: int| fold_name(parse_name_text_spec(origin_texts@[i]@)->Some_0),
        ));
    }
    Ok(a)
}

} // verus!
