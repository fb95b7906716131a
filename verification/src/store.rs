//! The durable signed-packet store: one table from the 32-byte public key
//! to the packet's relay bytes, with at-most-one-winner freshness per key.
//!
//! The backing key-value file is redb; every operation is one transaction,
//! applied fully or not at all — though a write whose commit reports an
//! error may still have become durable, so a failed write leaves the
//! contents either unchanged or exactly written. The freshness rule lives
//! here, verified: a stored packet is replaced only by one with a strictly
//! greater timestamp.

use vstd::prelude::*;
use redb::ReadableDatabase;
use crate::metrics::{bump, bumped, Metrics};
use crate::packet::{packet_sized, relay_encode_spec, PacketV, SignedPacket};
use crate::radix::{lemma_digits_of_bounded, lemma_pow_values, lemma_undigits_of_digits,
    nats_of, undigits, undigits_u64};

verus! {

/// The store's failure kind: the backing file refused an operation.
#[derive(PartialEq, Eq, Structural, Clone, Copy, Debug)]
pub enum StoreError {
    Storage,
}

#[verifier::external_type_specification]
#[verifier::external_body]
pub struct ExDatabase(redb::Database);

/// What the backing file holds: a map from key bytes to value bytes.
pub uninterp spec fn db_contents(db: redb::Database) -> Map<Seq<u8>, Seq<u8>>;

/// Relies on `redb::Database::builder().create(path)`: opens or creates the
/// database file at `path` and makes sure the packet table exists. What the
/// file holds is whatever is on disk; nothing is assumed of it.
#[verifier::external_body]
fn db_open_file(path: &str) -> (r: Result<redb::Database, StoreError>)
{
    let db = redb::Database::builder().create(path).map_err(|_| StoreError::Storage)?;
    let tx = db.begin_write().map_err(|_| StoreError::Storage)?;
    {
        let _t = tx.open_table(redb::TableDefinition::<&[u8], &[u8]>::new("signed-packets-1"))
            .map_err(|_| StoreError::Storage)?;
    }
    tx.commit().map_err(|_| StoreError::Storage)?;
    Ok(db)
}

/// Relies on `redb::Database::builder().create_with_backend(InMemoryBackend)`:
/// a freshly created in-memory database holds no rows.
#[verifier::external_body]
fn db_open_inmemory() -> (r: Result<redb::Database, StoreError>)
    ensures
        match r {
            Ok(db) => db_contents(db) == Map::<Seq<u8>, Seq<u8>>::empty(),
            Err(_) => true,
        },
{
    let backend = redb::backends::InMemoryBackend::new();
    let db = redb::Database::builder().create_with_backend(backend)
        .map_err(|_| StoreError::Storage)?;
    let tx = db.begin_write().map_err(|_| StoreError::Storage)?;
    {
        let _t = tx.open_table(redb::TableDefinition::<&[u8], &[u8]>::new("signed-packets-1"))
            .map_err(|_| StoreError::Storage)?;
    }
    tx.commit().map_err(|_| StoreError::Storage)?;
    Ok(db)
}

/// Relies on `redb` read transactions and `ReadOnlyTable::get`: returns the
/// value stored under `key`, if any.
#[verifier::external_body]
fn db_get(db: &redb::Database, key: &Vec<u8>) -> (r: Result<Option<Vec<u8>>, StoreError>)
    ensures
        match r {
            Ok(Some(v)) => db_contents(*db).contains_key(key@) && db_contents(*db)[key@] == v@,
            Ok(None) => !db_contents(*db).contains_key(key@),
            Err(_) => true,
        },
{
    let tx = db.begin_read().map_err(|_| StoreError::Storage)?;
    let table = tx.open_table(redb::TableDefinition::<&[u8], &[u8]>::new("signed-packets-1"))
        .map_err(|_| StoreError::Storage)?;
    let row = table.get(key.as_slice()).map_err(|_| StoreError::Storage)?;
    Ok(row.map(|guard| guard.value().to_vec()))
}

/// Relies on `redb` write transactions and `Table::insert`: stores `value`
/// under `key` in one committed transaction. A transaction's changes are
/// applied atomically — fully or not at all — but a failed commit may
/// already have become durable, so on an error the contents are either
/// unchanged or hold exactly the new row.
#[verifier::external_body]
fn db_insert(db: &mut redb::Database, key: &Vec<u8>, value: &Vec<u8>) -> (r: Result<
    (),
    StoreError,
>)
    ensures
        match r {
            Ok(_) => db_contents(*final(db)) == db_contents(*old(db)).insert(key@, value@),
            Err(_) => db_contents(*final(db)) == db_contents(*old(db)) || db_contents(*final(db))
                == db_contents(*old(db)).insert(key@, value@),
        },
{
    let tx = db.begin_write().map_err(|_| StoreError::Storage)?;
    {
        let mut table = tx.open_table(redb::TableDefinition::<&[u8], &[u8]>::new(
            "signed-packets-1",
        )).map_err(|_| StoreError::Storage)?;
        table.insert(key.as_slice(), value.as_slice()).map_err(|_| StoreError::Storage)?;
    }
    tx.commit().map_err(|_| StoreError::Storage)?;
    Ok(())
}

/// Relies on `redb` write transactions and `Table::remove`: removes the row
/// under `key` in one committed transaction and says whether one existed.
/// As with every write, a failed commit may already have become durable, so
/// on an error the contents are either unchanged or hold exactly the
/// removal.
#[verifier::external_body]
fn db_remove(db: &mut redb::Database, key: &Vec<u8>) -> (r: Result<bool, StoreError>)
    ensures
        match r {
            Ok(b) => b == db_contents(*old(db)).contains_key(key@) && db_contents(*final(db))
                == db_contents(*old(db)).remove(key@),
            Err(_) => db_contents(*final(db)) == db_contents(*old(db)) || db_contents(*final(db))
                == db_contents(*old(db)).remove(key@),
        },
{
    let tx = db.begin_write().map_err(|_| StoreError::Storage)?;
    let existed;
    {
        let mut table = tx.open_table(redb::TableDefinition::<&[u8], &[u8]>::new(
            "signed-packets-1",
        )).map_err(|_| StoreError::Storage)?;
        existed = table.remove(key.as_slice()).map_err(|_| StoreError::Storage)?.is_some();
    }
    tx.commit().map_err(|_| StoreError::Storage)?;
    Ok(existed)
}

/// Relies on `redb` read transactions and `ReadOnlyTable::range`: returns
/// every row as a key-value pair; keys are distinct and each stored key
/// appears.
#[verifier::external_body]
fn db_rows(db: &redb::Database) -> (r: Result<Vec<(Vec<u8>, Vec<u8>)>, StoreError>)
    ensures
        match r {
            Ok(rows) => {
                &&& forall|i: int| 0 <= i < rows@.len()
                    ==> db_contents(*db).contains_pair(
                        (#[trigger] rows@[i]).0@,
                        rows@[i].1@,
                    )
                &&& forall|i: int, j: int|
                    0 <= i < j < rows@.len() ==> (#[trigger] rows@[i]).0@ != (
                    #[trigger] rows@[j]).0@
                &&& forall|k: Seq<u8>| db_contents(*db).dom().contains(k)
                    ==> exists|i: int| 0 <= i < rows@.len() && (#[trigger] rows@[i]).0@ == k
            },
            Err(_) => true,
        },
{
    let tx = db.begin_read().map_err(|_| StoreError::Storage)?;
    let table = tx.open_table(redb::TableDefinition::<&[u8], &[u8]>::new("signed-packets-1"))
        .map_err(|_| StoreError::Storage)?;
    let range = table.range::<&[u8]>(..).map_err(|_| StoreError::Storage)?;
    let mut rows = Vec::new();
    for item in range {
        let (k, v) = item.map_err(|_| StoreError::Storage)?;
        rows.push((k.value().to_vec(), v.value().to_vec()));
    }
    Ok(rows)
}

/// The timestamp a stored value carries: the eight big-endian bytes after
/// the 64-byte signature, or zero for a value too short to carry one.
pub open spec fn stored_timestamp(v: Seq<u8>) -> nat {
    if v.len() >= 72 {
        undigits(nats_of(v.subrange(64, 72)), 256)
    } else {
        0
    }
}

/// What one upsert does to the stored map: nothing if the key already holds
/// a packet at least as fresh, otherwise the relay bytes are written.
pub open spec fn store_upsert_spec(m: Map<Seq<u8>, Seq<u8>>, p: PacketV) -> Map<Seq<u8>, Seq<u8>> {
    if m.contains_key(p.public_key) && stored_timestamp(m[p.public_key]) >= p.timestamp {
        m
    } else {
        m.insert(p.public_key, relay_encode_spec(p))
    }
}

/// Whether one upsert writes.
pub open spec fn store_upsert_writes(m: Map<Seq<u8>, Seq<u8>>, p: PacketV) -> bool {
    !(m.contains_key(p.public_key) && stored_timestamp(m[p.public_key]) >= p.timestamp)
}

/// The relay bytes of a packet carry its own timestamp.
pub proof fn lemma_stored_timestamp_of_encode(p: PacketV)
    requires
        p.signature.len() == 64,
    ensures
        stored_timestamp(relay_encode_spec(p)) == p.timestamp,
{
    let body = relay_encode_spec(p);
    lemma_pow_values();
    lemma_digits_of_bounded(p.timestamp as nat, 256, 8);
    assert(body.subrange(64, 72) =~= crate::packet::be64_bytes(p.timestamp));
    assert(nats_of(crate::packet::be64_bytes(p.timestamp))
        =~= crate::radix::digits_of(p.timestamp as nat, 256, 8));
    lemma_undigits_of_digits(p.timestamp as nat, 256, 8);
}

/// The durable key-to-packet store.
pub struct SignedPacketStore {
    db: redb::Database,
}

impl SignedPacketStore {
    /// What the store holds: key bytes to relay bytes.
    pub closed spec fn view(&self) -> Map<Seq<u8>, Seq<u8>> {
        db_contents(self.db)
    }

    /// Opens or creates the store file at `path`. The contents are whatever
    /// the file holds.
    pub fn open_file(path: &str) -> (r: Result<SignedPacketStore, StoreError>)
    {
        match db_open_file(path) {
            Ok(db) => Ok(SignedPacketStore { db }),
            Err(e) => Err(e),
        }
    }

    /// Opens a fresh, empty in-memory store.
    pub fn open_inmemory() -> (r: Result<SignedPacketStore, StoreError>)
        ensures
            match r {
                Ok(s) => s.view() == Map::<Seq<u8>, Seq<u8>>::empty(),
                Err(_) => true,
            },
    {
        match db_open_inmemory() {
            Ok(db) => Ok(SignedPacketStore { db }),
            Err(e) => Err(e),
        }
    }

    /// The relay bytes stored under a key, if any.
    pub fn get(&self, key: &Vec<u8>) -> (r: Result<Option<Vec<u8>>, StoreError>)
        ensures
            match r {
                Ok(Some(v)) => self.view().contains_key(key@) && self.view()[key@] == v@,
                Ok(None) => !self.view().contains_key(key@),
                Err(_) => true,
            },
    {
        db_get(&self.db, key)
    }

    /// Stores a packet unless the key already holds one at least as fresh.
    /// Returns whether it wrote; counts an insert or an update. On a
    /// backend error the contents are either untouched or exactly the
    /// intended result, and no counter moves.
    pub fn upsert(&mut self, packet: &SignedPacket, metrics: &mut Metrics) -> (r: Result<
        bool,
        StoreError,
    >)
        requires
            packet_sized(packet@),
        ensures
            match r {
                Ok(wrote) => {
                    &&& wrote == store_upsert_writes(old(self).view(), packet@)
                    &&& final(self).view() == store_upsert_spec(old(self).view(), packet@)
                    &&& final(metrics).store_packets_inserted == if wrote && !old(self).view()
                        .contains_key(packet@.public_key) {
                        bumped(old(metrics).store_packets_inserted)
                    } else {
                        old(metrics).store_packets_inserted
                    }
                    &&& final(metrics).store_packets_updated == if wrote && old(self).view()
                        .contains_key(packet@.public_key) {
                        bumped(old(metrics).store_packets_updated)
                    } else {
                        old(metrics).store_packets_updated
                    }
                },
                Err(_) => (final(self).view() == old(self).view() || final(self).view()
                    == store_upsert_spec(old(self).view(), packet@)) && *final(metrics) == *old(
                    metrics,
                ),
            },
            final(metrics).store_packets_removed == old(metrics).store_packets_removed,
            final(metrics).pkarr_publish_update == old(metrics).pkarr_publish_update,
            final(metrics).pkarr_publish_noop == old(metrics).pkarr_publish_noop,
            final(metrics).pkarr_publish_error == old(metrics).pkarr_publish_error,
    {
        let existing = match db_get(&self.db, &packet.public_key) {
            Ok(x) => x,
            Err(e) => {
                return Err(e);
            },
        };
        let had_row = match &existing {
            Some(v) => {
                let ts = stored_timestamp_exec(v);
                if ts >= packet.timestamp {
                    return Ok(false);
                }
                true
            },
            None => false,
        };
        let value = packet.encode_relay();
        match db_insert(&mut self.db, &packet.public_key, &value) {
            Ok(_) => {
                if had_row {
                    metrics.store_packets_updated = bump(metrics.store_packets_updated);
                } else {
                    metrics.store_packets_inserted = bump(metrics.store_packets_inserted);
                }
                Ok(true)
            },
            Err(e) => Err(e),
        }
    }

    /// Removes the row under a key; returns whether one existed.
    pub fn remove(&mut self, key: &Vec<u8>, metrics: &mut Metrics) -> (r: Result<
        bool,
        StoreError,
    >)
        ensures
            match r {
                Ok(existed) => {
                    &&& existed == old(self).view().contains_key(key@)
                    &&& final(self).view() == old(self).view().remove(key@)
                    &&& final(metrics).store_packets_removed == if existed {
                        bumped(old(metrics).store_packets_removed)
                    } else {
                        old(metrics).store_packets_removed
                    }
                },
                Err(_) => (final(self).view() == old(self).view() || final(self).view()
                    == old(self).view().remove(key@)) && *final(metrics) == *old(metrics),
            },
            final(metrics).store_packets_inserted == old(metrics).store_packets_inserted,
            final(metrics).store_packets_updated == old(metrics).store_packets_updated,
            final(metrics).pkarr_publish_update == old(metrics).pkarr_publish_update,
            final(metrics).pkarr_publish_noop == old(metrics).pkarr_publish_noop,
            final(metrics).pkarr_publish_error == old(metrics).pkarr_publish_error,
    {
        match db_remove(&mut self.db, key) {
            Ok(existed) => {
                if existed {
                    metrics.store_packets_removed = bump(metrics.store_packets_removed);
                }
                Ok(existed)
            },
            Err(e) => Err(e),
        }
    }

    /// Every stored row, as key and value bytes; keys are distinct.
    pub fn rows(&self) -> (r: Result<Vec<(Vec<u8>, Vec<u8>)>, StoreError>)
        ensures
            match r {
                Ok(rows) => {
                    &&& forall|i: int| 0 <= i < rows@.len()
                        ==> self.view().contains_pair((#[trigger] rows@[i]).0@, rows@[i].1@)
                    &&& forall|i: int, j: int|
                        0 <= i < j < rows@.len() ==> (#[trigger] rows@[i]).0@ != (
                        #[trigger] rows@[j]).0@
                    &&& forall|k: Seq<u8>| self.view().dom().contains(k)
                        ==> exists|i: int| 0 <= i < rows@.len() && (#[trigger] rows@[i]).0@ == k
                },
                Err(_) => true,
            },
    {
        db_rows(&self.db)
    }
}

/// Reads the timestamp a stored value carries.
fn stored_timestamp_exec(v: &Vec<u8>) -> (r: u64)
    ensures
        r as nat == stored_timestamp(v@),
{
    if v.len() < 72 {
        return 0;
    }
    let mut ts_bytes: Vec<u8> = Vec::new();
    let mut j: usize = 64;
    while j < 72
        invariant
            v@.len() >= 72,
            64 <= j <= 72,
            ts_bytes@ =~= v@.subrange(64, j as int),
        decreases 72 - j,
    {
        ts_bytes.push(v[j]);
        j = j + 1;
    }
    proof {
        lemma_pow_values();
        assert(forall|i: int| 0 <= i < 8 ==> nats_of(ts_bytes@)[i] < 256);
    }
    undigits_u64(&ts_bytes, 256)
}

/// Folds a run of upserts, earliest first, over a stored map.
pub open spec fn fold_upserts(m: Map<Seq<u8>, Seq<u8>>, ps: Seq<PacketV>) -> Map<Seq<u8>, Seq<u8>>
    decreases ps.len(),
{
    if ps.len() == 0 {
        m
    } else {
        store_upsert_spec(fold_upserts(m, ps.drop_last()), ps.last())
    }
}

/// The greatest timestamp in a run of packets.
pub open spec fn max_timestamp(ps: Seq<PacketV>) -> nat
    decreases ps.len(),
{
    if ps.len() == 0 {
        0
    } else if ps.last().timestamp >= max_timestamp(ps.drop_last()) {
        ps.last().timestamp as nat
    } else {
        max_timestamp(ps.drop_last())
    }
}

/// One upsert never lowers the stored timestamp of the key, and either
/// leaves the row or writes exactly the offered packet's relay bytes.
pub proof fn lemma_upsert_step_fresh(m: Map<Seq<u8>, Seq<u8>>, p: PacketV)
    requires
        p.signature.len() == 64,
    ensures
        store_upsert_spec(m, p).contains_key(p.public_key),
        stored_timestamp(store_upsert_spec(m, p)[p.public_key]) >= p.timestamp || (
        m.contains_key(p.public_key) && store_upsert_spec(m, p)[p.public_key] == m[p.public_key]),
        m.contains_key(p.public_key) ==> stored_timestamp(store_upsert_spec(m, p)[p.public_key])
            >= stored_timestamp(m[p.public_key]),
        store_upsert_spec(m, p)[p.public_key] == relay_encode_spec(p) || (m.contains_key(
            p.public_key,
        ) && store_upsert_spec(m, p)[p.public_key] == m[p.public_key]),
{
    lemma_stored_timestamp_of_encode(p);
}

/// The freshness law of the store: after any run of verified upserts for
/// one key into an empty store, the stored row is the relay form of a
/// packet of the run whose timestamp is the greatest of the run; a stale
/// packet never displaces a fresher one.
pub proof fn lemma_store_freshness(ps: Seq<PacketV>, key: Seq<u8>)
    requires
        ps.len() > 0,
        forall|i: int| 0 <= i < ps.len() ==> (#[trigger] ps[i]).public_key == key,
        forall|i: int| 0 <= i < ps.len() ==> (#[trigger] ps[i]).signature.len() == 64,
    ensures
        fold_upserts(Map::empty(), ps).contains_key(key),
        stored_timestamp(fold_upserts(Map::empty(), ps)[key]) == max_timestamp(ps),
        exists|i: int| 0 <= i < ps.len() && fold_upserts(Map::empty(), ps)[key]
            == relay_encode_spec(#[trigger] ps[i]) && ps[i].timestamp == max_timestamp(ps),
    decreases ps.len(),
{
    let p = ps.last();
    let rest = ps.drop_last();
    lemma_stored_timestamp_of_encode(p);
    if rest.len() == 0 {
        let m_e = Map::<Seq<u8>, Seq<u8>>::empty();
        assert(fold_upserts(m_e, rest) == m_e);
        assert(fold_upserts(m_e, ps) == store_upsert_spec(m_e, p));
        assert(!m_e.contains_key(p.public_key));
        assert(ps[ps.len() - 1] == p);
        assert(max_timestamp(rest) == 0);
        assert(max_timestamp(ps) == p.timestamp);
        assert(fold_upserts(m_e, ps)[key] == relay_encode_spec(p));
        let w = ps.len() - 1;
        assert(0 <= w < ps.len() && fold_upserts(m_e, ps)[key] == relay_encode_spec(ps[w])
            && ps[w].timestamp == max_timestamp(ps));
    } else {
        assert(forall|i: int| 0 <= i < rest.len() ==> (#[trigger] rest[i]) == ps[i]);
        lemma_store_freshness(rest, key);
        let m0 = fold_upserts(Map::empty(), rest);
        let m1 = fold_upserts(Map::empty(), ps);
        assert(m1 == store_upsert_spec(m0, p));
        if stored_timestamp(m0[key]) >= p.timestamp {
            assert(m1 == m0);
            assert(max_timestamp(ps) == max_timestamp(rest));
            let w = choose|i: int| 0 <= i < rest.len() && m0[key] == relay_encode_spec(
                #[trigger] rest[i],
            ) && rest[i].timestamp == max_timestamp(rest);
            assert(0 <= w < ps.len() && m1[key] == relay_encode_spec(ps[w])
                && ps[w].timestamp == max_timestamp(ps));
        } else {
            assert(m1[key] == relay_encode_spec(p));
            assert(max_timestamp(ps) == p.timestamp);
            let w = ps.len() - 1;
            assert(m1[key] == relay_encode_spec(ps[w]) && ps[w].timestamp == max_timestamp(ps));
        }
    }
}

} // verus!
