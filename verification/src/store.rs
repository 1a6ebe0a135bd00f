//! A primary table together with its secondary index: the unit that every
//! write goes through, so that no record changes without its index entry.

use vstd::prelude::*;
use crate::index::{IndexTable, lemma_ascending_len, lemma_ascending_unique, limited, strictly_ascending};
use crate::order::{Digest, IndexKey};
use crate::records::{Record, RecordTable, Stored, ascending_digests, loaded, row_views};

verus! {

/// A primary table and its index as mathematical values.
pub struct Paired {
    /// Digest to text and sort value.
    pub records: Map<Digest, Stored>,
    /// The index keys.
    pub index: Set<IndexKey>,
}

/// The index keys that a primary table calls for: one per record, made of
/// the record's sort value and digest.
pub open spec fn image(records: Map<Digest, Stored>) -> Set<IndexKey> {
    Set::new(|key: IndexKey| records.contains_key(key.1) && records[key.1].1 == key.0)
}

/// The index holds exactly the keys that the primary table calls for.
pub open spec fn mirrors(table: Paired) -> bool {
    table.index == image(table.records)
}

/// The pair with no record and no index entry.
pub open spec fn empty_pair() -> Paired {
    Paired { records: Map::empty(), index: Set::empty() }
}

/// The pair after a record is written under `hash`: the index entry of the
/// record that was there before, if any, is taken out, and the entry of the
/// new record is put in.
pub open spec fn upserted(table: Paired, hash: Digest, text: Seq<char>, value: u64) -> Paired {
    let kept = if table.records.contains_key(hash) {
        table.index.remove((table.records[hash].1, hash))
    } else {
        table.index
    };
    Paired { records: table.records.insert(hash, (text, value)), index: kept.insert((value, hash)) }
}

/// The pair after its index is thrown away and built again from the records.
pub open spec fn rebuilt(table: Paired) -> Paired {
    Paired { records: table.records, index: image(table.records) }
}

/// Whether a consistency check rebuilds the index: when the store was just
/// upgraded, or when index and primary table differ in their row counts.
pub open spec fn needs_rebuild(index_rows: nat, record_rows: nat, stale: bool) -> bool {
    stale || index_rows != record_rows
}

/// The empty pair is mirrored.
pub proof fn lemma_empty_mirrors()
    ensures
        mirrors(empty_pair()),
{
    assert(empty_pair().index =~= image(empty_pair().records));
}

/// A write through `upserted` keeps a mirrored pair mirrored.
pub proof fn lemma_upserted_mirrors(table: Paired, hash: Digest, text: Seq<char>, value: u64)
    requires
        mirrors(table),
    ensures
        mirrors(upserted(table, hash, text, value)),
{
    let after = upserted(table, hash, text, value);
    assert forall|key: IndexKey| after.index.contains(key) <==> image(after.records).contains(
        key,
    ) by {
        if key.1 != hash {
            assert(table.index.contains(key) <==> image(table.records).contains(key));
        }
    }
    assert(after.index =~= image(after.records));
}

/// A rebuilt pair is mirrored, and rebuilding a mirrored pair changes nothing.
pub proof fn lemma_rebuilt_mirrors(table: Paired)
    ensures
        mirrors(rebuilt(table)),
        mirrors(table) ==> rebuilt(table) == table,
{
}

/// The keys that a finite primary table calls for are as many as its records.
pub proof fn lemma_image_len(records: Map<Digest, Stored>)
    requires
        records.dom().finite(),
    ensures
        image(records).finite(),
        image(records).len() == records.dom().len(),
    decreases records.dom().len(),
{
    if records.dom().len() == 0 {
        assert(records.dom() =~= Set::empty());
        assert(image(records) =~= Set::empty());
    } else {
        let hash = records.dom().choose();
        let key = (records[hash].1, hash);
        let fewer = records.remove(hash);
        assert(fewer.dom() =~= records.dom().remove(hash));
        lemma_image_len(fewer);
        assert(image(records) =~= image(fewer).insert(key));
        assert(!image(fewer).contains(key));
    }
}

/// In a mirrored pair the index has as many rows as the primary table, every
/// record has its index entry under its current sort value, and no index
/// entry stands for anything else: so each record has exactly one entry.
pub proof fn lemma_index_mirrors_primary(table: Paired)
    requires
        mirrors(table),
        table.records.dom().finite(),
    ensures
        table.index.finite(),
        table.index.len() == table.records.dom().len(),
        forall|hash: Digest| #[trigger]
            table.records.contains_key(hash) ==> table.index.contains((table.records[hash].1, hash)),
        forall|key: IndexKey| #[trigger]
            table.index.contains(key) ==> table.records.contains_key(key.1) && table.records[key.1].1
                == key.0,
{
    lemma_image_len(table.records);
}

/// An index rebuilt from the records is the index that was kept up to date
/// write by write: both are in ascending order and hold the keys that the
/// records call for, so they are the same rows.
pub proof fn lemma_rebuild_reproduces(
    records: Map<Digest, Stored>,
    maintained: Seq<IndexKey>,
    built: Seq<IndexKey>,
)
    requires
        strictly_ascending(maintained),
        strictly_ascending(built),
        mirrors(Paired { records, index: maintained.to_set() }),
        built.to_set() == rebuilt(Paired { records, index: Set::empty() }).index,
    ensures
        built == maintained,
{
    lemma_ascending_unique(built, maintained);
}

/// The index rows of a table are determined by its index keys: two tables
/// in key order that hold the same keys are scanned in the same rows. So a
/// rebuilt index and one that was kept up to date are read alike.
pub proof fn lemma_rows_determined(a: IndexedTable, b: IndexedTable)
    requires
        a.wf(),
        b.wf(),
        a.state().index == b.state().index,
    ensures
        a.index_rows() == b.index_rows(),
{
    a.lemma_wf();
    b.lemma_wf();
    lemma_ascending_unique(a.index_rows(), b.index_rows());
}

/// A check that is told of an upgrade rebuilds the index whatever the row
/// counts are, and a rebuild leaves every record as it is.
pub proof fn lemma_upgrade_forces_rebuild(table: Paired, index_rows: nat, record_rows: nat)
    ensures
        needs_rebuild(index_rows, record_rows, true),
        rebuilt(table).records == table.records,
{
}

/// A primary table with its secondary index.
pub struct IndexedTable {
    primary: RecordTable,
    index: IndexTable,
}

impl IndexedTable {
    /// The primary table: digest to text and sort value.
    pub closed spec fn records(&self) -> Map<Digest, Stored> {
        self.primary@
    }

    /// The index rows in the order of a scan: ascending by sort value, then
    /// by digest.
    pub closed spec fn index_rows(&self) -> Seq<IndexKey> {
        self.index@
    }

    /// The rows of the primary table in the order of a scan.
    pub closed spec fn record_rows(&self) -> Seq<Record> {
        self.primary.scan()
    }

    /// Primary table and index as mathematical values.
    pub open spec fn state(&self) -> Paired {
        Paired { records: self.records(), index: self.index_rows().to_set() }
    }

    /// Both tables are in key order, without a key twice.
    pub closed spec fn wf(&self) -> bool {
        self.primary.wf() && self.index.wf()
    }

    /// The index holds exactly one entry for each record, under the
    /// record's current sort value.
    pub open spec fn consistent(&self) -> bool {
        mirrors(self.state())
    }

    /// What well-formedness says of the views.
    pub proof fn lemma_wf(&self)
        requires
            self.wf(),
        ensures
            strictly_ascending(self.index_rows()),
            self.index_rows().no_duplicates(),
            self.state().index.finite(),
            self.state().index.len() == self.index_rows().len(),
            self.records().dom().finite(),
            self.record_rows().len() == self.records().dom().len(),
            forall|i: int|
                0 <= i < self.record_rows().len() ==> {
                    let row = #[trigger] self.record_rows()[i];
                    self.records().contains_key(row.hash) && self.records()[row.hash] == (
                        row.text@,
                        row.value,
                    )
                },
            forall|h: Digest|
                self.records().contains_key(h) ==> exists|i: int|
                    0 <= i < self.record_rows().len() && (#[trigger] self.record_rows()[i]).hash == h,
    {
        lemma_ascending_len(self.index_rows());
        self.primary.lemma_scan();
    }

    /// A table without records.
    pub fn new() -> (table: Self)
        ensures
            table.wf(),
            table.state() == empty_pair(),
            table.index_rows() == Seq::<IndexKey>::empty(),
    {
        let table = IndexedTable { primary: RecordTable::new(), index: IndexTable::new() };
        assert(table.index_rows().to_set() =~= Set::empty());
        table
    }

    /// The record stored under `hash`, if there is one.
    pub fn get(&self, hash: &Digest) -> (found: Option<&Record>)
        requires
            self.wf(),
        ensures
            found is Some <==> self.records().contains_key(*hash),
            found matches Some(row) ==> row.hash == *hash && self.records()[*hash] == (
                row.text@,
                row.value,
            ),
    {
        self.primary.get(hash)
    }

    /// Writes a record and brings the index up to date in the same step:
    /// the entry under the sort value of the record that is replaced, if
    /// there is one, is removed, and the entry under the new sort value is
    /// inserted.
    pub fn upsert(&mut self, hash: Digest, text: String, value: u64)
        requires
            old(self).wf(),
        ensures
            final(self).wf(),
            final(self).state() == upserted(old(self).state(), hash, text@, value),
            old(self).consistent() ==> final(self).consistent(),
    {
        let ghost before = self.state();
        let previous = self.primary.upsert(hash, text, value);
        self.index.update_entry(previous, value, hash);
        proof {
            assert(self.state().index =~= upserted(before, hash, text@, value).index);
            if mirrors(before) {
                lemma_upserted_mirrors(before, hash, text@, value);
            }
        }
    }

    /// Throws the index away and builds it again from a scan of the primary
    /// table. Afterwards the index mirrors the primary table; an index that
    /// did so before comes out as it was.
    pub fn rebuild_index(&mut self)
        requires
            old(self).wf(),
        ensures
            final(self).wf(),
            final(self).state() == rebuilt(old(self).state()),
            final(self).consistent(),
            final(self).index_rows().len() == final(self).records().dom().len(),
            strictly_ascending(final(self).index_rows()),
            old(self).consistent() ==> final(self).index_rows() == old(self).index_rows(),
    {
        let mut index = IndexTable::new();
        let total = self.primary.len();
        let ghost rows = self.primary.scan();
        proof {
            self.primary.lemma_scan();
            assert(index.keys() =~= Set::empty());
        }
        let mut i: usize = 0;
        while i < total
            invariant
                i <= total == rows.len(),
                rows == self.primary.scan(),
                index.wf(),
                forall|key: IndexKey|
                    index.keys().contains(key) <==> exists|j: int|
                        0 <= j < i && (#[trigger] rows[j]).hash == key.1 && rows[j].value == key.0,
            decreases total - i,
        {
            let row = self.primary.row(i);
            let ghost earlier = index.keys();
            index.insert((row.value, row.hash));
            proof {
                assert forall|key: IndexKey| index.keys().contains(key) <==> exists|j: int|
                    0 <= j < i + 1 && (#[trigger] rows[j]).hash == key.1 && rows[j].value
                        == key.0 by {
                    if earlier.contains(key) {
                        let j = choose|j: int|
                            0 <= j < i && (#[trigger] rows[j]).hash == key.1 && rows[j].value == key.0;
                        assert(rows[j].hash == key.1);
                    }
                    if key == (row.value, row.hash) {
                        assert(rows[i as int].hash == key.1);
                    }
                }
            }
            i += 1;
        }
        proof {
            let records = self.records();
            assert forall|key: IndexKey| index.keys().contains(key) <==> image(records).contains(
                key,
            ) by {
                if index.keys().contains(key) {
                    let j = choose|j: int|
                        0 <= j < rows.len() && (#[trigger] rows[j]).hash == key.1 && rows[j].value
                            == key.0;
                    assert(records.contains_key(rows[j].hash));
                }
                if image(records).contains(key) {
                    let j = choose|j: int| 0 <= j < rows.len() && (#[trigger] rows[j]).hash == key.1;
                    assert(records[rows[j].hash] == (rows[j].text@, rows[j].value));
                }
            }
            assert(index.keys() =~= image(records));
            lemma_image_len(records);
            lemma_ascending_len(index@);
            if old(self).consistent() {
                lemma_ascending_unique(index@, old(self).index_rows());
            }
        }
        self.index = index;
    }

    /// Makes sure that the index can be trusted before a query reads it.
    /// The index is rebuilt when `stale` says that the store was just
    /// upgraded, or when index and primary table differ in their row
    /// counts; otherwise nothing changes. Returns whether it was rebuilt.
    pub fn ensure_consistent(&mut self, stale: bool) -> (was_rebuilt: bool)
        requires
            old(self).wf(),
        ensures
            final(self).wf(),
            was_rebuilt == needs_rebuild(
                old(self).index_rows().len(),
                old(self).records().dom().len(),
                stale,
            ),
            was_rebuilt ==> final(self).state() == rebuilt(old(self).state()),
            !was_rebuilt ==> *final(self) == *old(self),
            old(self).consistent() ==> final(self).index_rows() == old(self).index_rows(),
            old(self).consistent() || was_rebuilt ==> final(self).consistent(),
            final(self).index_rows().len() == final(self).records().dom().len(),
            strictly_ascending(final(self).index_rows()),
    {
        let need_rebuild = stale || self.index.len() != self.primary.len();
        if need_rebuild {
            self.rebuild_index();
        }
        need_rebuild
    }

    /// The first index rows of an ascending scan: lowest sort value first,
    /// cut off after `limit` rows, or all rows when no limit is given.
    pub fn top_n(&self, limit: Option<u32>) -> (rows: Vec<IndexKey>)
        ensures
            rows@ == self.index_rows().take(limited(self.index_rows().len(), limit) as int),
    {
        self.index.top_n(limit)
    }

    /// The table that stored rows give: the records written one after the
    /// other, and the index keys as they are, whether or not they mirror
    /// the records.
    pub fn load(records: &Vec<Record>, index: &Vec<IndexKey>) -> (table: Self)
        ensures
            table.wf(),
            table.state() == (Paired { records: loaded(row_views(records@)), index: index@.to_set() }),
    {
        IndexedTable { primary: RecordTable::load(records), index: IndexTable::load(index) }
    }

    /// A copy of the rows of the primary table. Loading it gives the same
    /// records again.
    pub fn export_records(&self) -> (rows: Vec<Record>)
        requires
            self.wf(),
        ensures
            loaded(row_views(rows@)) == self.records(),
            row_views(rows@) == row_views(self.record_rows()),
            ascending_digests(rows@),
    {
        self.primary.export()
    }

    /// A copy of the index rows, in the order of a scan.
    pub fn export_index(&self) -> (keys: Vec<IndexKey>)
        ensures
            keys@ == self.index_rows(),
    {
        self.index.export()
    }
}

} // verus!
