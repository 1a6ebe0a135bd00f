//! A primary table: full records keyed by content hash.

use vstd::prelude::*;
use crate::order::{Digest, Relation, digest_lt, digest_relation, lemma_digest_trichotomy};

verus! {

/// What a primary table holds under one digest: the text (a word or a
/// sentence) and the value its index is ordered by (a count or a score).
pub type Stored = (Seq<char>, u64);

/// One row of a primary table.
pub struct Record {
    pub hash: Digest,
    pub text: String,
    pub value: u64,
}

/// Every earlier row has a smaller digest than every later one.
pub open spec fn ascending_digests(rows: Seq<Record>) -> bool {
    forall|i: int, j: int|
        0 <= i < j < rows.len() ==> digest_lt((#[trigger] rows[i]).hash, (#[trigger] rows[j]).hash)
}

/// The digest, text and value of each row.
pub open spec fn row_views(rows: Seq<Record>) -> Seq<(Digest, Stored)> {
    rows.map_values(|row: Record| (row.hash, (row.text@, row.value)))
}

/// The table that rows give when they are written one after the other: a
/// later row replaces an earlier one with the same digest.
pub open spec fn loaded(rows: Seq<(Digest, Stored)>) -> Map<Digest, Stored>
    decreases rows.len(),
{
    if rows.len() == 0 {
        Map::empty()
    } else {
        loaded(rows.drop_last()).insert(rows.last().0, rows.last().1)
    }
}

/// Rows that hold no digest twice load into the table that has each row
/// under its digest and nothing else.
pub proof fn lemma_loaded_distinct(rows: Seq<(Digest, Stored)>)
    requires
        forall|i: int, j: int|
            0 <= i < j < rows.len() ==> (#[trigger] rows[i]).0 != (#[trigger] rows[j]).0,
    ensures
        forall|i: int|
            0 <= i < rows.len() ==> loaded(rows).contains_key((#[trigger] rows[i]).0) && loaded(
                rows,
            )[rows[i].0] == rows[i].1,
        forall|h: Digest|
            loaded(rows).contains_key(h) ==> exists|i: int|
                0 <= i < rows.len() && (#[trigger] rows[i]).0 == h,
    decreases rows.len(),
{
    if rows.len() > 0 {
        let shorter = rows.drop_last();
        assert forall|i: int, j: int| 0 <= i < j < shorter.len() implies (#[trigger] shorter[i]).0 != (
        #[trigger] shorter[j]).0 by {
            assert(rows[i].0 != rows[j].0);
        }
        lemma_loaded_distinct(shorter);
        assert forall|i: int| 0 <= i < rows.len() implies loaded(rows).contains_key(
            (#[trigger] rows[i]).0,
        ) && loaded(rows)[rows[i].0] == rows[i].1 by {
            if i < shorter.len() {
                assert(shorter[i] == rows[i]);
                assert(rows[i].0 != rows[rows.len() - 1].0);
            }
        }
        assert forall|h: Digest| loaded(rows).contains_key(h) implies exists|i: int|
            0 <= i < rows.len() && (#[trigger] rows[i]).0 == h by {
            if h == rows.last().0 {
                assert(rows[rows.len() - 1].0 == h);
            } else {
                assert(loaded(rows) == loaded(shorter).insert(rows.last().0, rows.last().1));
                assert(loaded(shorter).contains_key(h));
                let i = choose|i: int| 0 <= i < shorter.len() && (#[trigger] shorter[i]).0 == h;
                assert(shorter[i] == rows[i]);
                assert(rows[i].0 == h);
            }
        }
    }
}

/// A primary table. Its view maps each digest that has a record to the text
/// and value of that record.
pub struct RecordTable {
    rows: Vec<Record>,
    model: Ghost<Map<Digest, Stored>>,
}

impl View for RecordTable {
    type V = Map<Digest, Stored>;

    closed spec fn view(&self) -> Map<Digest, Stored> {
        self.model@
    }
}

impl RecordTable {
    /// The rows are in ascending digest order, one per digest of the view,
    /// and each holds what the view gives for its digest.
    pub closed spec fn wf(&self) -> bool {
        &&& forall|i: int, j: int|
            0 <= i < j < self.rows@.len() ==> digest_lt(
                (#[trigger] self.rows@[i]).hash,
                (#[trigger] self.rows@[j]).hash,
            )
        &&& forall|i: int|
            0 <= i < self.rows@.len() ==> {
                let row = #[trigger] self.rows@[i];
                self.model@.contains_key(row.hash) && self.model@[row.hash] == (row.text@, row.value)
            }
        &&& forall|h: Digest|
            self.model@.contains_key(h) ==> exists|i: int|
                0 <= i < self.rows@.len() && (#[trigger] self.rows@[i]).hash == h
        &&& self.model@.dom().finite()
        &&& self.model@.dom().len() == self.rows@.len()
    }

    /// The rows in the order of a scan.
    pub closed spec fn scan(&self) -> Seq<Record> {
        self.rows@
    }

    /// A scan meets every record of the view once, and nothing else.
    pub proof fn lemma_scan(&self)
        requires
            self.wf(),
        ensures
            self@.dom().finite(),
            self@.dom().len() == self.scan().len(),
            forall|i: int|
                0 <= i < self.scan().len() ==> {
                    let row = #[trigger] self.scan()[i];
                    self@.contains_key(row.hash) && self@[row.hash] == (row.text@, row.value)
                },
            forall|h: Digest|
                self@.contains_key(h) ==> exists|i: int|
                    0 <= i < self.scan().len() && (#[trigger] self.scan()[i]).hash == h,
            forall|i: int, j: int|
                0 <= i < j < self.scan().len() ==> (#[trigger] self.scan()[i]).hash
                    != (#[trigger] self.scan()[j]).hash,
    {
        assert forall|i: int, j: int| 0 <= i < j < self.scan().len() implies (
        #[trigger] self.scan()[i]).hash != (#[trigger] self.scan()[j]).hash by {
            assert(digest_lt(self.rows@[i].hash, self.rows@[j].hash));
        }
        assert forall|h: Digest| self@.contains_key(h) implies exists|i: int|
            0 <= i < self.scan().len() && (#[trigger] self.scan()[i]).hash == h by {
            let i = choose|i: int| 0 <= i < self.rows@.len() && (#[trigger] self.rows@[i]).hash == h;
            assert(self.scan()[i].hash == h);
        }
    }

    /// An empty table.
    pub fn new() -> (table: Self)
        ensures
            table.wf(),
            table@ == Map::<Digest, Stored>::empty(),
    {
        RecordTable { rows: Vec::new(), model: Ghost(Map::empty()) }
    }

    /// The number of records.
    pub fn len(&self) -> (n: usize)
        requires
            self.wf(),
        ensures
            n == self@.dom().len(),
            n == self.scan().len(),
    {
        self.rows.len()
    }

    /// The row at position `i` of a scan.
    pub fn row(&self, i: usize) -> (row: &Record)
        requires
            i < self.scan().len(),
        ensures
            *row == self.scan()[i as int],
    {
        &self.rows[i]
    }

    /// The number of rows whose digest comes before `hash`.
    fn lower_bound(&self, hash: &Digest) -> (pos: usize)
        requires
            self.wf(),
        ensures
            pos <= self.rows@.len(),
            forall|i: int| 0 <= i < pos ==> digest_lt((#[trigger] self.rows@[i]).hash, *hash),
            forall|i: int|
                pos <= i < self.rows@.len() ==> !digest_lt((#[trigger] self.rows@[i]).hash, *hash),
    {
        let mut low: usize = 0;
        let mut high: usize = self.rows.len();
        while low < high
            invariant
                self.wf(),
                low <= high <= self.rows@.len(),
                forall|i: int| 0 <= i < low ==> digest_lt((#[trigger] self.rows@[i]).hash, *hash),
                forall|i: int|
                    high <= i < self.rows@.len() ==> !digest_lt(
                        (#[trigger] self.rows@[i]).hash,
                        *hash,
                    ),
            decreases high - low,
        {
            let mid = low + (high - low) / 2;
            let r = digest_relation(&self.rows[mid].hash, hash);
            if r == Relation::Before {
                assert forall|i: int| 0 <= i < mid + 1 implies digest_lt(
                    (#[trigger] self.rows@[i]).hash,
                    *hash,
                ) by {
                    if i < mid {
                        assert(digest_lt(self.rows@[i].hash, self.rows@[mid as int].hash));
                    }
                }
                low = mid + 1;
            } else {
                assert forall|i: int| mid <= i < self.rows@.len() implies !digest_lt(
                    (#[trigger] self.rows@[i]).hash,
                    *hash,
                ) by {
                    if mid < i {
                        assert(digest_lt(self.rows@[mid as int].hash, self.rows@[i].hash));
                    }
                }
                high = mid;
            }
        }
        low
    }

    /// With `pos` rows before `hash`, a record for `hash` can only be at `pos`.
    proof fn lemma_absent_unless_at(&self, hash: Digest, pos: int)
        requires
            self.wf(),
            0 <= pos <= self.rows@.len(),
            forall|i: int| 0 <= i < pos ==> digest_lt((#[trigger] self.rows@[i]).hash, hash),
            forall|i: int|
                pos <= i < self.rows@.len() ==> !digest_lt((#[trigger] self.rows@[i]).hash, hash),
        ensures
            self@.contains_key(hash) <==> (pos < self.rows@.len() && self.rows@[pos].hash == hash),
            forall|i: int| pos < i < self.rows@.len() ==> digest_lt(hash, (#[trigger] self.rows@[i]).hash),
    {
        assert forall|i: int| pos < i < self.rows@.len() implies digest_lt(
            hash,
            (#[trigger] self.rows@[i]).hash,
        ) by {
            lemma_digest_trichotomy(hash, self.rows@[pos].hash);
            lemma_digest_trichotomy(hash, self.rows@[i].hash);
            assert(digest_lt(self.rows@[pos].hash, self.rows@[i].hash));
        }
        if self@.contains_key(hash) {
            let i = choose|i: int| 0 <= i < self.rows@.len() && (#[trigger] self.rows@[i]).hash == hash;
            lemma_digest_trichotomy(hash, hash);
            if i < pos {
                assert(digest_lt(self.rows@[i].hash, hash));
            }
            if i > pos {
                assert(digest_lt(hash, self.rows@[i].hash));
            }
        }
        if pos < self.rows@.len() && self.rows@[pos].hash == hash {
            assert(self@.contains_key(self.rows@[pos].hash));
        }
    }

    /// The record stored under `hash`, if there is one.
    pub fn get(&self, hash: &Digest) -> (found: Option<&Record>)
        requires
            self.wf(),
        ensures
            found is Some <==> self@.contains_key(*hash),
            found matches Some(row) ==> row.hash == *hash && self@[*hash] == (row.text@, row.value),
    {
        let pos = self.lower_bound(hash);
        proof {
            self.lemma_absent_unless_at(*hash, pos as int);
        }
        if pos < self.rows.len() {
            let r = digest_relation(&self.rows[pos].hash, hash);
            if r == Relation::Same {
                return Some(&self.rows[pos]);
            }
        }
        None
    }

    /// Stores `text` and `value` under `hash`, in place of the record that
    /// was there, if any. Returns the value of the record it replaced.
    pub fn upsert(&mut self, hash: Digest, text: String, value: u64) -> (previous: Option<u64>)
        requires
            old(self).wf(),
        ensures
            final(self).wf(),
            final(self)@ == old(self)@.insert(hash, (text@, value)),
            previous is Some <==> old(self)@.contains_key(hash),
            previous matches Some(v) ==> v == old(self)@[hash].1,
    {
        let pos = self.lower_bound(&hash);
        proof {
            self.lemma_absent_unless_at(hash, pos as int);
        }
        let ghost before = self.rows@;
        let ghost model = self.model@;
        let ghost stored = (text@, value);
        let record = Record { hash, text, value };
        if pos < self.rows.len() {
            let r = digest_relation(&self.rows[pos].hash, &hash);
            if r == Relation::Same {
                let previous = self.rows[pos].value;
                self.rows[pos] = record;
                self.model = Ghost(model.insert(hash, stored));
                proof {
                    let after = self.rows@;
                    assert(after == before.update(pos as int, record));
                    assert forall|i: int| 0 <= i < after.len() implies (#[trigger] after[i]).hash
                        == before[i].hash by {}
                    assert(model.insert(hash, stored).dom() =~= model.dom());
                    assert forall|h: Digest| self.model@.contains_key(h) implies exists|i: int|
                        0 <= i < after.len() && (#[trigger] after[i]).hash == h by {
                        let i = choose|i: int| 0 <= i < before.len() && (#[trigger] before[i]).hash == h;
                        assert(after[i].hash == h);
                    }
                    assert forall|i: int| 0 <= i < after.len() implies {
                        let row = #[trigger] after[i];
                        self.model@.contains_key(row.hash) && self.model@[row.hash] == (
                            row.text@,
                            row.value,
                        )
                    } by {
                        if i != pos {
                            assert(before[i].hash != hash) by {
                                if i < pos {
                                    assert(digest_lt(before[i].hash, before[pos as int].hash));
                                } else {
                                    assert(digest_lt(before[pos as int].hash, before[i].hash));
                                }
                            }
                        }
                    }
                    assert forall|i: int, j: int| 0 <= i < j < after.len() implies digest_lt(
                        (#[trigger] after[i]).hash,
                        (#[trigger] after[j]).hash,
                    ) by {
                        assert(digest_lt(before[i].hash, before[j].hash));
                    }
                }
                return Some(previous);
            }
        }
        self.rows.insert(pos, record);
        self.model = Ghost(model.insert(hash, stored));
        proof {
            let after = self.rows@;
            assert(after == before.insert(pos as int, record));
            assert forall|i: int, j: int| 0 <= i < j < after.len() implies digest_lt(
                (#[trigger] after[i]).hash,
                (#[trigger] after[j]).hash,
            ) by {
                lemma_digest_trichotomy(hash, before[pos as int].hash);
                if j < pos {
                    assert(digest_lt(before[i].hash, before[j].hash));
                } else if j == pos {
                    assert(digest_lt(before[i].hash, hash));
                } else if i < pos {
                    assert(digest_lt(before[i].hash, before[j - 1].hash));
                } else if i == pos {
                    assert(digest_lt(hash, before[j - 1].hash));
                } else {
                    assert(digest_lt(before[i - 1].hash, before[j - 1].hash));
                }
            }
            assert forall|i: int| 0 <= i < after.len() implies {
                let row = #[trigger] after[i];
                self.model@.contains_key(row.hash) && self.model@[row.hash] == (row.text@, row.value)
            } by {
                if i < pos {
                    assert(after[i] == before[i]);
                } else if i > pos {
                    assert(after[i] == before[i - 1]);
                }
            }
            assert forall|h: Digest| self.model@.contains_key(h) implies exists|i: int|
                0 <= i < after.len() && (#[trigger] after[i]).hash == h by {
                if h == hash {
                    assert(after[pos as int].hash == h);
                } else {
                    let i = choose|i: int| 0 <= i < before.len() && (#[trigger] before[i]).hash == h;
                    if i < pos {
                        assert(after[i].hash == h);
                    } else {
                        assert(after[i + 1].hash == h);
                    }
                }
            }
        }
        None
    }

    /// A table that holds the given rows, written one after the other.
    pub fn load(rows: &Vec<Record>) -> (table: Self)
        ensures
            table.wf(),
            table@ == loaded(row_views(rows@)),
    {
        let mut table = Self::new();
        let mut i: usize = 0;
        while i < rows.len()
            invariant
                i <= rows@.len(),
                table.wf(),
                table@ == loaded(row_views(rows@).take(i as int)),
            decreases rows@.len() - i,
        {
            proof {
                let done = row_views(rows@).take(i as int + 1);
                assert(done.drop_last() == row_views(rows@).take(i as int));
                assert(done.last() == (rows@[i as int].hash, (rows@[i as int].text@, rows@[i as int].value)));
            }
            table.upsert(rows[i].hash, rows[i].text.clone(), rows[i].value);
            i += 1;
        }
        assert(row_views(rows@).take(rows@.len() as int) == row_views(rows@));
        table
    }

    /// A copy of all rows in ascending order of digest, one row for each
    /// record. Loading the copy gives the same table again.
    pub fn export(&self) -> (rows: Vec<Record>)
        requires
            self.wf(),
        ensures
            row_views(rows@) == row_views(self.scan()),
            loaded(row_views(rows@)) == self@,
            ascending_digests(rows@),
    {
        let mut rows: Vec<Record> = Vec::new();
        let mut i: usize = 0;
        assert(row_views(rows@) =~= row_views(self.scan()).take(0));
        while i < self.rows.len()
            invariant
                i <= self.rows@.len(),
                row_views(rows@) == row_views(self.scan()).take(i as int),
            decreases self.rows@.len() - i,
        {
            let row = &self.rows[i];
            let ghost before = rows@;
            rows.push(Record { hash: row.hash, text: row.text.clone(), value: row.value });
            assert(row_views(rows@) =~= row_views(before).push((row.hash, (row.text@, row.value))));
            assert(row_views(self.scan()).take(i as int + 1) =~= row_views(self.scan()).take(
                i as int,
            ).push((row.hash, (row.text@, row.value))));
            i += 1;
        }
        proof {
            let views = row_views(self.scan());
            assert(views.take(self.rows@.len() as int) == views);
            self.lemma_scan();
            assert forall|i: int, j: int| 0 <= i < j < views.len() implies (#[trigger] views[i]).0 != (
            #[trigger] views[j]).0 by {
                assert(self.scan()[i].hash != self.scan()[j].hash);
            }
            lemma_loaded_distinct(views);
            assert forall|h: Digest| loaded(views).contains_key(h) <==> self@.contains_key(h) by {
                if loaded(views).contains_key(h) {
                    let i = choose|i: int| 0 <= i < views.len() && (#[trigger] views[i]).0 == h;
                    assert(self.scan()[i].hash == h);
                }
                if self@.contains_key(h) {
                    let i = choose|i: int|
                        0 <= i < self.scan().len() && (#[trigger] self.scan()[i]).hash == h;
                    assert(views[i].0 == h);
                }
            }
            assert forall|h: Digest| loaded(views).contains_key(h) implies loaded(views)[h]
                == self@[h] by {
                let i = choose|i: int| 0 <= i < views.len() && (#[trigger] views[i]).0 == h;
                assert(self.scan()[i].hash == h);
                assert(views[i].1 == (self.scan()[i].text@, self.scan()[i].value));
            }
            assert(loaded(views) =~= self@);
            assert forall|i: int, j: int| 0 <= i < j < rows@.len() implies digest_lt(
                (#[trigger] rows@[i]).hash,
                (#[trigger] rows@[j]).hash,
            ) by {
                assert(row_views(rows@)[i] == views[i]);
                assert(row_views(rows@)[j] == views[j]);
                assert(digest_lt(self.rows@[i].hash, self.rows@[j].hash));
            }
        }
        rows
    }
}

} // verus!
