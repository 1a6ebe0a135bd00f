//! The store of one language: word frequencies and sentence rankings, each
//! a primary table keyed by content hash with an ordered index beside it,
//! and the record of the layout version.
//!
//! The store works on tables held in memory. Reading them from a file and
//! writing them back is left to the caller, who hands the stored rows to
//! [`SageDatabase::new`] and takes them back from [`SageDatabase::tables`].

use vstd::prelude::*;
use crate::analysis::{RawData, SentenceRanker, counts, ranked, scored, sorted_by_score};
use crate::constants::REDB_LAYOUT_VERSION;
use crate::index::{limited, strictly_ascending};
use crate::order::{Digest, IndexKey, key_lt};
use crate::records::{Record, Stored, ascending_digests, loaded, row_views};
use crate::model::{
    StoreModel, all_known, batch_words, empty_store, lemma_merge_frequencies_known, looked_up,
    merge_frequencies, store_rankings, trained_with,
};
use crate::store::{IndexedTable, Paired, lemma_rows_determined, needs_rebuild, rebuilt};
use crate::util::{Util, texts, word_digest};

verus! {

/// A sentence with its easiness score, as the sentence table stores it.
#[derive(Debug)]
pub struct SentenceDoc {
    pub raw: String,
    pub rating: u64,
}

impl SentenceDoc {
    pub fn new(sentence: String, ranking: u64) -> (doc: Self)
        ensures
            doc.raw == sentence,
            doc.rating == ranking,
    {
        SentenceDoc { raw: sentence, rating: ranking }
    }
}

/// A word with its count, as the frequency table stores it.
#[derive(Debug)]
pub struct FrequencyDoc {
    pub word: String,
    pub freq: u64,
}

impl FrequencyDoc {
    pub fn new(word: String, freq: u64) -> (doc: Self)
        ensures
            doc.word == word,
            doc.freq == freq,
    {
        Self { word, freq }
    }

    /// The content hash of the word: the key of its record.
    pub fn hash(&self) -> (digest: [u8; 32])
        ensures
            digest == word_digest(self.word@),
    {
        Util::hash_word(self.word.as_str())
    }
}

/// A broken invariant of the store: not a condition to retry. The first
/// two are found by `check_version`, before a store is opened; a store
/// that has one of them is not to be opened at all.
#[derive(Debug, Clone, PartialEq, Eq)]
pub enum DatabaseError {
    /// The version table holds more than one record.
    DuplicateVersionRecords { rows: usize },
    /// The stored layout is of a later generation than this code knows.
    SchemaTooNew { stored: u32, current: u32 },
    /// A row of the index named names a digest that has no record in the
    /// primary table.
    MissingRecord { index: IndexKind, hash: [u8; 32] },
}

/// How the stored layout version stands to the one of this code.
#[derive(Debug, Clone, Copy, PartialEq, Eq, Structural)]
pub enum VersionState {
    /// The versions are equal.
    Consistent,
    /// The stored version is older: the version record is to be replaced
    /// and the indices rebuilt.
    NeedsUpgrade,
}

/// One of the two secondary indices.
#[derive(Debug, Clone, Copy, PartialEq, Eq, Structural)]
pub enum IndexKind {
    /// The index of the word table, ordered by count.
    WordFrequency,
    /// The index of the sentence table, ordered by score.
    SentenceRank,
}

/// The rows of all tables of a store, as plain values.
pub struct StoredTables {
    /// Word records: digest of the word, word, count.
    pub frequencies: Vec<Record>,
    /// Sentence records: digest of the word sequence, sentence, score.
    pub sentences: Vec<Record>,
    /// Keys of the frequency index: count and digest.
    pub freq_index: Vec<IndexKey>,
    /// Keys of the ranking index: score and digest.
    pub rankings_index: Vec<IndexKey>,
    /// Keys of the version table: at most one layout version.
    pub system: Vec<u32>,
}

/// The layout version of this code.
pub open spec fn current_version() -> u32 {
    REDB_LAYOUT_VERSION as u32
}

/// Every index key names a digest that has a record.
pub open spec fn all_present(records: Map<Digest, Stored>, keys: Seq<IndexKey>) -> bool {
    forall|i: int| 0 <= i < keys.len() ==> records.contains_key((#[trigger] keys[i]).1)
}

/// For each index key, the text of the record it names and the sort value
/// of the key.
pub open spec fn joined(records: Map<Digest, Stored>, keys: Seq<IndexKey>) -> Seq<Stored> {
    keys.map_values(|key: IndexKey| (records[key.1].0, key.0))
}

/// The index rows that a query with this limit reads.
pub open spec fn query_rows(table: IndexedTable, limit: Option<u32>) -> Seq<IndexKey> {
    table.index_rows().take(limited(table.index_rows().len(), limit) as int)
}

/// What a query answers from `records` for the rows `keys` of the index
/// `index`: the joined rows, or the first key that names no record.
pub open spec fn query_answer(
    records: Map<Digest, Stored>,
    keys: Seq<IndexKey>,
    index: IndexKind,
    answer: Result<Seq<Stored>, DatabaseError>,
) -> bool {
    match answer {
        Ok(rows) => all_present(records, keys) && rows == joined(records, keys),
        Err(error) => exists|i: int|
            0 <= i < keys.len() && all_present(records, keys.take(i)) && !records.contains_key(
                (#[trigger] keys[i]).1,
            ) && error == (DatabaseError::MissingRecord { index, hash: keys[i].1 }),
    }
}

/// The views of frequency documents.
pub open spec fn frequency_views(docs: Seq<FrequencyDoc>) -> Seq<Stored> {
    docs.map_values(|doc: FrequencyDoc| (doc.word@, doc.freq))
}

/// The views of sentence documents.
pub open spec fn sentence_views(docs: Seq<SentenceDoc>) -> Seq<Stored> {
    docs.map_values(|doc: SentenceDoc| (doc.raw@, doc.rating))
}

/// The views of a result's rows.
pub open spec fn answer_views(answer: Result<Vec<(String, u64)>, DatabaseError>) -> Result<
    Seq<Stored>,
    DatabaseError,
> {
    match answer {
        Ok(pairs) => Ok(counts(pairs@)),
        Err(error) => Err(error),
    }
}

/// The version that a version table records: that of its first row, or
/// zero when it has none.
pub open spec fn stored_version(rows: Seq<u32>) -> u32 {
    if rows.len() == 0 {
        0
    } else {
        rows[0]
    }
}

/// What opening a store finds about its version table: that the stored
/// version is current, that it is older and the store needs an upgrade, or
/// why the store cannot be used.
pub open spec fn version_check(rows: Seq<u32>) -> Result<VersionState, DatabaseError> {
    if rows.len() > 1 {
        Err(DatabaseError::DuplicateVersionRecords { rows: rows.len() as usize })
    } else if stored_version(rows) == current_version() {
        Ok(VersionState::Consistent)
    } else if stored_version(rows) < current_version() {
        Ok(VersionState::NeedsUpgrade)
    } else {
        Err(DatabaseError::SchemaTooNew { stored: stored_version(rows), current: current_version() })
    }
}

/// A limit only cuts the unlimited answer short: the rows read with a limit
/// are the first rows of those read without one, in the same order, and
/// joining them with the records gives the first rows of the full answer.
pub proof fn lemma_limit_truncates(table: IndexedTable, limit: u32)
    ensures
        query_rows(table, Some(limit)) == query_rows(table, None).take(
            limited(table.index_rows().len(), Some(limit)) as int,
        ),
        joined(table.records(), query_rows(table, Some(limit))) == joined(
            table.records(),
            query_rows(table, None),
        ).take(limited(table.index_rows().len(), Some(limit)) as int),
        query_rows(table, None) == table.index_rows(),
{
    let rows = table.index_rows();
    assert(rows.take(rows.len() as int) =~= rows);
    let cut = limited(rows.len(), Some(limit)) as int;
    assert(query_rows(table, Some(limit)) =~= query_rows(table, None).take(cut));
    assert(joined(table.records(), rows.take(cut)) =~= joined(table.records(), rows).take(cut));
}

/// The rows that a query reads from an index in key order are in key
/// order: ascending by sort value, rows of one sort value by digest, and
/// no row twice.
pub proof fn lemma_query_rows_ascending(table: IndexedTable, limit: Option<u32>)
    requires
        strictly_ascending(table.index_rows()),
    ensures
        strictly_ascending(query_rows(table, limit)),
{
    let rows = table.index_rows();
    let read = query_rows(table, limit);
    assert forall|i: int, j: int| 0 <= i < j < read.len() implies key_lt(
        #[trigger] read[i],
        #[trigger] read[j],
    ) by {
        assert(key_lt(rows[i], rows[j]));
    }
}

/// Two stores whose tables hold the same records and the same index keys
/// answer a query from the same index rows, whichever way each index came
/// about.
pub proof fn lemma_same_tables_same_rows(a: IndexedTable, b: IndexedTable, limit: Option<u32>)
    requires
        a.wf(),
        b.wf(),
        a.state() == b.state(),
    ensures
        query_rows(a, limit) == query_rows(b, limit),
        joined(a.records(), query_rows(a, limit)) == joined(b.records(), query_rows(b, limit)),
{
    lemma_rows_determined(a, b);
}

/// The store of one language.
pub struct SageDatabase {
    frequencies: IndexedTable,
    sentences: IndexedTable,
    system: Vec<u32>,
    lang: String,
    version_inconsistency: bool,
}

impl SageDatabase {
    /// The word table with its index.
    pub closed spec fn frequencies(&self) -> IndexedTable {
        self.frequencies
    }

    /// The sentence table with its index.
    pub closed spec fn sentences(&self) -> IndexedTable {
        self.sentences
    }

    /// The tables as mathematical values.
    pub open spec fn model(&self) -> StoreModel {
        StoreModel {
            frequencies: self.frequencies().state(),
            sentences: self.sentences().state(),
        }
    }

    /// The table that an index belongs to, with that index.
    pub open spec fn indexed(&self, kind: IndexKind) -> IndexedTable {
        match kind {
            IndexKind::WordFrequency => self.frequencies(),
            IndexKind::SentenceRank => self.sentences(),
        }
    }

    /// The rows of the version table.
    pub closed spec fn version_rows(&self) -> Seq<u32> {
        self.system@
    }

    /// The language whose text the store holds.
    pub closed spec fn language(&self) -> Seq<char> {
        self.lang@
    }

    /// The store was upgraded when it was opened, and no consistency check
    /// has taken note of it yet.
    pub closed spec fn upgrade_pending(&self) -> bool {
        self.version_inconsistency
    }

    /// The tables are in key order.
    pub closed spec fn wf(&self) -> bool {
        self.frequencies.wf() && self.sentences.wf()
    }

    /// What well-formedness says: both tables with their indices are in
    /// key order, so a scan of either index meets its rows in ascending
    /// order of sort value, rows of one sort value in order of digest.
    pub proof fn lemma_wf(&self)
        requires
            self.wf(),
        ensures
            self.frequencies().wf(),
            self.sentences().wf(),
            strictly_ascending(self.frequencies().index_rows()),
            strictly_ascending(self.sentences().index_rows()),
    {
        self.frequencies.lemma_wf();
        self.sentences.lemma_wf();
    }

    /// Both indices mirror their primary tables.
    pub open spec fn consistent(&self) -> bool {
        self.frequencies().consistent() && self.sentences().consistent()
    }

    /// The language whose text the store holds.
    pub fn lang(&self) -> (lang: &String)
        ensures
            lang@ == self.language(),
    {
        &self.lang
    }

    /// Whether an upgrade is waiting for the next consistency check.
    pub fn version_inconsistency(&self) -> (pending: bool)
        ensures
            pending == self.upgrade_pending(),
    {
        self.version_inconsistency
    }

    /// What the version table of a store says: that the stored layout is
    /// current, that it is older and the store needs an upgrade, or why the
    /// store must not be opened. An empty table counts as version zero.
    pub fn check_version(system: &Vec<u32>) -> (state: Result<VersionState, DatabaseError>)
        ensures
            state == version_check(system@),
    {
        if system.len() > 1 {
            return Err(DatabaseError::DuplicateVersionRecords { rows: system.len() });
        }
        let stored: u32 = if system.len() == 0 {
            0
        } else {
            system[0]
        };
        let current = REDB_LAYOUT_VERSION as u32;
        if stored == current {
            Ok(VersionState::Consistent)
        } else if stored < current {
            Ok(VersionState::NeedsUpgrade)
        } else {
            Err(DatabaseError::SchemaTooNew { stored, current })
        }
    }

    /// Opens a store on the rows that were read from its file; for a file
    /// that was just created, on empty tables. The records are loaded as
    /// they are, and a store of an older layout is upgraded: its version
    /// record is replaced and the next consistency check rebuilds the index
    /// it looks at. A store whose version table has more than one row, or
    /// a version later than this code's, is not to be opened:
    /// `check_version` tells.
    pub fn new(lang: &str, stored: StoredTables) -> (db: Self)
        requires
            version_check(stored.system@) is Ok,
        ensures
            db.wf(),
            db.language() == lang@,
            db.frequencies().state() == (Paired {
                records: loaded(row_views(stored.frequencies@)),
                index: stored.freq_index@.to_set(),
            }),
            db.sentences().state() == (Paired {
                records: loaded(row_views(stored.sentences@)),
                index: stored.rankings_index@.to_set(),
            }),
            stored.frequencies@.len() == 0 && stored.sentences@.len() == 0
                && stored.freq_index@.len() == 0 && stored.rankings_index@.len() == 0
                ==> db.model() == empty_store(),
            version_check(stored.system@) == Ok::<VersionState, DatabaseError>(
                VersionState::Consistent,
            ) ==> db.version_rows() == stored.system@ && !db.upgrade_pending(),
            version_check(stored.system@) == Ok::<VersionState, DatabaseError>(
                VersionState::NeedsUpgrade,
            ) ==> db.version_rows() == seq![current_version()] && db.upgrade_pending(),
            version_check(db.version_rows()) == Ok::<VersionState, DatabaseError>(
                VersionState::Consistent,
            ),
    {
        let frequencies = IndexedTable::load(&stored.frequencies, &stored.freq_index);
        let sentences = IndexedTable::load(&stored.sentences, &stored.rankings_index);
        let mut db = SageDatabase {
            frequencies,
            sentences,
            system: stored.system,
            lang: lang.to_owned(),
            version_inconsistency: false,
        };
        proof {
            if stored.freq_index@.len() == 0 {
                assert(stored.freq_index@.to_set() =~= Set::empty());
            }
            if stored.rankings_index@.len() == 0 {
                assert(stored.rankings_index@.to_set() =~= Set::empty());
            }
        }
        db.ensure_version_consistency();
        db
    }

    /// The rows of all tables, to be written to the store's file. A store
    /// opened on them holds the same records and the same index rows.
    pub fn tables(&self) -> (stored: StoredTables)
        requires
            self.wf(),
        ensures
            loaded(row_views(stored.frequencies@)) == self.frequencies().records(),
            loaded(row_views(stored.sentences@)) == self.sentences().records(),
            ascending_digests(stored.frequencies@),
            ascending_digests(stored.sentences@),
            stored.freq_index@ == self.frequencies().index_rows(),
            stored.rankings_index@ == self.sentences().index_rows(),
            stored.system@ == self.version_rows(),
    {
        let mut system: Vec<u32> = Vec::new();
        let mut i: usize = 0;
        while i < self.system.len()
            invariant
                i <= self.system@.len(),
                system@ == self.system@.take(i as int),
            decreases self.system@.len() - i,
        {
            system.push(self.system[i]);
            assert(self.system@.take(i as int + 1) == self.system@.take(i as int).push(
                self.system@[i as int],
            ));
            i += 1;
        }
        assert(self.system@.take(self.system@.len() as int) == self.system@);
        StoredTables {
            frequencies: self.frequencies.export_records(),
            sentences: self.sentences.export_records(),
            freq_index: self.frequencies.export_index(),
            rankings_index: self.sentences.export_index(),
            system,
        }
    }

    /// Merges a batch of word counts into the frequency table, in the order
    /// of the batch. The count of a word that has a record grows by the
    /// count in the batch and stops at the largest count; a word without a
    /// record gets one with the count in the batch. Each write takes the
    /// word's old index entry out and puts the new one in.
    pub fn insert_freqs(&mut self, data: &RawData)
        requires
            old(self).wf(),
        ensures
            final(self).wf(),
            final(self).frequencies().state() == merge_frequencies(
                old(self).frequencies().state(),
                counts(data.freqs@),
            ),
            old(self).frequencies().consistent() ==> final(self).frequencies().consistent(),
            final(self).sentences() == old(self).sentences(),
            final(self).version_rows() == old(self).version_rows(),
            final(self).language() == old(self).language(),
            final(self).upgrade_pending() == old(self).upgrade_pending(),
    {
        let ghost batch = counts(data.freqs@);
        let mut i: usize = 0;
        while i < data.freqs.len()
            invariant
                i <= data.freqs@.len(),
                batch == counts(data.freqs@),
                self.wf(),
                self.frequencies.state() == merge_frequencies(
                    old(self).frequencies.state(),
                    batch.take(i as int),
                ),
                old(self).frequencies.consistent() ==> self.frequencies.consistent(),
                self.sentences == old(self).sentences,
                self.system == old(self).system,
                self.lang == old(self).lang,
                self.version_inconsistency == old(self).version_inconsistency,
            decreases data.freqs@.len() - i,
        {
            let word = &data.freqs[i].0;
            let freq = data.freqs[i].1;
            let hash = Util::hash_word(word.as_str());
            let dbval = match self.frequencies.get(&hash) {
                Some(row) => row.value,
                None => 0,
            };
            let new_freq = dbval.saturating_add(freq);
            proof {
                let done = batch.take(i as int + 1);
                assert(done.drop_last() == batch.take(i as int));
                assert(done.last() == (word@, freq));
            }
            self.frequencies.upsert(hash, word.clone(), new_freq);
            i += 1;
        }
        assert(batch.take(data.freqs@.len() as int) == batch);
    }

    /// Ranks the sentences by the frequencies given and stores each ranked
    /// sentence with its score under the digest of its cleaned words, in
    /// ascending order of score. A sentence that has a record already is
    /// thereby scored anew from the frequencies given: the old score has no
    /// part in the new one. Each write takes the old index entry out and
    /// puts the new one in.
    pub fn insert_rankings(&mut self, db_freqs: Vec<(String, u64)>, sentences: Vec<String>)
        requires
            old(self).wf(),
        ensures
            final(self).wf(),
            final(self).sentences().state() == store_rankings(
                old(self).sentences().state(),
                sorted_by_score(ranked(counts(db_freqs@), texts(sentences@))),
            ),
            old(self).sentences().consistent() ==> final(self).sentences().consistent(),
            final(self).frequencies() == old(self).frequencies(),
            final(self).version_rows() == old(self).version_rows(),
            final(self).language() == old(self).language(),
            final(self).upgrade_pending() == old(self).upgrade_pending(),
    {
        let data = RawData { freqs: db_freqs, sentences };
        let ranker = SentenceRanker::new(data);
        let new_rankings = ranker.rankings();
        let ghost batch = scored(new_rankings@);
        let mut i: usize = 0;
        while i < new_rankings.len()
            invariant
                i <= new_rankings@.len(),
                batch == scored(new_rankings@),
                self.wf(),
                self.sentences.state() == store_rankings(
                    old(self).sentences.state(),
                    batch.take(i as int),
                ),
                old(self).sentences.consistent() ==> self.sentences.consistent(),
                self.frequencies == old(self).frequencies,
                self.system == old(self).system,
                self.lang == old(self).lang,
                self.version_inconsistency == old(self).version_inconsistency,
            decreases new_rankings@.len() - i,
        {
            let ranking = &new_rankings[i];
            let words = Util::words_of(ranking.sentence.as_str());
            let hash = Util::hash_words(words.as_slice());
            proof {
                let done = batch.take(i as int + 1);
                assert(done.drop_last() == batch.take(i as int));
                assert(done.last() == (ranking.sentence@, ranking.score));
            }
            self.sentences.upsert(hash, ranking.sentence.clone(), ranking.score);
            i += 1;
        }
        assert(batch.take(new_rankings@.len() as int) == batch);
    }

    /// Takes in the words and sentences of one text as one batch. The word
    /// counts are merged into the frequency table; then the sentences are
    /// ranked by the counts that the store now holds for the words of the
    /// batch, and stored with these scores. A sentence that was stored
    /// before is thereby scored anew from the current counts.
    pub fn train(&mut self, data: &RawData)
        requires
            old(self).wf(),
        ensures
            final(self).wf(),
            final(self).model() == trained_with(
                old(self).model(),
                counts(data.freqs@),
                texts(data.sentences@),
            ),
            old(self).consistent() ==> final(self).consistent(),
            final(self).version_rows() == old(self).version_rows(),
            final(self).language() == old(self).language(),
            final(self).upgrade_pending() == old(self).upgrade_pending(),
    {
        self.insert_freqs(data);
        let ghost batch = batch_words(counts(data.freqs@));
        let mut words: Vec<String> = Vec::new();
        let mut i: usize = 0;
        assert(texts(words@) =~= batch.take(0));
        while i < data.freqs.len()
            invariant
                i <= data.freqs@.len(),
                batch == batch_words(counts(data.freqs@)),
                texts(words@) == batch.take(i as int),
            decreases data.freqs@.len() - i,
        {
            let ghost before = words@;
            words.push(data.freqs[i].0.clone());
            assert(texts(words@) =~= texts(before).push(data.freqs@[i as int].0@));
            assert(batch.take(i as int + 1) =~= batch.take(i as int).push(data.freqs@[i as int].0@));
            i += 1;
        }
        let mut sentences: Vec<String> = Vec::new();
        let mut k: usize = 0;
        while k < data.sentences.len()
            invariant
                k <= data.sentences@.len(),
                sentences@ == data.sentences@.take(k as int),
            decreases data.sentences@.len() - k,
        {
            sentences.push(data.sentences[k].clone());
            assert(data.sentences@.take(k as int + 1) == data.sentences@.take(k as int).push(
                data.sentences@[k as int],
            ));
            k += 1;
        }
        proof {
            assert(batch.take(data.freqs@.len() as int) == batch);
            assert(data.sentences@.take(data.sentences@.len() as int) == data.sentences@);
            lemma_merge_frequencies_known(old(self).frequencies.state(), counts(data.freqs@));
            assert forall|j: int| 0 <= j < batch.len() implies self.frequencies.records().contains_key(
                word_digest(#[trigger] batch[j]),
            ) by {
                assert(batch[j] == counts(data.freqs@)[j].0);
            }
        }
        proof {
            assert forall|j: int| 0 <= j < texts(words@).len() implies self.frequencies.records().contains_key(
                word_digest(#[trigger] texts(words@)[j]),
            ) by {
                assert(texts(words@)[j] == batch[j]);
            }
        }
        let db_freqs = self.freqs_of_words(words.as_slice());
        self.insert_rankings(db_freqs, sentences);
    }

    /// The position of the first word that has no frequency record, if
    /// there is such a word.
    pub fn first_unknown_word(&self, words: &[String]) -> (missing: Option<usize>)
        requires
            self.wf(),
        ensures
            missing is None <==> all_known(self.frequencies().records(), texts(words@)),
            missing matches Some(i) ==> i < words@.len() && all_known(
                self.frequencies().records(),
                texts(words@).take(i as int),
            ) && !self.frequencies().records().contains_key(word_digest(words@[i as int]@)),
    {
        let ghost records = self.frequencies.records();
        let ghost all = texts(words@);
        let mut i: usize = 0;
        while i < words.len()
            invariant
                i <= words@.len(),
                all == texts(words@),
                records == self.frequencies.records(),
                self.wf(),
                all_known(records, all.take(i as int)),
            decreases words@.len() - i,
        {
            let hash = Util::hash_word(words[i].as_str());
            match self.frequencies.get(&hash) {
                Some(_) => {
                    proof {
                        let done = all.take(i as int + 1);
                        assert forall|j: int| 0 <= j < done.len() implies records.contains_key(
                            word_digest(#[trigger] done[j]),
                        ) by {
                            if j < i {
                                assert(all.take(i as int)[j] == done[j]);
                            }
                        }
                    }
                },
                None => {
                    assert(all[i as int] == words@[i as int]@);
                    return Some(i);
                },
            }
            i += 1;
        }
        assert(all.take(words@.len() as int) == all);
        None
    }

    /// The stored count of each word, in the order asked. Every word is to
    /// have a record; `first_unknown_word` tells whether that is so.
    pub fn freqs_of_words(&self, words: &[String]) -> (found: Vec<(String, u64)>)
        requires
            self.wf(),
            all_known(self.frequencies().records(), texts(words@)),
        ensures
            counts(found@) == looked_up(self.frequencies().records(), texts(words@)),
            found@.len() == words@.len(),
            forall|i: int|
                0 <= i < words@.len() ==> (#[trigger] found@[i]).0@ == words@[i]@ && found@[i].1
                    == self.frequencies().records()[word_digest(words@[i]@)].1,
    {
        let mut found: Vec<(String, u64)> = Vec::new();
        let ghost records = self.frequencies.records();
        let ghost all = texts(words@);
        let mut i: usize = 0;
        assert(counts(found@) =~= looked_up(records, all.take(0)));
        while i < words.len()
            invariant
                i <= words@.len(),
                all == texts(words@),
                records == self.frequencies.records(),
                self.wf(),
                all_known(records, all),
                counts(found@) == looked_up(records, all.take(i as int)),
            decreases words@.len() - i,
        {
            let doc = FrequencyDoc::new(words[i].clone(), 0);
            let hash = doc.hash();
            let count = match self.frequencies.get(&hash) {
                Some(row) => row.value,
                None => 0,
            };
            let ghost before = found@;
            found.push((doc.word, count));
            proof {
                assert(all.take(i as int + 1) == all.take(i as int).push(words@[i as int]@));
                assert(counts(found@) =~= counts(before).push((words@[i as int]@, count)));
                assert(looked_up(records, all.take(i as int + 1)) =~= looked_up(
                    records,
                    all.take(i as int),
                ).push((words@[i as int]@, count)));
            }
            i += 1;
        }
        proof {
            assert(all.take(words@.len() as int) == all);
            assert forall|i: int| 0 <= i < words@.len() implies (#[trigger] found@[i]).0@
                == words@[i]@ && found@[i].1 == records[word_digest(words@[i]@)].1 by {
                assert(counts(found@)[i] == looked_up(records, all)[i]);
                assert(records.contains_key(word_digest(all[i])));
            }
        }
        found
    }

    /// Reads the index rows that a query with this limit reads, and joins
    /// each with the text of the record it names.
    fn scan_index(table: &IndexedTable, index: IndexKind, limit: Option<u32>) -> (answer: Result<
        Vec<(String, u64)>,
        DatabaseError,
    >)
        requires
            table.wf(),
        ensures
            query_answer(table.records(), query_rows(*table, limit), index, answer_views(answer)),
    {
        let keys = table.top_n(limit);
        let ghost records = table.records();
        let mut result: Vec<(String, u64)> = Vec::new();
        let mut i: usize = 0;
        assert(counts(result@) =~= joined(records, keys@.take(0)));
        while i < keys.len()
            invariant
                i <= keys@.len(),
                table.wf(),
                records == table.records(),
                keys@ == query_rows(*table, limit),
                all_present(records, keys@.take(i as int)),
                counts(result@) == joined(records, keys@.take(i as int)),
            decreases keys@.len() - i,
        {
            let (value, hash) = keys[i];
            match table.get(&hash) {
                Some(row) => {
                    let ghost before = result@;
                    result.push((row.text.clone(), value));
                    proof {
                        let done = keys@.take(i as int + 1);
                        assert(done == keys@.take(i as int).push(keys@[i as int]));
                        assert(counts(result@) =~= counts(before).push((row.text@, value)));
                        assert(joined(records, done) =~= joined(records, keys@.take(i as int)).push(
                            (row.text@, value),
                        ));
                        assert forall|j: int| 0 <= j < done.len() implies records.contains_key(
                            (#[trigger] done[j]).1,
                        ) by {
                            if j < i {
                                assert(keys@.take(i as int)[j] == done[j]);
                            }
                        }
                    }
                },
                None => {
                    return Err(DatabaseError::MissingRecord { index, hash });
                },
            }
            i += 1;
        }
        assert(keys@.take(keys@.len() as int) == keys@);
        Ok(result)
    }

    /// The words with the lowest counts, lowest first: the first `limit`
    /// rows of the frequency index in ascending order, all rows when no
    /// limit is given, each with the count of the index row and the word of
    /// the record that the row names. The index is checked first and
    /// rebuilt if the store was just upgraded or the row counts differ;
    /// the check takes note of a pending upgrade. To present the highest
    /// counts first, read the result from its end.
    pub fn top_freqs(&mut self, maybe_limit: Option<u32>) -> (result: Result<
        Vec<FrequencyDoc>,
        DatabaseError,
    >)
        requires
            old(self).wf(),
        ensures
            final(self).wf(),
            final(self).frequencies().state() == if needs_rebuild(
                old(self).frequencies().index_rows().len(),
                old(self).frequencies().records().dom().len(),
                old(self).upgrade_pending(),
            ) {
                rebuilt(old(self).frequencies().state())
            } else {
                old(self).frequencies().state()
            },
            !final(self).upgrade_pending(),
            final(self).sentences() == old(self).sentences(),
            final(self).version_rows() == old(self).version_rows(),
            final(self).language() == old(self).language(),
            query_answer(
                final(self).frequencies().records(),
                query_rows(final(self).frequencies(), maybe_limit),
                IndexKind::WordFrequency,
                match result {
                    Ok(docs) => Ok(frequency_views(docs@)),
                    Err(error) => Err(error),
                },
            ),
            final(self).frequencies().consistent() ==> result is Ok,
            old(self).consistent() ==> final(self).consistent(),
            strictly_ascending(query_rows(final(self).frequencies(), maybe_limit)),
            strictly_ascending(final(self).frequencies().index_rows()),
            final(self).frequencies().index_rows().len() == final(self).frequencies().records().dom().len(),
            !needs_rebuild(
                old(self).frequencies().index_rows().len(),
                old(self).frequencies().records().dom().len(),
                old(self).upgrade_pending(),
            ) ==> final(self).frequencies() == old(self).frequencies(),
            old(self).frequencies().consistent() ==> final(self).frequencies().index_rows() == old(self).frequencies().index_rows(),
    {
        self.ensure_index_consistency(IndexKind::WordFrequency);
        let answer = Self::scan_index(&self.frequencies, IndexKind::WordFrequency, maybe_limit);
        proof {
            self.lemma_consistent_answers(IndexKind::WordFrequency, maybe_limit);
            lemma_query_rows_ascending(self.frequencies, maybe_limit);
        }
        match answer {
            Ok(pairs) => {
                let mut result: Vec<FrequencyDoc> = Vec::new();
                let mut i: usize = 0;
                assert(frequency_views(result@) =~= counts(pairs@).take(0));
                while i < pairs.len()
                    invariant
                        i <= pairs@.len(),
                        frequency_views(result@) == counts(pairs@).take(i as int),
                    decreases pairs@.len() - i,
                {
                    let ghost before = result@;
                    result.push(FrequencyDoc::new(pairs[i].0.clone(), pairs[i].1));
                    assert(frequency_views(result@) =~= frequency_views(before).push(
                        (pairs@[i as int].0@, pairs@[i as int].1),
                    ));
                    assert(counts(pairs@).take(i as int + 1) =~= counts(pairs@).take(i as int).push(
                        (pairs@[i as int].0@, pairs@[i as int].1),
                    ));
                    i += 1;
                }
                assert(counts(pairs@).take(pairs@.len() as int) == counts(pairs@));
                Ok(result)
            },
            Err(error) => Err(error),
        }
    }

    /// The sentences with the lowest scores, lowest first: the first
    /// `limit` rows of the ranking index in ascending order, all rows when
    /// no limit is given, each with the score of the index row and the
    /// sentence of the record that the row names. The index is checked
    /// first and rebuilt if the store was just upgraded or the row counts
    /// differ; the check takes note of a pending upgrade. To present the
    /// easiest sentences first, read the result from its end.
    pub fn top_rankings(&mut self, maybe_limit: Option<u32>) -> (result: Result<
        Vec<SentenceDoc>,
        DatabaseError,
    >)
        requires
            old(self).wf(),
        ensures
            final(self).wf(),
            final(self).sentences().state() == if needs_rebuild(
                old(self).sentences().index_rows().len(),
                old(self).sentences().records().dom().len(),
                old(self).upgrade_pending(),
            ) {
                rebuilt(old(self).sentences().state())
            } else {
                old(self).sentences().state()
            },
            !final(self).upgrade_pending(),
            final(self).frequencies() == old(self).frequencies(),
            final(self).version_rows() == old(self).version_rows(),
            final(self).language() == old(self).language(),
            query_answer(
                final(self).sentences().records(),
                query_rows(final(self).sentences(), maybe_limit),
                IndexKind::SentenceRank,
                match result {
                    Ok(docs) => Ok(sentence_views(docs@)),
                    Err(error) => Err(error),
                },
            ),
            final(self).sentences().consistent() ==> result is Ok,
            old(self).consistent() ==> final(self).consistent(),
            strictly_ascending(query_rows(final(self).sentences(), maybe_limit)),
            strictly_ascending(final(self).sentences().index_rows()),
            final(self).sentences().index_rows().len() == final(self).sentences().records().dom().len(),
            !needs_rebuild(
                old(self).sentences().index_rows().len(),
                old(self).sentences().records().dom().len(),
                old(self).upgrade_pending(),
            ) ==> final(self).sentences() == old(self).sentences(),
            old(self).sentences().consistent() ==> final(self).sentences().index_rows() == old(self).sentences().index_rows(),
    {
        self.ensure_index_consistency(IndexKind::SentenceRank);
        let answer = Self::scan_index(&self.sentences, IndexKind::SentenceRank, maybe_limit);
        proof {
            self.lemma_consistent_answers(IndexKind::SentenceRank, maybe_limit);
            lemma_query_rows_ascending(self.sentences, maybe_limit);
        }
        match answer {
            Ok(pairs) => {
                let mut result: Vec<SentenceDoc> = Vec::new();
                let mut i: usize = 0;
                assert(sentence_views(result@) =~= counts(pairs@).take(0));
                while i < pairs.len()
                    invariant
                        i <= pairs@.len(),
                        sentence_views(result@) == counts(pairs@).take(i as int),
                    decreases pairs@.len() - i,
                {
                    let ghost before = result@;
                    result.push(SentenceDoc::new(pairs[i].0.clone(), pairs[i].1));
                    assert(sentence_views(result@) =~= sentence_views(before).push(
                        (pairs@[i as int].0@, pairs@[i as int].1),
                    ));
                    assert(counts(pairs@).take(i as int + 1) =~= counts(pairs@).take(i as int).push(
                        (pairs@[i as int].0@, pairs@[i as int].1),
                    ));
                    i += 1;
                }
                assert(counts(pairs@).take(pairs@.len() as int) == counts(pairs@));
                Ok(result)
            },
            Err(error) => Err(error),
        }
    }

    /// In a table whose index mirrors its records, every index row names a
    /// record, so a query finds all it looks for.
    proof fn lemma_consistent_answers(&self, kind: IndexKind, limit: Option<u32>)
        ensures
            ({
                let table = self.indexed(kind);
                table.consistent() ==> all_present(table.records(), query_rows(table, limit))
            }),
    {
        let table = self.indexed(kind);
        if table.consistent() {
            let keys = query_rows(table, limit);
            assert forall|i: int| 0 <= i < keys.len() implies table.records().contains_key(
                (#[trigger] keys[i]).1,
            ) by {
                assert(table.index_rows()[i] == keys[i]);
                assert(table.index_rows().to_set().contains(keys[i]));
            }
        }
    }

    /// The layout version that the store records: zero when the version
    /// table is empty. The table is to hold one row at most.
    pub fn version(&self) -> (version: u32)
        requires
            self.version_rows().len() <= 1,
        ensures
            version == stored_version(self.version_rows()),
    {
        if self.system.len() == 0 {
            0
        } else {
            self.system[0]
        }
    }

    /// Compares the stored layout version with the version of this code.
    /// Equal versions change nothing and return `false`. An older stored
    /// version has its record replaced by the current version, leaves the
    /// upgrade pending for the next consistency check, and returns `true`:
    /// a version inconsistency was found and mended. The version table is
    /// to hold one row at most, and no version later than this code's.
    pub fn ensure_version_consistency(&mut self) -> (upgraded: bool)
        requires
            version_check(old(self).version_rows()) is Ok,
        ensures
            upgraded == (stored_version(old(self).version_rows()) < current_version()),
            upgraded ==> final(self).version_rows() == seq![current_version()],
            upgraded ==> final(self).upgrade_pending(),
            !upgraded ==> final(self).version_rows() == old(self).version_rows(),
            !upgraded ==> final(self).upgrade_pending() == old(self).upgrade_pending(),
            version_check(final(self).version_rows()) == Ok::<VersionState, DatabaseError>(
                VersionState::Consistent,
            ),
            final(self).frequencies() == old(self).frequencies(),
            final(self).sentences() == old(self).sentences(),
            final(self).language() == old(self).language(),
            old(self).wf() ==> final(self).wf(),
    {
        let stored = self.version();
        if stored < REDB_LAYOUT_VERSION as u32 {
            let mut system: Vec<u32> = Vec::new();
            system.push(REDB_LAYOUT_VERSION as u32);
            self.system = system;
            self.version_inconsistency = true;
            assert(self.system@ =~= seq![current_version()]);
            true
        } else {
            false
        }
    }

    /// Makes sure that an index can be trusted before a query reads it.
    /// The index is rebuilt if an upgrade is pending or if index and
    /// primary table differ in their row counts; otherwise nothing is
    /// touched. A pending upgrade is taken note of once: it is no longer
    /// pending afterwards. Returns whether the index was rebuilt.
    pub fn ensure_index_consistency(&mut self, kind: IndexKind) -> (was_rebuilt: bool)
        requires
            old(self).wf(),
        ensures
            final(self).wf(),
            !final(self).upgrade_pending(),
            final(self).version_rows() == old(self).version_rows(),
            final(self).language() == old(self).language(),
            ({
                let before = old(self).indexed(kind);
                let after = final(self).indexed(kind);
                &&& was_rebuilt == needs_rebuild(
                    before.index_rows().len(),
                    before.records().dom().len(),
                    old(self).upgrade_pending(),
                )
                &&& was_rebuilt ==> after.state() == rebuilt(before.state()) && after.consistent()
                &&& !was_rebuilt ==> after == before
                &&& before.consistent() ==> after.index_rows() == before.index_rows()
                    && after.consistent()
                &&& after.index_rows().len() == after.records().dom().len()
                &&& strictly_ascending(after.index_rows())
            }),
            kind == IndexKind::WordFrequency ==> final(self).sentences() == old(self).sentences(),
            kind == IndexKind::SentenceRank ==> final(self).frequencies() == old(self).frequencies(),
    {
        let stale = self.version_inconsistency;
        self.version_inconsistency = false;
        match kind {
            IndexKind::WordFrequency => self.frequencies.ensure_consistent(stale),
            IndexKind::SentenceRank => self.sentences.ensure_consistent(stale),
        }
    }

    /// Throws the frequency index away and builds it again from the word
    /// records. An index that mirrored the records comes out as it was.
    pub fn build_freq_index(&mut self)
        requires
            old(self).wf(),
        ensures
            final(self).wf(),
            final(self).frequencies().state() == rebuilt(old(self).frequencies().state()),
            final(self).frequencies().consistent(),
            final(self).frequencies().index_rows().len() == final(self).frequencies().records().dom().len(),
            strictly_ascending(final(self).frequencies().index_rows()),
            old(self).frequencies().consistent() ==> final(self).frequencies().index_rows() == old(self).frequencies().index_rows(),
            final(self).sentences() == old(self).sentences(),
            final(self).version_rows() == old(self).version_rows(),
            final(self).language() == old(self).language(),
            final(self).upgrade_pending() == old(self).upgrade_pending(),
    {
        self.frequencies.rebuild_index();
    }

    /// Throws the ranking index away and builds it again from the sentence
    /// records. An index that mirrored the records comes out as it was.
    pub fn build_rankings_index(&mut self)
        requires
            old(self).wf(),
        ensures
            final(self).wf(),
            final(self).sentences().state() == rebuilt(old(self).sentences().state()),
            final(self).sentences().consistent(),
            final(self).sentences().index_rows().len() == final(self).sentences().records().dom().len(),
            strictly_ascending(final(self).sentences().index_rows()),
            old(self).sentences().consistent() ==> final(self).sentences().index_rows() == old(self).sentences().index_rows(),
            final(self).frequencies() == old(self).frequencies(),
            final(self).version_rows() == old(self).version_rows(),
            final(self).language() == old(self).language(),
            final(self).upgrade_pending() == old(self).upgrade_pending(),
    {
        self.sentences.rebuild_index();
    }
}

/// The rows of a query in the order of presentation: read from the end, so
/// that the highest value comes first.
pub fn presentation_order<T>(rows: Vec<T>) -> (shown: Vec<T>)
    ensures
        shown@ == rows@.reverse(),
{
    let mut rows = rows;
    let mut shown: Vec<T> = Vec::new();
    let ghost all = rows@;
    while rows.len() > 0
        invariant
            rows@.len() + shown@.len() == all.len(),
            rows@ == all.take(rows@.len() as int),
            forall|i: int| 0 <= i < shown@.len() ==> #[trigger] shown@[i] == all[all.len() - 1 - i],
        decreases rows@.len(),
    {
        let ghost before = rows@;
        match rows.pop() {
            Some(row) => {
                assert(row == all[before.len() - 1]);
                shown.push(row);
                assert(rows@ =~= all.take(rows@.len() as int));
            },
            None => {},
        }
    }
    assert(shown@ =~= all.reverse());
    shown
}

} // verus!
