use freq_sage::analysis::RawData;
use freq_sage::database::{
    presentation_order, DatabaseError, FrequencyDoc, IndexKind, SageDatabase, SentenceDoc,
    StoredTables, VersionState,
};
use freq_sage::records::Record;
use freq_sage::util::Util;

fn strings(list: &[&str]) -> Vec<String> {
    list.iter().map(|w| w.to_string()).collect()
}

fn counted(list: &[(&str, u64)]) -> Vec<(String, u64)> {
    list.iter().map(|(w, c)| (w.to_string(), *c)).collect()
}

fn empty_tables() -> StoredTables {
    StoredTables {
        frequencies: Vec::new(),
        sentences: Vec::new(),
        freq_index: Vec::new(),
        rankings_index: Vec::new(),
        system: Vec::new(),
    }
}

fn fresh() -> SageDatabase {
    SageDatabase::new("English", empty_tables())
}

fn batch(freqs: &[(&str, u64)], sentences: &[&str]) -> RawData {
    RawData { freqs: counted(freqs), sentences: strings(sentences) }
}

fn frequencies(db: &mut SageDatabase, limit: Option<u32>) -> Vec<(String, u64)> {
    db.top_freqs(limit).unwrap().into_iter().map(|doc: FrequencyDoc| (doc.word, doc.freq)).collect()
}

fn rankings(db: &mut SageDatabase, limit: Option<u32>) -> Vec<(String, u64)> {
    db.top_rankings(limit).unwrap().into_iter().map(|doc: SentenceDoc| (doc.raw, doc.rating)).collect()
}

fn sentence_hash(sentence: &str) -> [u8; 32] {
    Util::hash_words(&Util::words_of(sentence))
}

#[test]
fn fresh_store_is_empty_and_records_the_current_version() {
    let mut db = fresh();
    assert_eq!(db.lang(), "English");
    assert_eq!(db.version(), 1);
    assert!(db.version_inconsistency());
    assert_eq!(frequencies(&mut db, None), vec![]);
    assert_eq!(rankings(&mut db, None), vec![]);
    let tables = db.tables();
    assert_eq!(tables.system, vec![1]);
    assert!(tables.frequencies.is_empty());
    assert!(tables.freq_index.is_empty());
}

#[test]
fn merge_accumulation_adds_counts() {
    let mut db = fresh();
    db.insert_freqs(&batch(&[("cat", 3)], &[]));
    db.insert_freqs(&batch(&[("cat", 5)], &[]));
    assert_eq!(frequencies(&mut db, None), counted(&[("cat", 8)]));
}

#[test]
fn merge_accumulation_saturates() {
    let mut db = fresh();
    db.insert_freqs(&batch(&[("cat", u64::MAX - 2)], &[]));
    db.insert_freqs(&batch(&[("cat", 5)], &[]));
    assert_eq!(frequencies(&mut db, None), counted(&[("cat", u64::MAX)]));
    db.insert_freqs(&batch(&[("cat", 1)], &[]));
    assert_eq!(frequencies(&mut db, None), counted(&[("cat", u64::MAX)]));
    assert_eq!(db.tables().freq_index, vec![(u64::MAX, Util::hash_word("cat"))]);
}

#[test]
fn a_word_listed_twice_in_one_batch_is_merged_twice() {
    let mut db = fresh();
    db.insert_freqs(&batch(&[("cat", 3), ("dog", 1), ("cat", 4)], &[]));
    assert_eq!(frequencies(&mut db, None), counted(&[("dog", 1), ("cat", 7)]));
}

#[test]
fn index_follows_every_write() {
    let mut db = fresh();
    db.insert_freqs(&batch(&[("cat", 0), ("dog", 4)], &[]));
    assert_eq!(
        db.tables().freq_index,
        vec![(0, Util::hash_word("cat")), (4, Util::hash_word("dog"))]
    );
    // The entry under the old count goes, also when the old count is zero.
    db.insert_freqs(&batch(&[("cat", 9)], &[]));
    let tables = db.tables();
    assert_eq!(tables.freq_index, vec![(4, Util::hash_word("dog")), (9, Util::hash_word("cat"))]);
    assert_eq!(tables.freq_index.len(), tables.frequencies.len());
}

#[test]
fn top_freqs_is_ascending_with_ties_in_hash_order() {
    let mut db = fresh();
    db.insert_freqs(&batch(&[("cat", 5), ("dog", 1), ("eel", 5), ("fox", 3)], &[]));
    let (first, second) = if Util::hash_word("cat") < Util::hash_word("eel") {
        ("cat", "eel")
    } else {
        ("eel", "cat")
    };
    assert_eq!(
        frequencies(&mut db, None),
        counted(&[("dog", 1), ("fox", 3), (first, 5), (second, 5)])
    );
    // Highest first is the same rows read from the end.
    let mut descending = frequencies(&mut db, None);
    descending.reverse();
    assert_eq!(descending[0].1, 5);
    assert_eq!(descending[3], ("dog".to_string(), 1));
}

#[test]
fn top_n_boundaries() {
    let mut db = fresh();
    db.insert_freqs(&batch(&[("cat", 5), ("dog", 1), ("fox", 3)], &[]));
    assert_eq!(frequencies(&mut db, Some(0)), vec![]);
    assert_eq!(frequencies(&mut db, Some(2)), counted(&[("dog", 1), ("fox", 3)]));
    assert_eq!(frequencies(&mut db, Some(3)), counted(&[("dog", 1), ("fox", 3), ("cat", 5)]));
    assert_eq!(frequencies(&mut db, Some(1000)), counted(&[("dog", 1), ("fox", 3), ("cat", 5)]));
    assert_eq!(frequencies(&mut db, Some(u32::MAX)), counted(&[("dog", 1), ("fox", 3), ("cat", 5)]));
    assert_eq!(frequencies(&mut db, None), counted(&[("dog", 1), ("fox", 3), ("cat", 5)]));
    assert_eq!(rankings(&mut db, Some(0)), vec![]);
    assert_eq!(rankings(&mut db, Some(7)), vec![]);
}

#[test]
fn insert_rankings_stores_scores_under_the_hash_of_the_words() {
    let mut db = fresh();
    db.insert_rankings(
        counted(&[("the", 10), ("cat", 2), ("sat", 3)]),
        strings(&["the cat sat."]),
    );
    assert_eq!(rankings(&mut db, None), counted(&[("the cat sat.", 3)]));
    let tables = db.tables();
    assert_eq!(tables.sentences.len(), 1);
    assert_eq!(tables.sentences[0].hash, Util::hash_words(&strings(&["the", "cat", "sat"])));
    assert_eq!(tables.rankings_index, vec![(3, sentence_hash("the cat sat."))]);
}

#[test]
fn same_words_with_other_punctuation_share_one_record() {
    let mut db = fresh();
    let freqs = [("the", 10), ("cat", 2), ("sat", 3)];
    db.insert_rankings(counted(&freqs), strings(&["the cat sat."]));
    db.insert_rankings(counted(&freqs), strings(&["the  cat, sat!"]));
    assert_eq!(rankings(&mut db, None), counted(&[("the  cat, sat!", 3)]));
    assert_eq!(db.tables().rankings_index.len(), 1);
}

#[test]
fn score_recompute_on_reinsert() {
    let mut db = fresh();
    db.train(&batch(&[("the", 10), ("cat", 2), ("sat", 3)], &["the cat sat"]));
    let first = rankings(&mut db, None);
    assert_eq!(first, counted(&[("the cat sat", 3)]));
    // Later training raises f(cat) to 20.
    db.train(&batch(&[("cat", 18)], &[]));
    assert_eq!(db.freqs_of_words(&strings(&["cat"])), counted(&[("cat", 20)]));
    // Retraining the identical sentence stores a score from the new counts.
    db.train(&batch(&[("the", 0), ("cat", 0), ("sat", 0)], &["the cat sat"]));
    let second = rankings(&mut db, None);
    assert_eq!(second, counted(&[("the cat sat", 6)]));
    assert_ne!(first, second);
    assert_eq!(db.tables().rankings_index, vec![(6, sentence_hash("the cat sat"))]);
}

#[test]
fn a_record_with_score_zero_leaves_no_stale_index_entry() {
    let mut db = fresh();
    db.insert_rankings(counted(&[("a", 1)]), strings(&["a b c"]));
    assert_eq!(rankings(&mut db, None), counted(&[("a b c", 0)]));
    assert_eq!(db.tables().rankings_index, vec![(0, sentence_hash("a b c"))]);
    db.insert_rankings(counted(&[("a", 30), ("b", 30), ("c", 30)]), strings(&["a b c"]));
    assert_eq!(rankings(&mut db, None), counted(&[("a b c", 17)]));
    assert_eq!(db.tables().rankings_index, vec![(17, sentence_hash("a b c"))]);
}

#[test]
fn short_sentence_exclusion() {
    let mut db = fresh();
    let data = RawData::from_file("Hello world.");
    assert_eq!(data.freqs, counted(&[("Hello", 1), ("world", 1)]));
    db.train(&data);
    assert_eq!(frequencies(&mut db, None).len(), 2);
    assert_eq!(rankings(&mut db, None), vec![]);
    assert!(db.tables().sentences.is_empty());
    assert!(db.tables().rankings_index.is_empty());
}

#[test]
fn train_scores_with_the_counts_of_the_store() {
    let mut db = fresh();
    db.train(&RawData::from_file("The cat sat. The cat ran off!"));
    // The 2, cat 2, sat 1, ran 1, off 1: averages 5 / 3 = 1 and 6 / 4 = 1,
    // scores 1 / sqrt(3) = 0.58 and 1 / sqrt(4) = 0.5, both rounded to 1.
    let (first, second) = if sentence_hash("The cat sat.") < sentence_hash("The cat ran off!") {
        ("The cat sat.", "The cat ran off!")
    } else {
        ("The cat ran off!", "The cat sat.")
    };
    assert_eq!(rankings(&mut db, None), counted(&[(first, 1), (second, 1)]));
    // A second text raises the counts; the first sentence comes again.
    db.train(&RawData::from_file("The cat sat. The The The The The The The."));
    // The 10, cat 3, sat 2: average 15 / 3 = 5, score 5 / sqrt(3) = 2.89.
    // The other new sentence: 8 words of count 10, 10 / sqrt(8) = 3.54.
    assert_eq!(
        rankings(&mut db, None),
        counted(&[
            ("The cat ran off!", 1),
            ("The cat sat.", 3),
            ("The The The The The The The.", 4)
        ])
    );
}

#[test]
fn freqs_of_words_answers_in_the_order_asked() {
    let mut db = fresh();
    db.insert_freqs(&batch(&[("cat", 5), ("dog", 1)], &[]));
    assert_eq!(
        db.freqs_of_words(&strings(&["dog", "cat", "dog"])),
        counted(&[("dog", 1), ("cat", 5), ("dog", 1)])
    );
    assert_eq!(db.freqs_of_words(&[]), vec![]);
    assert_eq!(db.first_unknown_word(&strings(&["dog", "cat", "dog"])), None);
    assert_eq!(db.first_unknown_word(&[]), None);
}

#[test]
fn first_unknown_word_finds_the_first_word_without_record() {
    let mut db = fresh();
    db.insert_freqs(&batch(&[("cat", 5)], &[]));
    assert_eq!(db.first_unknown_word(&strings(&["cat", "emu", "gnu"])), Some(1));
    assert_eq!(db.first_unknown_word(&strings(&["emu"])), Some(0));
    assert_eq!(db.first_unknown_word(&strings(&["cat", "cat"])), None);
}

#[test]
fn rebuild_correctness() {
    let mut trained = fresh();
    trained.train(&RawData::from_file("The cat sat. A dog ran off! The end came."));
    trained.train(&RawData::from_file("The cat sat down. The end."));
    let incremental = trained.tables();
    assert_eq!(incremental.freq_index.len(), incremental.frequencies.len());
    assert_eq!(incremental.rankings_index.len(), incremental.sentences.len());

    // The same records with both index tables gone.
    let stored = trained.tables();
    let mut damaged = SageDatabase::new(
        "English",
        StoredTables {
            frequencies: stored.frequencies,
            sentences: stored.sentences,
            freq_index: Vec::new(),
            rankings_index: Vec::new(),
            system: stored.system,
        },
    );
    assert!(!damaged.version_inconsistency());
    assert!(damaged.ensure_index_consistency(IndexKind::WordFrequency));
    assert!(damaged.ensure_index_consistency(IndexKind::SentenceRank));
    let rebuilt = damaged.tables();
    assert_eq!(rebuilt.freq_index, incremental.freq_index);
    assert_eq!(rebuilt.rankings_index, incremental.rankings_index);
    // A second check finds nothing to do.
    assert!(!damaged.ensure_index_consistency(IndexKind::WordFrequency));
    assert!(!damaged.ensure_index_consistency(IndexKind::SentenceRank));
}

#[test]
fn build_index_functions_replace_a_wrong_index() {
    let stored = StoredTables {
        frequencies: vec![Record { hash: Util::hash_word("cat"), text: "cat".to_string(), value: 4 }],
        sentences: vec![Record { hash: [7; 32], text: "a b c".to_string(), value: 2 }],
        freq_index: vec![(9, [1; 32])],
        rankings_index: vec![(1, [7; 32]), (2, [7; 32])],
        system: vec![1],
    };
    let mut db = SageDatabase::new("English", stored);
    db.build_freq_index();
    db.build_rankings_index();
    let tables = db.tables();
    assert_eq!(tables.freq_index, vec![(4, Util::hash_word("cat"))]);
    assert_eq!(tables.rankings_index, vec![(2, [7; 32])]);
}

#[test]
fn a_query_rebuilds_an_index_of_the_wrong_size() {
    let stored = StoredTables {
        frequencies: vec![
            Record { hash: [2; 32], text: "dog".to_string(), value: 1 },
            Record { hash: [1; 32], text: "cat".to_string(), value: 4 },
        ],
        sentences: Vec::new(),
        freq_index: vec![(4, [1; 32])],
        rankings_index: Vec::new(),
        system: vec![1],
    };
    let mut db = SageDatabase::new("English", stored);
    assert_eq!(frequencies(&mut db, None), counted(&[("dog", 1), ("cat", 4)]));
    assert_eq!(db.tables().freq_index, vec![(1, [2; 32]), (4, [1; 32])]);
}

#[test]
fn an_index_row_without_record_is_an_error() {
    // One record and one index row: the counts agree, so nothing is rebuilt.
    let stored = StoredTables {
        frequencies: vec![Record { hash: [1; 32], text: "cat".to_string(), value: 4 }],
        sentences: Vec::new(),
        freq_index: vec![(4, [9; 32])],
        rankings_index: Vec::new(),
        system: vec![1],
    };
    let mut db = SageDatabase::new("English", stored);
    assert_eq!(
        db.top_freqs(None).unwrap_err(),
        DatabaseError::MissingRecord { index: IndexKind::WordFrequency, hash: [9; 32] }
    );
    assert_eq!(db.top_freqs(Some(0)).unwrap().len(), 0);
}

#[test]
fn a_query_reports_the_sort_value_of_the_index_row() {
    let stored = StoredTables {
        frequencies: vec![Record { hash: [1; 32], text: "cat".to_string(), value: 4 }],
        sentences: Vec::new(),
        freq_index: vec![(6, [1; 32])],
        rankings_index: Vec::new(),
        system: vec![1],
    };
    let mut db = SageDatabase::new("English", stored);
    assert_eq!(frequencies(&mut db, None), counted(&[("cat", 6)]));
}

#[test]
fn loading_keeps_the_last_of_rows_with_one_digest() {
    let stored = StoredTables {
        frequencies: vec![
            Record { hash: [1; 32], text: "cat".to_string(), value: 4 },
            Record { hash: [1; 32], text: "cot".to_string(), value: 5 },
        ],
        sentences: Vec::new(),
        freq_index: vec![(5, [1; 32]), (5, [1; 32])],
        rankings_index: Vec::new(),
        system: vec![1],
    };
    let mut db = SageDatabase::new("English", stored);
    assert_eq!(frequencies(&mut db, None), counted(&[("cot", 5)]));
    assert_eq!(db.tables().freq_index, vec![(5, [1; 32])]);
}

#[test]
fn version_upgrade() {
    let mut trained = fresh();
    trained.train(&RawData::from_file("The cat sat. A dog ran off!"));
    let stored = trained.tables();
    let records = stored.frequencies.len();
    // The same store with the version record 0 and a stale index.
    let mut db = SageDatabase::new(
        "English",
        StoredTables {
            frequencies: stored.frequencies,
            sentences: stored.sentences,
            freq_index: stored.freq_index.iter().map(|(value, hash)| (value + 1, *hash)).collect(),
            rankings_index: stored.rankings_index,
            system: vec![0],
        },
    );
    assert_eq!(db.version(), 1);
    assert_eq!(db.tables().system, vec![1]);
    assert!(db.version_inconsistency());
    // The next query rebuilds the index it reads, once.
    assert_eq!(db.top_freqs(None).unwrap().len(), records);
    assert!(!db.version_inconsistency());
    assert_eq!(db.tables().freq_index, stored.freq_index);
    assert_eq!(db.tables().frequencies.len(), records);
    assert!(!db.ensure_index_consistency(IndexKind::WordFrequency));
    assert!(!db.ensure_index_consistency(IndexKind::SentenceRank));
}

#[test]
fn current_version_needs_no_upgrade() {
    let mut tables = empty_tables();
    tables.system = vec![1];
    let mut db = SageDatabase::new("Finnish", tables);
    assert_eq!(db.lang(), "Finnish");
    assert!(!db.version_inconsistency());
    assert!(!db.ensure_version_consistency());
    assert_eq!(db.tables().system, vec![1]);
}

#[test]
fn check_version_tells_what_a_version_table_says() {
    assert_eq!(SageDatabase::check_version(&vec![]), Ok(VersionState::NeedsUpgrade));
    assert_eq!(SageDatabase::check_version(&vec![0]), Ok(VersionState::NeedsUpgrade));
    assert_eq!(SageDatabase::check_version(&vec![1]), Ok(VersionState::Consistent));
}

#[test]
fn later_version_refuses_the_store() {
    assert_eq!(
        SageDatabase::check_version(&vec![2]),
        Err(DatabaseError::SchemaTooNew { stored: 2, current: 1 })
    );
    assert_eq!(
        SageDatabase::check_version(&vec![u32::MAX]),
        Err(DatabaseError::SchemaTooNew { stored: u32::MAX, current: 1 })
    );
}

#[test]
fn two_version_records_refuse_the_store() {
    assert_eq!(
        SageDatabase::check_version(&vec![0, 1]),
        Err(DatabaseError::DuplicateVersionRecords { rows: 2 })
    );
    assert_eq!(
        SageDatabase::check_version(&vec![1, 1, 1]),
        Err(DatabaseError::DuplicateVersionRecords { rows: 3 })
    );
}

#[test]
fn an_old_version_record_is_replaced_when_the_store_is_opened() {
    let mut tables = empty_tables();
    tables.system = vec![0];
    let mut db = SageDatabase::new("English", tables);
    assert_eq!(db.version(), 1);
    assert!(db.version_inconsistency());
    assert_eq!(db.tables().system, vec![1]);
    assert!(!db.ensure_version_consistency());
    assert_eq!(db.tables().system, vec![1]);
}

#[test]
fn tables_round_trip() {
    let mut db = fresh();
    db.train(&RawData::from_file("The cat sat. A dog ran off! The end came."));
    let first = db.tables();
    let mut again = SageDatabase::new("English", db.tables());
    assert!(!again.version_inconsistency());
    let second = again.tables();
    assert_eq!(first.freq_index, second.freq_index);
    assert_eq!(first.rankings_index, second.rankings_index);
    assert_eq!(first.system, second.system);
    assert_eq!(frequencies(&mut db, None), frequencies(&mut again, None));
    assert_eq!(rankings(&mut db, None), rankings(&mut again, None));
}

#[test]
fn presentation_order_shows_the_highest_first() {
    let mut db = fresh();
    db.insert_freqs(&batch(&[("cat", 5), ("dog", 1), ("fox", 3)], &[]));
    let shown: Vec<(String, u64)> = presentation_order(db.top_freqs(None).unwrap())
        .into_iter()
        .map(|doc| (doc.word, doc.freq))
        .collect();
    assert_eq!(shown, counted(&[("cat", 5), ("fox", 3), ("dog", 1)]));
    assert_eq!(presentation_order(Vec::<u8>::new()), Vec::<u8>::new());
}

#[test]
fn a_revisited_sentence_is_scored_from_the_frequencies_handed_in() {
    let mut db = fresh();
    db.insert_rankings(counted(&[("the", 10), ("cat", 2), ("sat", 3)]), strings(&["the cat sat"]));
    let h = sentence_hash("the cat sat");
    assert_eq!(rankings(&mut db, None), counted(&[("the cat sat", 3)]));
    assert_eq!(db.tables().rankings_index, vec![(3, h)]);
    // The word table is empty all along; the frequencies of the call decide.
    db.insert_rankings(counted(&[("the", 10), ("cat", 20), ("sat", 3)]), strings(&["the cat sat"]));
    assert_eq!(rankings(&mut db, None), counted(&[("the cat sat", 6)]));
    let tables = db.tables();
    assert_eq!(tables.rankings_index, vec![(6, h)]);
    assert_eq!(tables.sentences.len(), 1);
    assert_eq!(tables.sentences[0].hash, h);
    assert_eq!(tables.sentences[0].value, 6);
}

#[test]
fn a_revisited_sentence_does_not_take_its_score_from_the_word_table() {
    let mut db = fresh();
    db.insert_freqs(&batch(&[("the", 10), ("cat", 20), ("sat", 3)], &[]));
    let given = [("the", 1), ("cat", 1), ("sat", 1)];
    db.insert_rankings(counted(&given), strings(&["the cat sat"]));
    assert_eq!(rankings(&mut db, None), counted(&[("the cat sat", 1)]));
    db.insert_rankings(counted(&given), strings(&["the cat sat", "sat cat the"]));
    let (first, second) = if sentence_hash("the cat sat") < sentence_hash("sat cat the") {
        ("the cat sat", "sat cat the")
    } else {
        ("sat cat the", "the cat sat")
    };
    assert_eq!(rankings(&mut db, None), counted(&[(first, 1), (second, 1)]));
}

#[test]
fn a_five_word_sentence_stored_again_moves_its_index_row() {
    let mut db = fresh();
    let words = ["a", "b", "c", "d", "e"];
    let ones: Vec<(String, u64)> = words.iter().map(|w| (w.to_string(), 1)).collect();
    let tens: Vec<(String, u64)> = words.iter().map(|w| (w.to_string(), 10)).collect();
    let h = sentence_hash("a b c d e");
    db.insert_rankings(ones, strings(&["a b c d e"]));
    assert_eq!(db.tables().rankings_index, vec![(0, h)]);
    // 10 / sqrt(5) = 4.47
    db.insert_rankings(tens, strings(&["a b c d e"]));
    assert_eq!(rankings(&mut db, None), counted(&[("a b c d e", 4)]));
    assert_eq!(db.tables().rankings_index, vec![(4, h)]);
}

#[test]
fn query_rows_come_in_ascending_key_order_and_a_limit_only_cuts() {
    let mut db = fresh();
    db.train(&RawData::from_file(
        "The cat sat on the mat. A dog ran off with the cat! The end of the cat came; so it goes.",
    ));
    let all = db.top_freqs(None).unwrap();
    let keys: Vec<(u64, [u8; 32])> = all.iter().map(|doc| (doc.freq, doc.hash())).collect();
    for pair in keys.windows(2) {
        assert!(pair[0] < pair[1]);
    }
    assert_eq!(keys, db.tables().freq_index);
    for k in 0..(all.len() as u32 + 3) {
        let cut = frequencies(&mut db, Some(k));
        let expected: Vec<(String, u64)> =
            all.iter().take(k as usize).map(|doc| (doc.word.clone(), doc.freq)).collect();
        assert_eq!(cut, expected);
    }
    let ranked = db.top_rankings(None).unwrap();
    let scores: Vec<(u64, [u8; 32])> =
        ranked.iter().map(|doc| (doc.rating, sentence_hash(&doc.raw))).collect();
    for pair in scores.windows(2) {
        assert!(pair[0] < pair[1]);
    }
    assert_eq!(scores, db.tables().rankings_index);
}
