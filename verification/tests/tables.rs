use freq_sage::cli::{Commands, ShowType};
use freq_sage::index::IndexTable;
use freq_sage::order::{digest_relation, key_relation, Relation};
use freq_sage::records::{Record, RecordTable};
use freq_sage::store::IndexedTable;

fn digest(first: u8, last: u8) -> [u8; 32] {
    let mut bytes = [0u8; 32];
    bytes[0] = first;
    bytes[31] = last;
    bytes
}

fn record(hash: [u8; 32], text: &str, value: u64) -> Record {
    Record { hash, text: text.to_string(), value }
}

fn rows(records: &[Record]) -> Vec<([u8; 32], String, u64)> {
    records.iter().map(|r| (r.hash, r.text.clone(), r.value)).collect()
}

#[test]
fn digests_are_ordered_from_the_first_byte() {
    assert_eq!(digest_relation(&digest(0, 9), &digest(1, 0)), Relation::Before);
    assert_eq!(digest_relation(&digest(1, 0), &digest(0, 9)), Relation::After);
    assert_eq!(digest_relation(&digest(3, 4), &digest(3, 5)), Relation::Before);
    assert_eq!(digest_relation(&digest(3, 5), &digest(3, 5)), Relation::Same);
    assert_eq!(digest_relation(&[255; 32], &[0; 32]), Relation::After);
}

#[test]
fn digest_order_is_the_order_of_byte_arrays() {
    let samples = [digest(0, 0), digest(0, 1), digest(0, 255), digest(1, 0), digest(200, 7), [255; 32]];
    for a in samples.iter() {
        for b in samples.iter() {
            let expected = if a < b {
                Relation::Before
            } else if a == b {
                Relation::Same
            } else {
                Relation::After
            };
            assert_eq!(digest_relation(a, b), expected);
        }
    }
}

#[test]
fn keys_are_ordered_by_value_then_digest() {
    assert_eq!(key_relation(&(1, [9; 32]), &(2, [0; 32])), Relation::Before);
    assert_eq!(key_relation(&(2, [0; 32]), &(1, [9; 32])), Relation::After);
    assert_eq!(key_relation(&(2, [0; 32]), &(2, [9; 32])), Relation::Before);
    assert_eq!(key_relation(&(2, [9; 32]), &(2, [9; 32])), Relation::Same);
    assert_eq!(key_relation(&(u64::MAX, [0; 32]), &(0, [255; 32])), Relation::After);
}

#[test]
fn index_table_keeps_keys_in_order_without_repeats() {
    let mut table = IndexTable::new();
    assert_eq!(table.len(), 0);
    assert!(table.insert((5, digest(1, 0))));
    assert!(table.insert((2, digest(9, 0))));
    assert!(table.insert((5, digest(0, 3))));
    assert!(table.insert((9, digest(0, 0))));
    assert!(!table.insert((2, digest(9, 0))));
    assert_eq!(table.len(), 4);
    assert_eq!(
        table.export(),
        vec![(2, digest(9, 0)), (5, digest(0, 3)), (5, digest(1, 0)), (9, digest(0, 0))]
    );
}

#[test]
fn index_table_remove_takes_out_one_key() {
    let mut table = IndexTable::load(&vec![(3, [1; 32]), (1, [2; 32]), (2, [3; 32]), (1, [2; 32])]);
    assert_eq!(table.len(), 3);
    assert!(!table.remove(&(1, [3; 32])));
    assert!(!table.remove(&(7, [2; 32])));
    assert_eq!(table.len(), 3);
    assert!(table.remove(&(2, [3; 32])));
    assert_eq!(table.export(), vec![(1, [2; 32]), (3, [1; 32])]);
    assert!(table.remove(&(1, [2; 32])));
    assert!(table.remove(&(3, [1; 32])));
    assert!(!table.remove(&(3, [1; 32])));
    assert_eq!(table.export(), vec![]);
}

#[test]
fn index_table_top_n_reads_the_lowest_first() {
    let table = IndexTable::load(&vec![(30, [0; 32]), (10, [1; 32]), (20, [2; 32])]);
    assert_eq!(table.top_n(Some(0)), vec![]);
    assert_eq!(table.top_n(Some(1)), vec![(10, [1; 32])]);
    assert_eq!(table.top_n(Some(2)), vec![(10, [1; 32]), (20, [2; 32])]);
    assert_eq!(table.top_n(Some(3)), vec![(10, [1; 32]), (20, [2; 32]), (30, [0; 32])]);
    assert_eq!(table.top_n(Some(4)), vec![(10, [1; 32]), (20, [2; 32]), (30, [0; 32])]);
    assert_eq!(table.top_n(None), vec![(10, [1; 32]), (20, [2; 32]), (30, [0; 32])]);
    assert_eq!(IndexTable::new().top_n(Some(5)), vec![]);
    assert_eq!(IndexTable::new().top_n(None), vec![]);
}

#[test]
fn record_table_upsert_replaces_and_reports_the_old_value() {
    let mut table = RecordTable::new();
    assert_eq!(table.len(), 0);
    assert_eq!(table.upsert(digest(5, 0), "five".to_string(), 50), None);
    assert_eq!(table.upsert(digest(1, 0), "one".to_string(), 10), None);
    assert_eq!(table.upsert(digest(9, 0), "nine".to_string(), 0), None);
    assert_eq!(table.upsert(digest(5, 0), "cinq".to_string(), 51), Some(50));
    assert_eq!(table.upsert(digest(9, 0), "neuf".to_string(), 90), Some(0));
    assert_eq!(table.len(), 3);
    let found = table.get(&digest(5, 0)).unwrap();
    assert_eq!((found.hash, found.text.as_str(), found.value), (digest(5, 0), "cinq", 51));
    assert!(table.get(&digest(5, 1)).is_none());
    assert_eq!(
        rows(&table.export()),
        vec![
            (digest(1, 0), "one".to_string(), 10),
            (digest(5, 0), "cinq".to_string(), 51),
            (digest(9, 0), "neuf".to_string(), 90)
        ]
    );
    assert_eq!(table.row(0).text, "one");
}

#[test]
fn record_table_load_and_export_round_trip() {
    let stored = vec![record([3; 32], "c", 3), record([1; 32], "a", 1), record([2; 32], "b", 2)];
    let table = RecordTable::load(&stored);
    let exported = table.export();
    assert_eq!(
        rows(&exported),
        vec![([1; 32], "a".to_string(), 1), ([2; 32], "b".to_string(), 2), ([3; 32], "c".to_string(), 3)]
    );
    assert_eq!(rows(&RecordTable::load(&exported).export()), rows(&exported));
}

#[test]
fn indexed_table_moves_the_index_entry_with_the_record() {
    let mut table = IndexedTable::new();
    table.upsert([1; 32], "cat".to_string(), 4);
    table.upsert([2; 32], "dog".to_string(), 1);
    assert_eq!(table.export_index(), vec![(1, [2; 32]), (4, [1; 32])]);
    table.upsert([2; 32], "dog".to_string(), 9);
    assert_eq!(table.export_index(), vec![(4, [1; 32]), (9, [2; 32])]);
    assert_eq!(table.get(&[2; 32]).unwrap().value, 9);
    assert_eq!(table.top_n(Some(1)), vec![(4, [1; 32])]);
    assert_eq!(table.export_records().len(), 2);
}

#[test]
fn indexed_table_rebuilds_only_when_told_or_when_counts_differ() {
    let records = vec![record([1; 32], "cat", 4), record([2; 32], "dog", 1)];
    // Right size, wrong content: the check does not see it.
    let mut same_size = IndexedTable::load(&records, &vec![(7, [1; 32]), (8, [2; 32])]);
    assert!(!same_size.ensure_consistent(false));
    assert_eq!(same_size.export_index(), vec![(7, [1; 32]), (8, [2; 32])]);
    // Told of an upgrade, it rebuilds.
    assert!(same_size.ensure_consistent(true));
    assert_eq!(same_size.export_index(), vec![(1, [2; 32]), (4, [1; 32])]);
    // Wrong size: it rebuilds.
    let mut too_long = IndexedTable::load(&records, &vec![(1, [2; 32]), (4, [1; 32]), (5, [1; 32])]);
    assert!(too_long.ensure_consistent(false));
    assert_eq!(too_long.export_index(), vec![(1, [2; 32]), (4, [1; 32])]);
    let mut empty = IndexedTable::load(&records, &Vec::new());
    empty.rebuild_index();
    assert_eq!(empty.export_index(), vec![(1, [2; 32]), (4, [1; 32])]);
}

#[test]
fn query_limit_follows_the_command_line() {
    let show = |limit, no_limit| Commands::Show { what: ShowType::Frequencies, limit, no_limit };
    assert_eq!(show(None, false).query_limit(), Some(50));
    assert_eq!(show(Some(7), false).query_limit(), Some(7));
    assert_eq!(show(Some(0), false).query_limit(), Some(0));
    assert_eq!(show(None, true).query_limit(), None);
    assert_eq!(show(Some(7), true).query_limit(), None);
    let train = Commands::Train { file: std::path::PathBuf::from("text.txt") };
    assert_eq!(train.query_limit(), None);
}

#[test]
fn update_entry_replaces_the_old_key() {
    let mut table = IndexTable::new();
    table.update_entry(None, 4, [1; 32]);
    table.update_entry(None, 2, [2; 32]);
    assert_eq!(table.export(), vec![(2, [2; 32]), (4, [1; 32])]);
    table.update_entry(Some(4), 1, [1; 32]);
    assert_eq!(table.export(), vec![(1, [1; 32]), (2, [2; 32])]);
    // An old key that is not there is passed over.
    table.update_entry(Some(9), 3, [2; 32]);
    assert_eq!(table.export(), vec![(1, [1; 32]), (2, [2; 32]), (3, [2; 32])]);
    table.update_entry(Some(3), 3, [2; 32]);
    assert_eq!(table.export(), vec![(1, [1; 32]), (2, [2; 32]), (3, [2; 32])]);
}
