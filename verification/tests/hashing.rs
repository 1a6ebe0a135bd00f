use freq_sage::database::FrequencyDoc;
use freq_sage::util::Util;

fn words(list: &[&str]) -> Vec<String> {
    list.iter().map(|w| w.to_string()).collect()
}

#[test]
fn hash_word_is_deterministic() {
    assert_eq!(Util::hash_word("cat"), Util::hash_word("cat"));
    assert_ne!(Util::hash_word("cat"), Util::hash_word("cats"));
}

#[test]
fn hash_word_feeds_version_length_and_bytes() {
    // Layout version 1, the length 3 in four little-endian bytes, the bytes.
    let expected = blake3::hash(&[1, 3, 0, 0, 0, b'c', b'a', b't']);
    assert_eq!(Util::hash_word("cat"), *expected.as_bytes());
}

#[test]
fn hash_word_counts_bytes_not_characters() {
    let expected = blake3::hash(&[1, 2, 0, 0, 0, 0xc3, 0xa4]);
    assert_eq!(Util::hash_word("ä"), *expected.as_bytes());
}

#[test]
fn hash_words_feeds_version_records_and_count() {
    let expected = blake3::hash(&[1, 2, 0, 0, 0, b'a', b'b', 1, 0, 0, 0, b'c', 2, 0, 0, 0]);
    assert_eq!(Util::hash_words(&words(&["ab", "c"])), *expected.as_bytes());
}

#[test]
fn hash_words_of_nothing_is_version_and_zero_count() {
    let expected = blake3::hash(&[1, 0, 0, 0, 0]);
    assert_eq!(Util::hash_words(&[]), *expected.as_bytes());
}

#[test]
fn hash_words_respects_word_boundaries() {
    assert_ne!(
        Util::hash_words(&words(&["ab", "c"])),
        Util::hash_words(&words(&["a", "bc"]))
    );
}

#[test]
fn hash_words_is_deterministic_and_ordered() {
    assert_eq!(
        Util::hash_words(&words(&["the", "cat", "sat"])),
        Util::hash_words(&words(&["the", "cat", "sat"]))
    );
    assert_ne!(
        Util::hash_words(&words(&["the", "cat", "sat"])),
        Util::hash_words(&words(&["cat", "the", "sat"]))
    );
}

#[test]
fn single_word_and_one_word_sequence_differ() {
    assert_ne!(Util::hash_word("cat"), Util::hash_words(&words(&["cat"])));
}

#[test]
fn frequency_doc_hash_is_the_hash_of_its_word() {
    let doc = FrequencyDoc::new("cat".to_string(), 7);
    assert_eq!(doc.hash(), Util::hash_word("cat"));
    let other = FrequencyDoc::new("cat".to_string(), 99);
    assert_eq!(doc.hash(), other.hash());
}
