use freq_sage::analysis::{Rank, RawData, SentenceRanker};
use freq_sage::constants::{GENERIC_SENTENCE_GARBAGE_PATTERNS, GENERIC_WORD_GARBAGE_PATTERNS};
use freq_sage::scoring::penalized_average;
use freq_sage::util::Util;

fn strings(list: &[&str]) -> Vec<String> {
    list.iter().map(|w| w.to_string()).collect()
}

fn counted(list: &[(&str, u64)]) -> Vec<(String, u64)> {
    list.iter().map(|(w, c)| (w.to_string(), *c)).collect()
}

#[test]
fn clean_token_strips_trailing_punctuation() {
    assert_eq!(Util::clean_token("hello,", &GENERIC_WORD_GARBAGE_PATTERNS), "hello");
    assert_eq!(Util::clean_token("hello", &GENERIC_WORD_GARBAGE_PATTERNS), "hello");
}

#[test]
fn clean_token_last_matching_pattern_decides() {
    // Both the leading and the trailing pattern match; each works on the
    // token as it came in, and the trailing one is the last.
    assert_eq!(Util::clean_token("(hello)", &GENERIC_WORD_GARBAGE_PATTERNS), "(hello");
}

#[test]
fn clean_token_without_patterns_returns_the_token() {
    assert_eq!(Util::clean_token(" x ", &[]), " x ");
}

#[test]
fn clean_token_ignores_invalid_pattern() {
    assert_eq!(Util::clean_token("abc", &["("]), "abc");
}

#[test]
fn clean_token_can_empty_a_token() {
    assert_eq!(Util::clean_token("...", &GENERIC_WORD_GARBAGE_PATTERNS), "");
}

#[test]
fn words_of_splits_cleans_and_drops_empty() {
    assert_eq!(Util::words_of("The cat, sat   -- down."), strings(&["The", "cat", "sat", "down"]));
    assert_eq!(Util::words_of("   "), Vec::<String>::new());
}

#[test]
fn sentences_from_file_cuts_behind_sentence_ends() {
    let text = "The cat sat. Did it?\nYes; it did!\r\nAnd the rest";
    assert_eq!(
        Util::sentences_from_file(text),
        strings(&["The cat sat.", "Did it?", "Yes;", "it did!", "And the rest"])
    );
}

#[test]
fn sentences_from_file_drops_pieces_without_letters() {
    assert_eq!(Util::sentences_from_file("123. 4 5 6! Go."), strings(&["Go."]));
    assert_eq!(Util::sentences_from_file(""), Vec::<String>::new());
}

#[test]
fn sentence_patterns_apply_to_the_piece_as_it_came_in() {
    assert_eq!(
        Util::clean_token("A fact[12] here.", &GENERIC_SENTENCE_GARBAGE_PATTERNS),
        "A fact here."
    );
}

#[test]
fn collect_freqs_counts_occurrences_in_first_seen_order() {
    let sentences = strings(&["the cat sat", "the dog sat.", "The end"]);
    assert_eq!(
        RawData::collect_freqs(&sentences),
        counted(&[("the", 2), ("cat", 1), ("sat", 2), ("dog", 1), ("The", 1), ("end", 1)])
    );
}

#[test]
fn from_file_gives_sentences_and_counts() {
    let data = RawData::from_file("The cat sat. The cat ran!");
    assert_eq!(data.sentences, strings(&["The cat sat.", "The cat ran!"]));
    assert_eq!(data.freqs, counted(&[("The", 2), ("cat", 2), ("sat", 1), ("ran", 1)]));
    assert_eq!(data.data_sizes(), (4, 2));
}

#[test]
fn penalized_average_rounds_avg_over_root_of_length() {
    // 5 / sqrt(3) = 2.886..
    assert_eq!(penalized_average(5, 3), 3);
    // 11 / sqrt(3) = 6.350..
    assert_eq!(penalized_average(11, 3), 6);
    // 10 / sqrt(4) = 5
    assert_eq!(penalized_average(10, 4), 5);
    // 7 / sqrt(4) = 3.5 rounds up
    assert_eq!(penalized_average(7, 4), 4);
    // 1 / sqrt(5) = 0.447..
    assert_eq!(penalized_average(1, 5), 0);
    assert_eq!(penalized_average(0, 3), 0);
    assert_eq!(penalized_average(9, 1), 9);
}

#[test]
fn penalized_average_is_exact_for_the_largest_average() {
    assert_eq!(penalized_average(u64::MAX, 1), u64::MAX);
    // (2^64 - 1) / 2 = 9223372036854775807.5 rounds up
    assert_eq!(penalized_average(u64::MAX, 4), 9223372036854775808);
    // (2^64 - 1) / sqrt(3) = 10650232656628343400.47..
    assert_eq!(penalized_average(u64::MAX, 3), 10650232656628343400);
}

#[test]
fn frequency_takes_the_first_entry_and_zero_when_absent() {
    let freqs = counted(&[("cat", 2), ("cat", 9), ("sat", 3)]);
    assert_eq!(SentenceRanker::frequency(&freqs, &"cat".to_string()), 2);
    assert_eq!(SentenceRanker::frequency(&freqs, &"dog".to_string()), 0);
}

#[test]
fn score_averages_then_penalizes() {
    let freqs = counted(&[("the", 10), ("cat", 2), ("sat", 3)]);
    // (10 + 2 + 3) / 3 = 5, 5 / sqrt(3) rounds to 3
    assert_eq!(SentenceRanker::score(&freqs, &strings(&["the", "cat", "sat"])), 3);
    // whole division: (10 + 2 + 3 + 0) / 4 = 3, 3 / 2 = 1.5 rounds to 2
    assert_eq!(SentenceRanker::score(&freqs, &strings(&["the", "cat", "sat", "up"])), 2);
}

#[test]
fn score_does_not_overflow() {
    let freqs = counted(&[("a", u64::MAX)]);
    assert_eq!(SentenceRanker::score(&freqs, &strings(&["a", "a", "a", "a"])), 9223372036854775808);
}

#[test]
fn rank_leaves_out_short_sentences() {
    let data = RawData {
        freqs: counted(&[("the", 10), ("cat", 2), ("sat", 3)]),
        sentences: strings(&["the cat", "the cat sat"]),
    };
    assert_eq!(SentenceRanker::rank(&data), vec![Rank::new("the cat sat".to_string(), 3)]);
}

#[test]
fn rank_keeps_the_first_of_repeated_word_sequences() {
    let data = RawData {
        freqs: counted(&[("the", 10), ("cat", 2), ("sat", 3)]),
        sentences: strings(&["the cat sat.", "the cat sat!", "the,  cat sat"]),
    };
    assert_eq!(SentenceRanker::rank(&data), vec![Rank::new("the cat sat.".to_string(), 3)]);
}

#[test]
fn rank_sorts_ascending_and_keeps_order_of_ties() {
    let data = RawData {
        freqs: counted(&[("a", 30), ("b", 30), ("c", 30), ("x", 3), ("y", 3), ("z", 3)]),
        sentences: strings(&["a b c", "x y z", "c b a", "z y x"]),
    };
    let ranker = SentenceRanker::new(data);
    assert_eq!(
        ranker.rankings(),
        &vec![
            Rank::new("x y z".to_string(), 2),
            Rank::new("z y x".to_string(), 2),
            Rank::new("a b c".to_string(), 17),
            Rank::new("c b a".to_string(), 17),
        ]
    );
}

#[test]
fn sort_by_score_is_stable() {
    let ranks = vec![
        Rank::new("c".to_string(), 5),
        Rank::new("a".to_string(), 1),
        Rank::new("d".to_string(), 5),
        Rank::new("b".to_string(), 1),
        Rank::new("e".to_string(), 0),
    ];
    assert_eq!(
        SentenceRanker::sort_by_score(ranks),
        vec![
            Rank::new("e".to_string(), 0),
            Rank::new("a".to_string(), 1),
            Rank::new("b".to_string(), 1),
            Rank::new("c".to_string(), 5),
            Rank::new("d".to_string(), 5),
        ]
    );
}

#[test]
fn lone_carriage_return_stays_and_line_breaks_become_spaces() {
    assert_eq!(
        Util::sentences_from_file("One\r\ntwo\nthree\rfour."),
        strings(&["One two three\rfour."])
    );
}

#[test]
fn words_of_keeps_letters_of_any_script() {
    assert_eq!(
        Util::words_of("«Älä lyö ääliötä», sanoi 猫 — 3 kertaa!"),
        strings(&["Älä", "lyö", "ääliötä", "sanoi", "猫", "3", "kertaa"])
    );
}

#[test]
fn a_sentence_end_alone_is_no_sentence() {
    assert_eq!(Util::sentences_from_file("...!?;"), Vec::<String>::new());
    assert_eq!(Util::sentences_from_file("a."), strings(&["a."]));
    assert_eq!(Util::sentences_from_file(".a"), strings(&["a"]));
}

#[test]
fn counts_run_over_all_sentences() {
    let data = RawData::from_file("to be, or not to be; that is the question. To be!");
    assert_eq!(
        data.sentences,
        strings(&["to be, or not to be;", "that is the question.", "To be!"])
    );
    assert_eq!(
        data.freqs,
        counted(&[
            ("to", 2),
            ("be", 3),
            ("or", 1),
            ("not", 1),
            ("that", 1),
            ("is", 1),
            ("the", 1),
            ("question", 1),
            ("To", 1)
        ])
    );
    let ranks = SentenceRanker::rank(&data);
    // "to be or not to be": (2+3+1+1+2+3) / 6 = 2, 2 / sqrt(6) = 0.82
    // "that is the question": 4 / 4 = 1, 1 / 2 = 0.5 rounds up
    assert_eq!(
        ranks,
        vec![
            Rank::new("to be, or not to be;".to_string(), 1),
            Rank::new("that is the question.".to_string(), 1)
        ]
    );
}
