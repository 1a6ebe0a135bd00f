//! Word counting and sentence ranking.

use vstd::prelude::*;
use crate::constants::WORDS_IN_SENTENCE_DISCARD_THRESHOLD;
use crate::scoring::{penalized_average, rounded_ratio};
use crate::util::{Util, sentence_words, text_sentences, texts};

verus! {

/// A word with its count.
pub type Count = (Seq<char>, u64);

/// A sentence with its score.
pub type Scored = (Seq<char>, u64);

/// The views of a list of counted words.
pub open spec fn counts(freqs: Seq<(String, u64)>) -> Seq<Count> {
    freqs.map_values(|pair: (String, u64)| (pair.0@, pair.1))
}

/// The views of a list of ranks.
pub open spec fn scored(ranks: Seq<Rank>) -> Seq<Scored> {
    ranks.map_values(|rank: Rank| (rank.sentence@, rank.score))
}

/// One more than `count`, unless `count` is the largest number there is.
pub open spec fn saturating_successor(count: u64) -> u64 {
    if count == u64::MAX {
        count
    } else {
        (count + 1) as u64
    }
}

/// The count that a list gives for `word`: that of the first entry for the
/// word, or zero when there is none.
pub open spec fn frequency_of(counts: Seq<Count>, word: Seq<char>) -> u64
    decreases counts.len(),
{
    if counts.len() == 0 {
        0
    } else if counts.first().0 == word {
        counts.first().1
    } else {
        frequency_of(counts.drop_first(), word)
    }
}

/// The list after one more occurrence of `word`: the first entry for the
/// word counts one more, or a new entry with count one is added at the end.
pub open spec fn tally(counts: Seq<Count>, word: Seq<char>) -> Seq<Count>
    decreases counts.len(),
{
    if counts.len() == 0 {
        seq![(word, 1u64)]
    } else if counts.first().0 == word {
        seq![(word, saturating_successor(counts.first().1))] + counts.drop_first()
    } else {
        seq![counts.first()] + tally(counts.drop_first(), word)
    }
}

/// The list after one occurrence of each of `words`, in order.
pub open spec fn tally_all(counts: Seq<Count>, words: Seq<Seq<char>>) -> Seq<Count>
    decreases words.len(),
{
    if words.len() == 0 {
        counts
    } else {
        tally(tally_all(counts, words.drop_last()), words.last())
    }
}

/// The occurrence counts of the cleaned words of `sentences`, each word
/// listed once, in the order of first occurrence.
pub open spec fn collected(sentences: Seq<Seq<char>>) -> Seq<Count>
    decreases sentences.len(),
{
    if sentences.len() == 0 {
        Seq::empty()
    } else {
        tally_all(collected(sentences.drop_last()), sentence_words(sentences.last()))
    }
}

/// The sum of the frequencies of `words`, each occurrence counted.
pub open spec fn total_frequency(counts: Seq<Count>, words: Seq<Seq<char>>) -> nat
    decreases words.len(),
{
    if words.len() == 0 {
        0
    } else {
        total_frequency(counts, words.drop_last()) + frequency_of(counts, words.last()) as nat
    }
}

/// The easiness of a sentence with the cleaned words `words`: the average
/// frequency of its words (whole division), divided by the square root of
/// the number of words, rounded. Higher is easier.
pub open spec fn easiness(counts: Seq<Count>, words: Seq<Seq<char>>) -> nat {
    rounded_ratio(total_frequency(counts, words) / words.len(), words.len())
}

/// Some sentence of `earlier` has exactly the cleaned words `words`.
pub open spec fn seen_before(earlier: Seq<Seq<char>>, words: Seq<Seq<char>>) -> bool {
    exists|j: int| 0 <= j < earlier.len() && #[trigger] sentence_words(earlier[j]) == words
}

/// The sentences that are ranked, in the order of the input, each with its
/// easiness. A sentence with fewer cleaned words than the threshold is left
/// out, and so is one whose cleaned words repeat those of an earlier
/// sentence.
pub open spec fn ranked(counts: Seq<Count>, sentences: Seq<Seq<char>>) -> Seq<Scored>
    decreases sentences.len(),
{
    if sentences.len() == 0 {
        Seq::empty()
    } else {
        let earlier = ranked(counts, sentences.drop_last());
        let words = sentence_words(sentences.last());
        if words.len() < WORDS_IN_SENTENCE_DISCARD_THRESHOLD || seen_before(
            sentences.drop_last(),
            words,
        ) {
            earlier
        } else {
            earlier.push((sentences.last(), easiness(counts, words) as u64))
        }
    }
}

/// A sentence with fewer cleaned words than the threshold adds nothing to
/// the ranking, while each of its words is counted.
pub proof fn lemma_short_sentence(counts: Seq<Count>, earlier: Seq<Seq<char>>, sentence: Seq<char>)
    requires
        sentence_words(sentence).len() < WORDS_IN_SENTENCE_DISCARD_THRESHOLD,
    ensures
        ranked(counts, earlier.push(sentence)) == ranked(counts, earlier),
        collected(earlier.push(sentence)) == tally_all(collected(earlier), sentence_words(sentence)),
{
    assert(earlier.push(sentence).drop_last() == earlier);
}

/// The cleaned words of the sentences that are ranked, in the same order.
pub open spec fn ranked_words(sentences: Seq<Seq<char>>) -> Seq<Seq<Seq<char>>>
    decreases sentences.len(),
{
    if sentences.len() == 0 {
        Seq::empty()
    } else {
        let earlier = ranked_words(sentences.drop_last());
        let words = sentence_words(sentences.last());
        if words.len() < WORDS_IN_SENTENCE_DISCARD_THRESHOLD || seen_before(
            sentences.drop_last(),
            words,
        ) {
            earlier
        } else {
            earlier.push(words)
        }
    }
}

/// Words in sufficient number were seen before exactly when a ranked
/// sentence has them.
pub proof fn lemma_ranked_words(sentences: Seq<Seq<char>>, words: Seq<Seq<char>>)
    requires
        words.len() >= WORDS_IN_SENTENCE_DISCARD_THRESHOLD,
    ensures
        seen_before(sentences, words) <==> ranked_words(sentences).contains(words),
    decreases sentences.len(),
{
    if sentences.len() > 0 {
        let earlier = sentences.drop_last();
        let last = sentence_words(sentences.last());
        lemma_ranked_words(earlier, words);
        if seen_before(sentences, words) {
            let j = choose|j: int|
                0 <= j < sentences.len() && #[trigger] sentence_words(sentences[j]) == words;
            if j < earlier.len() {
                assert(sentence_words(earlier[j]) == words);
            }
        }
        if seen_before(earlier, words) {
            let j = choose|j: int|
                0 <= j < earlier.len() && #[trigger] sentence_words(earlier[j]) == words;
            assert(sentence_words(sentences[j]) == words);
        }
        if last == words {
            assert(sentence_words(sentences[sentences.len() - 1]) == words);
        }
        assert(seen_before(sentences, words) <==> seen_before(earlier, words) || last == words);
        let kept = ranked_words(earlier);
        if !(last.len() < WORDS_IN_SENTENCE_DISCARD_THRESHOLD || seen_before(earlier, last)) {
            let after = kept.push(last);
            assert(after.last() == last);
            if kept.contains(words) {
                let k = choose|k: int| 0 <= k < kept.len() && kept[k] == words;
                assert(after[k] == words);
            }
            if after.contains(words) {
                let k = choose|k: int| 0 <= k < after.len() && after[k] == words;
                if k < kept.len() {
                    assert(kept[k] == words);
                }
            }
        }
    }
}

/// The views of a list of word lists.
pub open spec fn word_lists(lists: Seq<Vec<String>>) -> Seq<Seq<Seq<char>>> {
    lists.map_values(|list: Vec<String>| texts(list@))
}

/// `sorted` with `entry` put behind the last entry whose score is not higher.
pub open spec fn placed(sorted: Seq<Scored>, entry: Scored) -> Seq<Scored>
    decreases sorted.len(),
{
    if sorted.len() == 0 {
        seq![entry]
    } else if sorted.last().1 <= entry.1 {
        sorted.push(entry)
    } else {
        placed(sorted.drop_last(), entry).push(sorted.last())
    }
}

/// The entries in ascending order of score; entries of equal score keep the
/// order that they had.
pub open spec fn sorted_by_score(entries: Seq<Scored>) -> Seq<Scored>
    decreases entries.len(),
{
    if entries.len() == 0 {
        Seq::empty()
    } else {
        placed(sorted_by_score(entries.drop_last()), entries.last())
    }
}

/// No entry has a higher score than a later one.
pub open spec fn ascending_scores(entries: Seq<Scored>) -> bool {
    forall|i: int, j: int| 0 <= i < j < entries.len() ==> (#[trigger] entries[i]).1 <= (
    #[trigger] entries[j]).1
}

/// Placing an entry keeps the order and adds exactly that entry.
pub proof fn lemma_placed(sorted: Seq<Scored>, entry: Scored)
    requires
        ascending_scores(sorted),
    ensures
        ascending_scores(placed(sorted, entry)),
        placed(sorted, entry).to_multiset() == sorted.to_multiset().insert(entry),
        placed(sorted, entry).len() == sorted.len() + 1,
    decreases sorted.len(),
{
    broadcast use vstd::seq_lib::group_to_multiset_ensures;

    if sorted.len() == 0 {
        assert(seq![entry] == Seq::<Scored>::empty().push(entry));
    } else if sorted.last().1 <= entry.1 {
        let after = sorted.push(entry);
        assert forall|i: int, j: int| 0 <= i < j < after.len() implies (#[trigger] after[i]).1 <= (
        #[trigger] after[j]).1 by {
            if j == sorted.len() {
                if i < sorted.len() - 1 {
                    assert(sorted[i].1 <= sorted[sorted.len() - 1].1);
                }
            }
        }
    } else {
        let shorter = sorted.drop_last();
        assert forall|i: int, j: int| 0 <= i < j < shorter.len() implies (#[trigger] shorter[i]).1 <= (
        #[trigger] shorter[j]).1 by {
            assert(sorted[i].1 <= sorted[j].1);
        }
        lemma_placed(shorter, entry);
        let inner = placed(shorter, entry);
        let after = inner.push(sorted.last());
        assert(sorted == shorter.push(sorted.last()));
        assert forall|i: int| 0 <= i < inner.len() implies (#[trigger] inner[i]).1 <= sorted.last().1 by {
            assert(inner.to_multiset().count(inner[i]) > 0);
            if inner[i] != entry {
                assert(shorter.to_multiset().count(inner[i]) > 0);
                assert(shorter.contains(inner[i]));
                let k = choose|k: int| 0 <= k < shorter.len() && shorter[k] == inner[i];
                assert(sorted[k].1 <= sorted[sorted.len() - 1].1);
            }
        }
        assert forall|i: int, j: int| 0 <= i < j < after.len() implies (#[trigger] after[i]).1 <= (
        #[trigger] after[j]).1 by {
            if j < inner.len() {
                assert(inner[i].1 <= inner[j].1);
            } else {
                assert(inner[i].1 <= sorted.last().1);
            }
        }
        assert(after.to_multiset() =~= sorted.to_multiset().insert(entry));
    }
}

/// Sorting by score orders the entries and neither adds nor loses one.
pub proof fn lemma_sorted_by_score(entries: Seq<Scored>)
    ensures
        ascending_scores(sorted_by_score(entries)),
        sorted_by_score(entries).to_multiset() == entries.to_multiset(),
        sorted_by_score(entries).len() == entries.len(),
    decreases entries.len(),
{
    broadcast use vstd::seq_lib::group_to_multiset_ensures;

    if entries.len() > 0 {
        lemma_sorted_by_score(entries.drop_last());
        lemma_placed(sorted_by_score(entries.drop_last()), entries.last());
        assert(entries == entries.drop_last().push(entries.last()));
    }
}

/// The entries that have the score `score`, in their order.
pub open spec fn with_score(entries: Seq<Scored>, score: u64) -> Seq<Scored>
    decreases entries.len(),
{
    if entries.len() == 0 {
        Seq::empty()
    } else if entries.last().1 == score {
        with_score(entries.drop_last(), score).push(entries.last())
    } else {
        with_score(entries.drop_last(), score)
    }
}

/// A placed entry comes behind the entries of its own score.
pub proof fn lemma_placed_keeps_order(sorted: Seq<Scored>, entry: Scored, score: u64)
    ensures
        with_score(placed(sorted, entry), score) == if entry.1 == score {
            with_score(sorted, score).push(entry)
        } else {
            with_score(sorted, score)
        },
    decreases sorted.len(),
{
    if sorted.len() == 0 {
        assert(seq![entry].drop_last() =~= Seq::<Scored>::empty());
        assert(seq![entry].last() == entry);
        assert(with_score(Seq::<Scored>::empty(), score) == Seq::<Scored>::empty());
        assert(with_score(sorted, score) =~= Seq::<Scored>::empty());
        assert(seq![entry] =~= Seq::<Scored>::empty().push(entry));
    } else if sorted.last().1 <= entry.1 {
        assert(sorted.push(entry).drop_last() == sorted);
        assert(sorted.push(entry).last() == entry);
    } else {
        lemma_placed_keeps_order(sorted.drop_last(), entry, score);
        let inner = placed(sorted.drop_last(), entry);
        assert(inner.push(sorted.last()).drop_last() == inner);
        assert(inner.push(sorted.last()).last() == sorted.last());
    }
}

/// Sorting by score is stable: the entries of any one score stand in the
/// result in the order in which they stood before.
pub proof fn lemma_sorted_by_score_stable(entries: Seq<Scored>, score: u64)
    ensures
        with_score(sorted_by_score(entries), score) == with_score(entries, score),
    decreases entries.len(),
{
    if entries.len() > 0 {
        lemma_sorted_by_score_stable(entries.drop_last(), score);
        lemma_placed_keeps_order(sorted_by_score(entries.drop_last()), entries.last(), score);
    }
}

/// After one more occurrence of `word`, the list counts one more for that
/// word, short of overflow, and the same as before for every other word.
pub proof fn lemma_tally_counts(counts: Seq<Count>, word: Seq<char>, other: Seq<char>)
    ensures
        frequency_of(tally(counts, word), word) == saturating_successor(frequency_of(counts, word)),
        other != word ==> frequency_of(tally(counts, word), other) == frequency_of(counts, other),
    decreases counts.len(),
{
    let after = tally(counts, word);
    assert(after.len() > 0);
    if counts.len() == 0 {
        assert(after.first() == (word, 1u64));
        assert(after.drop_first() =~= Seq::<Count>::empty());
        assert(frequency_of(after.drop_first(), other) == 0);
    } else if counts.first().0 == word {
        assert(after.first() == (word, saturating_successor(counts.first().1)));
        assert(after.drop_first() =~= counts.drop_first());
    } else {
        lemma_tally_counts(counts.drop_first(), word, other);
        assert(after.first() == counts.first());
        assert(after.drop_first() =~= tally(counts.drop_first(), word));
    }
}

/// The number of times that `word` stands in `words`.
pub open spec fn occurrences(words: Seq<Seq<char>>, word: Seq<char>) -> nat
    decreases words.len(),
{
    if words.len() == 0 {
        0
    } else {
        occurrences(words.drop_last(), word) + if words.last() == word {
            1nat
        } else {
            0nat
        }
    }
}

/// The number of times that `word` stands among the cleaned words of the
/// sentences.
pub open spec fn text_occurrences(sentences: Seq<Seq<char>>, word: Seq<char>) -> nat
    decreases sentences.len(),
{
    if sentences.len() == 0 {
        0
    } else {
        text_occurrences(sentences.drop_last(), word) + occurrences(
            sentence_words(sentences.last()),
            word,
        )
    }
}

/// A number as a count: held at the largest count when it is beyond it.
pub open spec fn capped(n: nat) -> u64 {
    if n > u64::MAX {
        u64::MAX
    } else {
        n as u64
    }
}

/// After one occurrence of each of `words`, the list counts for every word
/// what it counted before plus the number of times the word stands in
/// `words`.
pub proof fn lemma_tally_all_counts(counts: Seq<Count>, words: Seq<Seq<char>>, word: Seq<char>)
    ensures
        frequency_of(tally_all(counts, words), word) == capped(
            frequency_of(counts, word) as nat + occurrences(words, word),
        ),
    decreases words.len(),
{
    if words.len() > 0 {
        lemma_tally_all_counts(counts, words.drop_last(), word);
        lemma_tally_counts(tally_all(counts, words.drop_last()), words.last(), word);
    }
}

/// The count that is collected for a word is the number of its occurrences
/// among the cleaned words of the sentences; a word that does not occur
/// counts zero.
pub proof fn lemma_collected_counts(sentences: Seq<Seq<char>>, word: Seq<char>)
    ensures
        frequency_of(collected(sentences), word) == capped(text_occurrences(sentences, word)),
    decreases sentences.len(),
{
    if sentences.len() > 0 {
        lemma_collected_counts(sentences.drop_last(), word);
        lemma_tally_all_counts(
            collected(sentences.drop_last()),
            sentence_words(sentences.last()),
            word,
        );
    }
}

/// The words of a text with their counts, and the sentences of the text.
#[derive(Debug)]
pub struct RawData {
    /// Each word once, with the number of its occurrences.
    pub freqs: Vec<(String, u64)>,
    pub sentences: Vec<String>,
}

impl RawData {
    /// The sentences of a file's text, and the count of every cleaned word
    /// in them.
    pub fn from_file(text: &str) -> (data: RawData)
        ensures
            texts(data.sentences@) == text_sentences(text@),
            counts(data.freqs@) == collected(text_sentences(text@)),
    {
        let sentences = Util::sentences_from_file(text);
        let freqs = Self::collect_freqs(sentences.as_slice());
        Self { freqs, sentences }
    }

    /// Returns a tuple of (frequency count, sentence count).
    pub fn data_sizes(&self) -> (sizes: (usize, usize))
        ensures
            sizes.0 == self.freqs@.len(),
            sizes.1 == self.sentences@.len(),
    {
        (self.freqs.len(), self.sentences.len())
    }

    /// Counts one more occurrence of `word`.
    fn count_word(freqs: &mut Vec<(String, u64)>, word: &str)
        ensures
            counts(final(freqs)@) == tally(counts(old(freqs)@), word@),
    {
        let ghost before = counts(freqs@);
        let owned = word.to_owned();
        let mut i: usize = 0;
        while i < freqs.len()
            invariant
                i <= freqs@.len(),
                owned@ == word@,
                before == counts(freqs@),
                before == counts(old(freqs)@),
                forall|j: int| 0 <= j < i ==> (#[trigger] before[j]).0 != word@,
            decreases freqs@.len() - i,
        {
            if freqs[i].0 == owned {
                let count = freqs[i].1;
                freqs[i] = (owned, count.saturating_add(1));
                proof {
                    lemma_tally_found(before, word@, i as int);
                    assert(counts(freqs@) =~= before.update(
                        i as int,
                        (word@, saturating_successor(before[i as int].1)),
                    ));
                }
                return ;
            }
            i += 1;
        }
        freqs.push((owned, 1));
        proof {
            lemma_tally_absent(before, word@);
            assert(counts(freqs@) =~= before.push((word@, 1u64)));
        }
    }

    /// Counts the cleaned words of the sentences: each word is listed once,
    /// in the order of first occurrence, with the number of its occurrences.
    pub fn collect_freqs(sentences: &[String]) -> (freqs: Vec<(String, u64)>)
        ensures
            counts(freqs@) == collected(texts(sentences@)),
    {
        let mut freqs: Vec<(String, u64)> = Vec::new();
        let mut i: usize = 0;
        assert(counts(freqs@) =~= Seq::<Count>::empty());
        while i < sentences.len()
            invariant
                i <= sentences@.len(),
                counts(freqs@) == collected(texts(sentences@).take(i as int)),
            decreases sentences@.len() - i,
        {
            let words = Util::words_of(sentences[i].as_str());
            let ghost start = counts(freqs@);
            let ghost all = texts(words@);
            proof {
                let done = texts(sentences@).take(i as int + 1);
                assert(done.drop_last() == texts(sentences@).take(i as int));
                assert(done.last() == sentences@[i as int]@);
            }
            let mut k: usize = 0;
            while k < words.len()
                invariant
                    k <= words@.len(),
                    all == texts(words@),
                    counts(freqs@) == tally_all(start, all.take(k as int)),
                decreases words@.len() - k,
            {
                proof {
                    assert(all.take(k as int + 1).drop_last() == all.take(k as int));
                    assert(all.take(k as int + 1).last() == words@[k as int]@);
                }
                Self::count_word(&mut freqs, words[k].as_str());
                k += 1;
            }
            assert(all.take(k as int) == all);
            i += 1;
        }
        assert(texts(sentences@).take(sentences@.len() as int) == texts(sentences@));
        freqs
    }
}

/// With the first entry for `word` at position `i`, one more occurrence
/// changes that entry alone.
proof fn lemma_tally_found(counts: Seq<Count>, word: Seq<char>, i: int)
    requires
        0 <= i < counts.len(),
        counts[i].0 == word,
        forall|j: int| 0 <= j < i ==> (#[trigger] counts[j]).0 != word,
    ensures
        tally(counts, word) == counts.update(i, (word, saturating_successor(counts[i].1))),
    decreases counts.len(),
{
    if i == 0 {
        assert(tally(counts, word) =~= counts.update(i, (word, saturating_successor(counts[i].1))));
    } else {
        assert(counts[0].0 != word);
        let rest = counts.drop_first();
        assert forall|j: int| 0 <= j < i - 1 implies (#[trigger] rest[j]).0 != word by {
            assert(counts[j + 1].0 != word);
        }
        lemma_tally_found(rest, word, i - 1);
        assert(tally(counts, word) =~= counts.update(i, (word, saturating_successor(counts[i].1))));
    }
}

/// With no entry for `word`, one more occurrence adds an entry at the end.
proof fn lemma_tally_absent(counts: Seq<Count>, word: Seq<char>)
    requires
        forall|j: int| 0 <= j < counts.len() ==> (#[trigger] counts[j]).0 != word,
    ensures
        tally(counts, word) == counts.push((word, 1u64)),
    decreases counts.len(),
{
    if counts.len() == 0 {
        assert(tally(counts, word) =~= counts.push((word, 1u64)));
    } else {
        assert(counts[0].0 != word);
        let rest = counts.drop_first();
        assert forall|j: int| 0 <= j < rest.len() implies (#[trigger] rest[j]).0 != word by {
            assert(counts[j + 1].0 != word);
        }
        lemma_tally_absent(rest, word);
        assert(tally(counts, word) =~= counts.push((word, 1u64)));
    }
}

/// A sentence with its easiness score.
#[derive(Debug, Clone, PartialEq, Eq, Hash)]
pub struct Rank {
    pub sentence: String,
    pub score: u64,
}

impl Rank {
    pub fn new(sentence: String, score: u64) -> (rank: Self)
        ensures
            rank.sentence == sentence,
            rank.score == score,
    {
        Self { sentence, score }
    }
}

/// With every entry from position `p` on scoring higher than `entry` and the
/// one before `p`, if any, not higher, the entry is placed at `p`.
proof fn lemma_placed_at(sorted: Seq<Scored>, entry: Scored, p: int)
    requires
        0 <= p <= sorted.len(),
        forall|i: int| p <= i < sorted.len() ==> (#[trigger] sorted[i]).1 > entry.1,
        p > 0 ==> sorted[p - 1].1 <= entry.1,
    ensures
        placed(sorted, entry) == sorted.insert(p, entry),
    decreases sorted.len(),
{
    if p == sorted.len() {
        assert(placed(sorted, entry) =~= sorted.insert(p, entry));
    } else {
        assert(sorted[sorted.len() - 1].1 > entry.1);
        let shorter = sorted.drop_last();
        assert forall|i: int| p <= i < shorter.len() implies (#[trigger] shorter[i]).1 > entry.1 by {
            assert(sorted[i].1 > entry.1);
        }
        lemma_placed_at(shorter, entry, p);
        assert(placed(sorted, entry) =~= sorted.insert(p, entry));
    }
}

/// The sum of the frequencies of up to `n` words stays below `n` times 2^64.
proof fn lemma_total_frequency_bound(counts: Seq<Count>, words: Seq<Seq<char>>)
    ensures
        total_frequency(counts, words) <= words.len() * 0xffff_ffff_ffff_ffff,
    decreases words.len(),
{
    if words.len() > 0 {
        lemma_total_frequency_bound(counts, words.drop_last());
        assert((words.len() - 1) * 0xffff_ffff_ffff_ffff + 0xffff_ffff_ffff_ffff == words.len()
            * 0xffff_ffff_ffff_ffff) by (nonlinear_arith);
    }
}

/// The rankings of the sentences of a text, easiest last.
pub struct SentenceRanker {
    rankings: Vec<Rank>,
}

impl View for SentenceRanker {
    type V = Seq<Rank>;

    closed spec fn view(&self) -> Seq<Rank> {
        self.rankings@
    }
}

impl SentenceRanker {
    /// Ranks the sentences of `data` by the frequencies of `data`.
    pub fn new(data: RawData) -> (ranker: Self)
        ensures
            scored(ranker@) == sorted_by_score(
                ranked(counts(data.freqs@), texts(data.sentences@)),
            ),
    {
        let rankings = Self::rank(&data);
        Self { rankings }
    }

    /// The rankings in ascending order of score.
    pub fn rankings(&self) -> (rankings: &Vec<Rank>)
        ensures
            rankings@ == self@,
    {
        &self.rankings
    }

    /// The frequency that `freqs` lists for `word`; zero for a word that is
    /// not listed.
    pub fn frequency(freqs: &Vec<(String, u64)>, word: &String) -> (count: u64)
        ensures
            count == frequency_of(counts(freqs@), word@),
    {
        let mut i: usize = 0;
        assert(counts(freqs@).skip(0) =~= counts(freqs@));
        while i < freqs.len()
            invariant
                i <= freqs@.len(),
                frequency_of(counts(freqs@), word@) == frequency_of(
                    counts(freqs@).skip(i as int),
                    word@,
                ),
            decreases freqs@.len() - i,
        {
            proof {
                let rest = counts(freqs@).skip(i as int);
                assert(rest.first() == (freqs@[i as int].0@, freqs@[i as int].1));
                assert(rest.drop_first() == counts(freqs@).skip(i as int + 1));
            }
            if freqs[i].0 == *word {
                return freqs[i].1;
            }
            i += 1;
        }
        0
    }

    /// The easiness of a sentence with the cleaned words `words`: the
    /// average of the words' frequencies (whole division) over the square
    /// root of the number of words, rounded to the nearest whole number.
    /// The higher the score, the easier the sentence.
    pub fn score(freqs: &Vec<(String, u64)>, words: &Vec<String>) -> (score: u64)
        requires
            words@.len() > 0,
        ensures
            score == easiness(counts(freqs@), texts(words@)),
    {
        let mut total_freq: u128 = 0;
        let mut i: usize = 0;
        let ghost all = texts(words@);
        while i < words.len()
            invariant
                i <= words@.len(),
                all == texts(words@),
                total_freq == total_frequency(counts(freqs@), all.take(i as int)),
            decreases words@.len() - i,
        {
            let count = Self::frequency(freqs, &words[i]);
            proof {
                let done = all.take(i as int + 1);
                assert(done.drop_last() == all.take(i as int));
                assert(done.last() == words@[i as int]@);
                lemma_total_frequency_bound(counts(freqs@), done);
                assert(done.len() * 0xffff_ffff_ffff_ffff <= u128::MAX) by (nonlinear_arith)
                    requires
                        done.len() <= 0xffff_ffff_ffff_ffff,
                ;
            }
            total_freq = total_freq + count as u128;
            i += 1;
        }
        let word_count = words.len();
        proof {
            assert(all.take(words@.len() as int) == all);
            lemma_total_frequency_bound(counts(freqs@), all);
            assert(total_freq as int / word_count as int <= 0xffff_ffff_ffff_ffff)
                by (nonlinear_arith)
                requires
                    total_freq <= word_count * 0xffff_ffff_ffff_ffff,
                    word_count > 0,
            ;
        }
        let avg_freq = (total_freq / (word_count as u128)) as u64;
        penalized_average(avg_freq, word_count)
    }

    /// Whether some entry of `seen` holds exactly the words `words`.
    fn contains_words(seen: &Vec<Vec<String>>, words: &Vec<String>) -> (found: bool)
        ensures
            found == word_lists(seen@).contains(texts(words@)),
    {
        let mut k: usize = 0;
        while k < seen.len()
            invariant
                k <= seen@.len(),
                forall|j: int| 0 <= j < k ==> #[trigger] word_lists(seen@)[j] != texts(words@),
            decreases seen@.len() - k,
        {
            if Self::same_words(&seen[k], words) {
                assert(word_lists(seen@)[k as int] == texts(words@));
                return true;
            }
            k += 1;
        }
        false
    }

    /// Whether two word lists hold the same words in the same order.
    fn same_words(left: &Vec<String>, right: &Vec<String>) -> (same: bool)
        ensures
            same == (texts(left@) == texts(right@)),
    {
        if left.len() != right.len() {
            assert(texts(left@).len() != texts(right@).len());
            return false;
        }
        let mut i: usize = 0;
        while i < left.len()
            invariant
                i <= left@.len(),
                left@.len() == right@.len(),
                forall|j: int| 0 <= j < i ==> (#[trigger] left@[j])@ == right@[j]@,
            decreases left@.len() - i,
        {
            if left[i] != right[i] {
                assert(texts(left@)[i as int] != texts(right@)[i as int]);
                return false;
            }
            i += 1;
        }
        assert(texts(left@) =~= texts(right@));
        true
    }

    /// Puts ranks into ascending order of score. Ranks of equal score keep
    /// their order.
    pub fn sort_by_score(ranks: Vec<Rank>) -> (sorted: Vec<Rank>)
        ensures
            scored(sorted@) == sorted_by_score(scored(ranks@)),
    {
        let mut sorted: Vec<Rank> = Vec::new();
        let mut i: usize = 0;
        assert(scored(sorted@) =~= Seq::<Scored>::empty());
        while i < ranks.len()
            invariant
                i <= ranks@.len(),
                scored(sorted@) == sorted_by_score(scored(ranks@).take(i as int)),
            decreases ranks@.len() - i,
        {
            let entry = Rank::new(ranks[i].sentence.clone(), ranks[i].score);
            let mut p: usize = sorted.len();
            while p > 0 && sorted[p - 1].score > entry.score
                invariant
                    p <= sorted@.len(),
                    forall|j: int| p <= j < sorted@.len() ==> (#[trigger] sorted@[j]).score > entry.score,
                decreases p,
            {
                p -= 1;
            }
            proof {
                let before = scored(sorted@);
                let item = (entry.sentence@, entry.score);
                assert forall|j: int| p <= j < before.len() implies (#[trigger] before[j]).1 > item.1 by {
                    assert(sorted@[j].score > entry.score);
                }
                lemma_placed_at(before, item, p as int);
                let done = scored(ranks@).take(i as int + 1);
                assert(done.drop_last() == scored(ranks@).take(i as int));
                assert(done.last() == item);
            }
            let ghost before = sorted@;
            sorted.insert(p, entry);
            assert(scored(sorted@) =~= scored(before).insert(p as int, (entry.sentence@, entry.score)));
            i += 1;
        }
        assert(scored(ranks@).take(ranks@.len() as int) == scored(ranks@));
        sorted
    }

    /// Ranks all sentences by their easiness. A sentence with fewer cleaned
    /// words than the threshold is not ranked, nor is one whose cleaned
    /// words repeat those of an earlier sentence. The result is in
    /// ascending order of score.
    pub fn rank(data: &RawData) -> (rankings: Vec<Rank>)
        ensures
            scored(rankings@) == sorted_by_score(
                ranked(counts(data.freqs@), texts(data.sentences@)),
            ),
    {
        let mut rankings: Vec<Rank> = Vec::new();
        let mut seen_words: Vec<Vec<String>> = Vec::new();
        let ghost all = texts(data.sentences@);
        let ghost table = counts(data.freqs@);
        let mut i: usize = 0;
        assert(scored(rankings@) =~= Seq::<Scored>::empty());
        assert(word_lists(seen_words@) =~= Seq::<Seq<Seq<char>>>::empty());
        while i < data.sentences.len()
            invariant
                i <= data.sentences@.len(),
                all == texts(data.sentences@),
                table == counts(data.freqs@),
                scored(rankings@) == ranked(table, all.take(i as int)),
                word_lists(seen_words@) == ranked_words(all.take(i as int)),
            decreases data.sentences@.len() - i,
        {
            let sentence = &data.sentences[i];
            let words = Util::words_of(sentence.as_str());
            let ghost earlier = all.take(i as int);
            proof {
                let done = all.take(i as int + 1);
                assert(done.drop_last() == earlier);
                assert(done.last() == sentence@);
            }
            if words.len() >= WORDS_IN_SENTENCE_DISCARD_THRESHOLD as usize {
                let repeated = Self::contains_words(&seen_words, &words);
                proof {
                    lemma_ranked_words(earlier, texts(words@));
                }
                if !repeated {
                    let score = Self::score(&data.freqs, &words);
                    let ghost before = rankings@;
                    let ghost checked = seen_words@;
                    rankings.push(Rank::new(sentence.clone(), score));
                    seen_words.push(words);
                    assert(scored(rankings@) =~= scored(before).push((sentence@, score)));
                    assert(word_lists(seen_words@) =~= word_lists(checked).push(texts(words@)));
                }
            }
            i += 1;
        }
        assert(all.take(data.sentences@.len() as int) == all);
        Self::sort_by_score(rankings)
    }
}

} // verus!
