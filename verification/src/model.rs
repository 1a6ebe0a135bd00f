//! The store as a mathematical value: what a batch of training does to the
//! tables, and what holds of every store that training leads to.

use vstd::prelude::*;
use crate::analysis::{Count, Scored, capped, ranked, sorted_by_score};
use crate::order::{Digest, IndexKey};
use crate::records::Stored;
use crate::store::{
    Paired, empty_pair, lemma_empty_mirrors, lemma_index_mirrors_primary, lemma_upserted_mirrors,
    mirrors, upserted,
};
use crate::util::{sentence_words, sequence_digest, word_digest};

verus! {

/// The sum of two counts, held at the largest count when it would pass it.
pub open spec fn saturating_sum(a: u64, b: u64) -> u64 {
    if a + b > u64::MAX {
        u64::MAX
    } else {
        (a + b) as u64
    }
}

/// The sort value stored under `hash`; zero when nothing is stored there.
pub open spec fn stored_value(records: Map<Digest, Stored>, hash: Digest) -> u64 {
    if records.contains_key(hash) {
        records[hash].1
    } else {
        0
    }
}

/// The frequency tables after `delta` more occurrences of `word`: the
/// word's record holds the old count plus `delta`, saturating, and the
/// index follows.
pub open spec fn merge_frequency(table: Paired, word: Seq<char>, delta: u64) -> Paired {
    let hash = word_digest(word);
    upserted(table, hash, word, saturating_sum(stored_value(table.records, hash), delta))
}

/// The frequency tables after a batch of counted words, merged in order.
pub open spec fn merge_frequencies(table: Paired, freqs: Seq<Count>) -> Paired
    decreases freqs.len(),
{
    if freqs.len() == 0 {
        table
    } else {
        merge_frequency(merge_frequencies(table, freqs.drop_last()), freqs.last().0, freqs.last().1)
    }
}

/// Each word with the count that is stored for it; zero for a word
/// without a record.
pub open spec fn looked_up(records: Map<Digest, Stored>, words: Seq<Seq<char>>) -> Seq<Count> {
    words.map_values(|word: Seq<char>| (word, stored_value(records, word_digest(word))))
}

/// The sentence tables after a sentence is stored with a score: the record
/// under the digest of the sentence's cleaned words holds the sentence and
/// this score, whatever was stored there before, and the index follows.
pub open spec fn store_ranking(table: Paired, sentence: Seq<char>, score: u64) -> Paired {
    upserted(table, sequence_digest(sentence_words(sentence)), sentence, score)
}

/// The sentence tables after a batch of scored sentences, stored in order.
pub open spec fn store_rankings(table: Paired, ranks: Seq<Scored>) -> Paired
    decreases ranks.len(),
{
    if ranks.len() == 0 {
        table
    } else {
        store_ranking(store_rankings(table, ranks.drop_last()), ranks.last().0, ranks.last().1)
    }
}

/// Every word has a frequency record.
pub open spec fn all_known(records: Map<Digest, Stored>, words: Seq<Seq<char>>) -> bool {
    forall|i: int| 0 <= i < words.len() ==> records.contains_key(word_digest(#[trigger] words[i]))
}

/// The words of a batch of counted words.
pub open spec fn batch_words(freqs: Seq<Count>) -> Seq<Seq<char>> {
    freqs.map_values(|count: Count| count.0)
}

/// Merging a batch of counted words keeps mirrored tables mirrored.
pub proof fn lemma_merge_frequencies_mirrors(table: Paired, freqs: Seq<Count>)
    requires
        mirrors(table),
    ensures
        mirrors(merge_frequencies(table, freqs)),
    decreases freqs.len(),
{
    if freqs.len() > 0 {
        lemma_merge_frequencies_mirrors(table, freqs.drop_last());
        let earlier = merge_frequencies(table, freqs.drop_last());
        let hash = word_digest(freqs.last().0);
        lemma_upserted_mirrors(
            earlier,
            hash,
            freqs.last().0,
            saturating_sum(stored_value(earlier.records, hash), freqs.last().1),
        );
    }
}

/// Storing a batch of scored sentences keeps mirrored tables mirrored.
pub proof fn lemma_store_rankings_mirrors(table: Paired, ranks: Seq<Scored>)
    requires
        mirrors(table),
    ensures
        mirrors(store_rankings(table, ranks)),
    decreases ranks.len(),
{
    if ranks.len() > 0 {
        lemma_store_rankings_mirrors(table, ranks.drop_last());
        lemma_upserted_mirrors(
            store_rankings(table, ranks.drop_last()),
            sequence_digest(sentence_words(ranks.last().0)),
            ranks.last().0,
            ranks.last().1,
        );
    }
}

/// A sentence that is stored again gets the score it is stored with now:
/// the score that was stored before has no part in it, and its index entry
/// is gone unless it is the new one.
pub proof fn lemma_store_ranking_replaces(table: Paired, sentence: Seq<char>, score: u64)
    ensures
        ({
            let hash = sequence_digest(sentence_words(sentence));
            let after = store_ranking(table, sentence, score);
            &&& after.records.contains_key(hash)
            &&& after.records[hash] == (sentence, score)
            &&& after.index.contains((score, hash))
            &&& table.records.contains_key(hash) && table.records[hash].1 != score
                ==> !after.index.contains((table.records[hash].1, hash))
            &&& forall|other: Digest|
                other != hash ==> (after.records.contains_key(other) <==> table.records.contains_key(
                    other,
                )) && (table.records.contains_key(other) ==> after.records[other]
                    == table.records[other])
        }),
{
}

/// The sum of the counts that a batch lists under one digest.
pub open spec fn batch_total(freqs: Seq<Count>, hash: Digest) -> nat
    decreases freqs.len(),
{
    if freqs.len() == 0 {
        0
    } else {
        batch_total(freqs.drop_last(), hash) + if word_digest(freqs.last().0) == hash {
            freqs.last().1 as nat
        } else {
            0nat
        }
    }
}

/// Some entry of the batch has the digest `hash`.
pub open spec fn batch_names(freqs: Seq<Count>, hash: Digest) -> bool {
    exists|i: int| 0 <= i < freqs.len() && word_digest((#[trigger] freqs[i]).0) == hash
}

/// After a whole batch, the count stored under any digest is the count
/// that was stored before plus every count that the batch lists under this
/// digest, held at the largest count; and a digest has a record exactly
/// when it had one before or the batch names it.
pub proof fn lemma_merge_frequencies_counts(table: Paired, freqs: Seq<Count>, hash: Digest)
    ensures
        stored_value(merge_frequencies(table, freqs).records, hash) == capped(
            stored_value(table.records, hash) as nat + batch_total(freqs, hash),
        ),
        merge_frequencies(table, freqs).records.contains_key(hash) <==> table.records.contains_key(
            hash,
        ) || batch_names(freqs, hash),
    decreases freqs.len(),
{
    if freqs.len() > 0 {
        let shorter = freqs.drop_last();
        lemma_merge_frequencies_counts(table, shorter, hash);
        if batch_names(shorter, hash) {
            let i = choose|i: int| 0 <= i < shorter.len() && word_digest((#[trigger] shorter[i]).0) == hash;
            assert(word_digest(freqs[i].0) == hash);
        }
        if word_digest(freqs.last().0) == hash {
            assert(word_digest(freqs[freqs.len() - 1].0) == hash);
        }
        if batch_names(freqs, hash) {
            let i = choose|i: int| 0 <= i < freqs.len() && word_digest((#[trigger] freqs[i]).0) == hash;
            if i < shorter.len() {
                assert(word_digest(shorter[i].0) == hash);
            }
        }
    }
}

/// Merging never loses a record, and every word of the batch has one
/// afterwards.
pub proof fn lemma_merge_frequencies_known(table: Paired, freqs: Seq<Count>)
    ensures
        forall|hash: Digest|
            table.records.contains_key(hash) ==> #[trigger] merge_frequencies(
                table,
                freqs,
            ).records.contains_key(hash),
        forall|i: int|
            0 <= i < freqs.len() ==> merge_frequencies(table, freqs).records.contains_key(
                word_digest((#[trigger] freqs[i]).0),
            ),
    decreases freqs.len(),
{
    if freqs.len() > 0 {
        lemma_merge_frequencies_known(table, freqs.drop_last());
        let earlier = merge_frequencies(table, freqs.drop_last());
        assert forall|i: int| 0 <= i < freqs.len() implies merge_frequencies(
            table,
            freqs,
        ).records.contains_key(word_digest((#[trigger] freqs[i]).0)) by {
            if i < freqs.len() - 1 {
                assert(freqs.drop_last()[i] == freqs[i]);
                assert(earlier.records.contains_key(word_digest(freqs[i].0)));
            }
        }
    }
}

/// The tables of a store as mathematical values.
pub struct StoreModel {
    /// The word table and its index.
    pub frequencies: Paired,
    /// The sentence table and its index.
    pub sentences: Paired,
}

/// The store without any record.
pub open spec fn empty_store() -> StoreModel {
    StoreModel { frequencies: empty_pair(), sentences: empty_pair() }
}

/// The store after one batch: the word counts are merged, then the
/// sentences are ranked by the counts that the store holds afterwards for
/// the words of the batch, and stored.
pub open spec fn trained_with(model: StoreModel, freqs: Seq<Count>, sentences: Seq<Seq<char>>) -> StoreModel {
    let frequencies = merge_frequencies(model.frequencies, freqs);
    let ranks = sorted_by_score(
        ranked(looked_up(frequencies.records, batch_words(freqs)), sentences),
    );
    StoreModel { frequencies, sentences: store_rankings(model.sentences, ranks) }
}

/// The store that training on the batches, one after the other and
/// starting from nothing, leads to.
pub open spec fn trained(batches: Seq<(Seq<Count>, Seq<Seq<char>>)>) -> StoreModel
    decreases batches.len(),
{
    if batches.len() == 0 {
        empty_store()
    } else {
        trained_with(trained(batches.drop_last()), batches.last().0, batches.last().1)
    }
}

/// Both indices mirror their primary tables, and the tables are finite.
pub open spec fn store_mirrors(model: StoreModel) -> bool {
    &&& mirrors(model.frequencies)
    &&& mirrors(model.sentences)
    &&& model.frequencies.records.dom().finite()
    &&& model.sentences.records.dom().finite()
}

/// Merging and storing keep finite tables finite.
pub proof fn lemma_batches_finite(table: Paired, freqs: Seq<Count>, ranks: Seq<Scored>)
    requires
        table.records.dom().finite(),
    ensures
        merge_frequencies(table, freqs).records.dom().finite(),
        store_rankings(table, ranks).records.dom().finite(),
    decreases freqs.len() + ranks.len(),
{
    if freqs.len() > 0 {
        lemma_batches_finite(table, freqs.drop_last(), Seq::empty());
    }
    if ranks.len() > 0 {
        lemma_batches_finite(table, Seq::empty(), ranks.drop_last());
    }
}

/// One batch keeps a mirrored store mirrored.
pub proof fn lemma_trained_with_mirrors(model: StoreModel, freqs: Seq<Count>, sentences: Seq<Seq<char>>)
    requires
        store_mirrors(model),
    ensures
        store_mirrors(trained_with(model, freqs, sentences)),
{
    let frequencies = merge_frequencies(model.frequencies, freqs);
    let ranks = sorted_by_score(
        ranked(looked_up(frequencies.records, batch_words(freqs)), sentences),
    );
    lemma_merge_frequencies_mirrors(model.frequencies, freqs);
    lemma_store_rankings_mirrors(model.sentences, ranks);
    lemma_batches_finite(model.frequencies, freqs, Seq::empty());
    lemma_batches_finite(model.sentences, Seq::empty(), ranks);
}

/// In every store that training leads to, each index has as many rows as
/// its primary table, every record has its index entry under its current
/// sort value, and no index entry stands for anything else.
pub proof fn lemma_trained_mirrors(batches: Seq<(Seq<Count>, Seq<Seq<char>>)>)
    ensures
        store_mirrors(trained(batches)),
        trained(batches).frequencies.index.len() == trained(batches).frequencies.records.dom().len(),
        trained(batches).sentences.index.len() == trained(batches).sentences.records.dom().len(),
        forall|hash: Digest| #[trigger]
            trained(batches).frequencies.records.contains_key(hash) ==> trained(
                batches,
            ).frequencies.index.contains((trained(batches).frequencies.records[hash].1, hash)),
        forall|key: IndexKey| #[trigger]
            trained(batches).frequencies.index.contains(key) ==> trained(
                batches,
            ).frequencies.records.contains_key(key.1) && trained(batches).frequencies.records[key.1].1
                == key.0,
        forall|hash: Digest| #[trigger]
            trained(batches).sentences.records.contains_key(hash) ==> trained(
                batches,
            ).sentences.index.contains((trained(batches).sentences.records[hash].1, hash)),
        forall|key: IndexKey| #[trigger]
            trained(batches).sentences.index.contains(key) ==> trained(
                batches,
            ).sentences.records.contains_key(key.1) && trained(batches).sentences.records[key.1].1
                == key.0,
    decreases batches.len(),
{
    if batches.len() == 0 {
        lemma_empty_mirrors();
    } else {
        lemma_trained_mirrors(batches.drop_last());
        lemma_trained_with_mirrors(trained(batches.drop_last()), batches.last().0, batches.last().1);
    }
    lemma_index_mirrors_primary(trained(batches).frequencies);
    lemma_index_mirrors_primary(trained(batches).sentences);
}

/// Two merges of the same word add up: the stored count is the old count
/// plus both deltas, held at the largest count once it is reached.
pub proof fn lemma_merge_accumulates(table: Paired, word: Seq<char>, first: u64, second: u64)
    ensures
        stored_value(
            merge_frequency(merge_frequency(table, word, first), word, second).records,
            word_digest(word),
        ) == saturating_sum(
            saturating_sum(stored_value(table.records, word_digest(word)), first),
            second,
        ),
        stored_value(table.records, word_digest(word)) + first + second <= u64::MAX ==> stored_value(
            merge_frequency(merge_frequency(table, word, first), word, second).records,
            word_digest(word),
        ) == stored_value(table.records, word_digest(word)) + first + second,
{
}

} // verus!
