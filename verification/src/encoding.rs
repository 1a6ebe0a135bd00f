//! What the hasher is fed tells word sequences apart.
//!
//! Every word goes in behind its own length, and a sequence ends with its
//! word count, so no two sequences feed the hasher the same bytes: two
//! digests can only meet where BLAKE3 itself collides. This holds as long
//! as lengths and counts fit the 32 bits they are written in.

use vstd::prelude::*;
use vstd::bytes::{lemma_auto_spec_u32_to_from_le_bytes, spec_u32_from_le_bytes, spec_u32_to_le_bytes};
use vstd::utf8::{decode_utf8, encode_utf8, encode_utf8_decode_utf8};
use crate::util::{length_prefix, sequence_input, word_input, word_record, word_records};

verus! {

/// The word's byte length fits the four bytes it is written in.
pub open spec fn word_fits(word: Seq<char>) -> bool {
    encode_utf8(word).len() < 0x1_0000_0000
}

/// The word count and the byte length of every word fit the four bytes
/// they are written in.
pub open spec fn sequence_fits(words: Seq<Seq<char>>) -> bool {
    &&& words.len() < 0x1_0000_0000
    &&& forall|i: int| 0 <= i < words.len() ==> word_fits(#[trigger] words[i])
}

/// A length prefix is four bytes long, and numbers below 2^32 with the same
/// prefix are the same number.
pub proof fn lemma_length_prefix(m: nat, n: nat)
    ensures
        length_prefix(m).len() == 4,
        m < 0x1_0000_0000 && n < 0x1_0000_0000 && length_prefix(m) == length_prefix(n) ==> m == n,
{
    lemma_auto_spec_u32_to_from_le_bytes();
    assert(spec_u32_to_le_bytes((m % 0x1_0000_0000) as u32).len() == 4);
    if m < 0x1_0000_0000 && n < 0x1_0000_0000 && length_prefix(m) == length_prefix(n) {
        let x = (m % 0x1_0000_0000) as u32;
        let y = (n % 0x1_0000_0000) as u32;
        assert(spec_u32_to_le_bytes(x).len() == 4 && spec_u32_to_le_bytes(y).len() == 4);
        assert(spec_u32_from_le_bytes(spec_u32_to_le_bytes(x)) == x);
        assert(spec_u32_from_le_bytes(spec_u32_to_le_bytes(y)) == y);
    }
}

/// Two byte strings that each begin with the record of a word and are
/// equal begin with the same word and go on in the same way.
pub proof fn lemma_word_record_leads(a: Seq<char>, b: Seq<char>, after_a: Seq<u8>, after_b: Seq<u8>)
    requires
        word_fits(a),
        word_fits(b),
        word_record(a) + after_a == word_record(b) + after_b,
    ensures
        a == b,
        after_a == after_b,
{
    let (ea, eb) = (encode_utf8(a), encode_utf8(b));
    let (pa, pb) = (length_prefix(ea.len()), length_prefix(eb.len()));
    let (left, right) = (word_record(a) + after_a, word_record(b) + after_b);
    lemma_length_prefix(ea.len(), eb.len());
    lemma_length_prefix(eb.len(), ea.len());
    assert(left.subrange(0, 4) =~= pa);
    assert(right.subrange(0, 4) =~= pb);
    assert(ea.len() == eb.len());
    let n = ea.len() as int;
    assert(left.subrange(4, 4 + n) =~= ea);
    assert(right.subrange(4, 4 + n) =~= eb);
    assert(left.subrange(4 + n, left.len() as int) =~= after_a);
    assert(right.subrange(4 + n, right.len() as int) =~= after_b);
    encode_utf8_decode_utf8(a);
    encode_utf8_decode_utf8(b);
    assert(decode_utf8(ea) == a);
    assert(decode_utf8(eb) == b);
}

/// The records of a sequence begin with the record of its first word.
pub proof fn lemma_word_records_front(words: Seq<Seq<char>>)
    requires
        words.len() > 0,
    ensures
        word_records(words) == word_record(words[0]) + word_records(words.skip(1)),
    decreases words.len(),
{
    if words.len() == 1 {
        assert(words.drop_last() =~= Seq::<Seq<char>>::empty());
        assert(words.skip(1) =~= Seq::<Seq<char>>::empty());
        assert(word_records(words) =~= word_record(words[0]) + word_records(words.skip(1)));
    } else {
        let shorter = words.drop_last();
        lemma_word_records_front(shorter);
        assert(shorter.skip(1) =~= words.skip(1).drop_last());
        assert(words.skip(1).last() == words.last());
        assert(shorter[0] == words[0]);
        assert(word_records(words) =~= word_record(words[0]) + word_records(words.skip(1)));
    }
}

/// Sequences of the same number of words with the same records are the
/// same sequence.
pub proof fn lemma_word_records_injective(a: Seq<Seq<char>>, b: Seq<Seq<char>>)
    requires
        a.len() == b.len(),
        forall|i: int| 0 <= i < a.len() ==> word_fits(#[trigger] a[i]),
        forall|i: int| 0 <= i < b.len() ==> word_fits(#[trigger] b[i]),
        word_records(a) == word_records(b),
    ensures
        a == b,
    decreases a.len(),
{
    if a.len() == 0 {
        assert(a =~= b);
    } else {
        lemma_word_records_front(a);
        lemma_word_records_front(b);
        assert(word_fits(a[0]) && word_fits(b[0]));
        lemma_word_record_leads(a[0], b[0], word_records(a.skip(1)), word_records(b.skip(1)));
        assert forall|i: int| 0 <= i < a.skip(1).len() implies word_fits(#[trigger] a.skip(1)[i]) by {
            assert(word_fits(a[i + 1]));
        }
        assert forall|i: int| 0 <= i < b.skip(1).len() implies word_fits(#[trigger] b.skip(1)[i]) by {
            assert(word_fits(b[i + 1]));
        }
        lemma_word_records_injective(a.skip(1), b.skip(1));
        assert(a =~= seq![a[0]] + a.skip(1));
        assert(b =~= seq![b[0]] + b.skip(1));
    }
}

/// Word sequences that feed the hasher the same bytes are the same
/// sequence: the words are the same and are cut at the same places.
pub proof fn lemma_sequence_input_injective(a: Seq<Seq<char>>, b: Seq<Seq<char>>)
    requires
        sequence_fits(a),
        sequence_fits(b),
        sequence_input(a) == sequence_input(b),
    ensures
        a == b,
{
    let (left, right) = (sequence_input(a), sequence_input(b));
    let (ra, rb) = (word_records(a), word_records(b));
    let (ca, cb) = (length_prefix(a.len()), length_prefix(b.len()));
    lemma_length_prefix(a.len(), b.len());
    lemma_length_prefix(b.len(), a.len());
    assert(left.len() == 1 + ra.len() + 4);
    assert(right.len() == 1 + rb.len() + 4);
    assert(left.subrange(1 + ra.len() as int, left.len() as int) =~= ca);
    assert(right.subrange(1 + rb.len() as int, right.len() as int) =~= cb);
    assert(left.subrange(1, 1 + ra.len() as int) =~= ra);
    assert(right.subrange(1, 1 + rb.len() as int) =~= rb);
    lemma_word_records_injective(a, b);
}

/// Words that feed the hasher the same bytes are the same word.
pub proof fn lemma_word_input_injective(a: Seq<char>, b: Seq<char>)
    requires
        word_fits(a),
        word_fits(b),
        word_input(a) == word_input(b),
    ensures
        a == b,
{
    let (left, right) = (word_input(a), word_input(b));
    assert(left.subrange(1, left.len() as int) =~= word_record(a));
    assert(right.subrange(1, right.len() as int) =~= word_record(b));
    assert(word_record(a) + Seq::<u8>::empty() =~= word_record(a));
    assert(word_record(b) + Seq::<u8>::empty() =~= word_record(b));
    lemma_word_record_leads(a, b, Seq::empty(), Seq::empty());
}

} // verus!
