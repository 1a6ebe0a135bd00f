//! Content hashing and token cleaning.

use vstd::prelude::*;
use vstd::bytes::{spec_u32_to_le_bytes, u32_to_le_bytes, lemma_auto_spec_u32_to_from_le_bytes};
use vstd::utf8::encode_utf8;
use crate::constants::{
    GENERIC_SENTENCE_GARBAGE_PATTERNS,
    GENERIC_WORD_GARBAGE_PATTERNS,
    REDB_LAYOUT_VERSION,
};

verus! {

/// The BLAKE3 digest of a byte string.
pub uninterp spec fn blake3_digest(input: Seq<u8>) -> [u8; 32];

/// Calls `blake3::hash` and copies the 32 digest bytes out of the returned
/// `Hash`. The digest is a function of the input bytes alone; which function
/// is left to BLAKE3.
#[verifier::external_body]
fn blake3_hash(input: &[u8]) -> (digest: [u8; 32])
    ensures
        digest == blake3_digest(input@),
{
    *blake3::hash(input).as_bytes()
}

/// A length or a count as it is fed to the hasher: four little-endian bytes
/// holding the number modulo 2^32, whatever the width of `usize`.
pub open spec fn length_prefix(n: nat) -> Seq<u8> {
    spec_u32_to_le_bytes((n % 0x1_0000_0000) as u32)
}

/// One word as it is fed to the hasher: the byte length of its UTF-8 form,
/// then the bytes themselves.
pub open spec fn word_record(word: Seq<char>) -> Seq<u8> {
    length_prefix(encode_utf8(word).len()) + encode_utf8(word)
}

/// The records of several words, one after the other.
pub open spec fn word_records(words: Seq<Seq<char>>) -> Seq<u8>
    decreases words.len(),
{
    if words.len() == 0 {
        Seq::empty()
    } else {
        word_records(words.drop_last()) + word_record(words.last())
    }
}

/// The hasher input for a single word: the layout version, then the word's record.
pub open spec fn word_input(word: Seq<char>) -> Seq<u8> {
    seq![REDB_LAYOUT_VERSION] + word_record(word)
}

/// The hasher input for an ordered word sequence: the layout version, the
/// record of every word in order, then the number of words.
pub open spec fn sequence_input(words: Seq<Seq<char>>) -> Seq<u8> {
    seq![REDB_LAYOUT_VERSION] + word_records(words) + length_prefix(words.len())
}

/// The content hash of a word.
pub open spec fn word_digest(word: Seq<char>) -> [u8; 32] {
    blake3_digest(word_input(word))
}

/// The content hash of an ordered word sequence.
pub open spec fn sequence_digest(words: Seq<Seq<char>>) -> [u8; 32] {
    blake3_digest(sequence_input(words))
}

/// The views of a list of strings.
pub open spec fn texts(words: Seq<String>) -> Seq<Seq<char>> {
    words.map_values(|w: String| w@)
}

/// The views of a list of string slices.
pub open spec fn slice_texts(words: Seq<&str>) -> Seq<Seq<char>> {
    words.map_values(|w: &str| w@)
}

/// The pieces that splitting a text at Unicode whitespace leaves, in order.
pub uninterp spec fn whitespace_split(text: Seq<char>) -> Seq<Seq<char>>;

/// Calls `str::split_whitespace` and copies each piece into a `String`.
/// The pieces are a function of the text alone.
#[verifier::external_body]
fn split_whitespace(text: &str) -> (pieces: Vec<String>)
    ensures
        texts(pieces@) == whitespace_split(text@),
{
    text.split_whitespace().map(|piece| piece.to_owned()).collect()
}

/// What is left of `haystack` when every match of the regular expression
/// `pattern` is cut out of it; `None` when the pattern matches nowhere in
/// the haystack or cannot be compiled.
pub uninterp spec fn regex_removal(pattern: Seq<char>, haystack: Seq<char>) -> Option<Seq<char>>;

/// Compiles `pattern` with `regex::Regex::new` and calls
/// `Regex::replace_all` with the empty replacement. `replace_all` answers
/// with an owned string exactly when the pattern matched somewhere; that
/// string is handed on. The outcome is a function of pattern and haystack
/// alone. The pattern is compiled anew on every call.
#[verifier::external_body]
fn remove_matches(pattern: &str, haystack: &str) -> (changed: Option<String>)
    ensures
        changed is Some <==> regex_removal(pattern@, haystack@) is Some,
        changed matches Some(text) ==> regex_removal(pattern@, haystack@) == Some(text@),
{
    match regex::Regex::new(pattern) {
        Ok(compiled) => match compiled.replace_all(haystack, "") {
            std::borrow::Cow::Owned(text) => Some(text),
            std::borrow::Cow::Borrowed(_) => None,
        },
        Err(_) => None,
    }
}

/// A token after cleaning: each pattern is tried on the token as it came
/// in, and the last pattern that matches decides the result. A token that
/// no pattern matches stays as it is.
pub open spec fn cleaned(token: Seq<char>, patterns: Seq<Seq<char>>) -> Seq<char>
    decreases patterns.len(),
{
    if patterns.len() == 0 {
        token
    } else {
        match regex_removal(patterns.last(), token) {
            Some(text) => text,
            None => cleaned(token, patterns.drop_last()),
        }
    }
}

/// The tokens after cleaning, without those that cleaning left empty.
pub open spec fn cleaned_words(tokens: Seq<Seq<char>>, patterns: Seq<Seq<char>>) -> Seq<Seq<char>>
    decreases tokens.len(),
{
    if tokens.len() == 0 {
        Seq::empty()
    } else {
        let earlier = cleaned_words(tokens.drop_last(), patterns);
        let word = cleaned(tokens.last(), patterns);
        if word.len() > 0 {
            earlier.push(word)
        } else {
            earlier
        }
    }
}

/// The cleaned words of a sentence, in order.
pub open spec fn sentence_words(sentence: Seq<char>) -> Seq<Seq<char>> {
    cleaned_words(whitespace_split(sentence), slice_texts(GENERIC_WORD_GARBAGE_PATTERNS@))
}

/// Whether Unicode counts the character as alphabetic.
pub uninterp spec fn alphabetic(c: char) -> bool;

/// Calls `char::is_alphabetic`, which looks the character up in Unicode's
/// table of alphabetic characters.
#[verifier::external_body]
fn is_alphabetic(c: char) -> (yes: bool)
    ensures
        yes == alphabetic(c),
{
    c.is_alphabetic()
}

/// Collects characters into a `String` with `String::from_iter`: the string
/// holds exactly these characters in this order.
#[verifier::external_body]
fn string_of(chars: &Vec<char>) -> (text: String)
    ensures
        text@ == chars@,
{
    chars.iter().collect()
}

/// The text with its line breaks turned into spaces: every carriage return
/// that a line feed follows goes with that line feed into one space, and
/// every other line feed into a space of its own.
pub open spec fn unbroken(text: Seq<char>) -> Seq<char>
    decreases text.len(),
{
    if text.len() == 0 {
        Seq::empty()
    } else if text.len() >= 2 && text[0] == '\r' && text[1] == '\n' {
        seq![' '] + unbroken(text.skip(2))
    } else if text[0] == '\n' {
        seq![' '] + unbroken(text.skip(1))
    } else {
        seq![text[0]] + unbroken(text.skip(1))
    }
}

/// A character that ends a sentence.
pub open spec fn ends_sentence(c: char) -> bool {
    c == '.' || c == '!' || c == '?' || c == ';'
}

/// The pieces of `rest` when `current` is the piece begun so far: a piece
/// ends with the first sentence end it meets and includes it; what is left
/// at the end of the text is a piece too, unless it is empty.
pub open spec fn pieces_from(current: Seq<char>, rest: Seq<char>) -> Seq<Seq<char>>
    decreases rest.len(),
{
    if rest.len() == 0 {
        if current.len() == 0 {
            Seq::empty()
        } else {
            seq![current]
        }
    } else if ends_sentence(rest[0]) {
        seq![current.push(rest[0])] + pieces_from(Seq::empty(), rest.skip(1))
    } else {
        pieces_from(current.push(rest[0]), rest.skip(1))
    }
}

/// Some character of the text is alphabetic.
pub open spec fn has_alphabetic(text: Seq<char>) -> bool {
    exists|i: int| 0 <= i < text.len() && alphabetic(#[trigger] text[i])
}

/// The pieces that hold an alphabetic character, each cleaned with the
/// sentence patterns.
pub open spec fn cleaned_sentences(pieces: Seq<Seq<char>>) -> Seq<Seq<char>>
    decreases pieces.len(),
{
    if pieces.len() == 0 {
        Seq::empty()
    } else {
        let earlier = cleaned_sentences(pieces.drop_last());
        if has_alphabetic(pieces.last()) {
            earlier.push(cleaned(pieces.last(), slice_texts(GENERIC_SENTENCE_GARBAGE_PATTERNS@)))
        } else {
            earlier
        }
    }
}

/// The sentences of a text: line breaks become spaces, the text is cut
/// behind each sentence end, pieces without a letter are dropped, and the
/// others are cleaned with the sentence patterns.
pub open spec fn text_sentences(text: Seq<char>) -> Seq<Seq<char>> {
    cleaned_sentences(pieces_from(Seq::empty(), unbroken(text)))
}

/// The text utilities: hashing, cleaning and cutting.
pub struct Util;

impl Util {
    /// Appends `length_prefix(n)` to `buffer`.
    fn push_length(buffer: &mut Vec<u8>, n: usize)
        ensures
            final(buffer)@ == old(buffer)@ + length_prefix(n as nat),
    {
        let reduced: u64 = (n as u64) % 0x1_0000_0000u64;
        let bytes = u32_to_le_bytes(reduced as u32);
        proof {
            lemma_auto_spec_u32_to_from_le_bytes();
        }
        let ghost start = buffer@;
        let mut i: usize = 0;
        while i < 4
            invariant
                bytes@.len() == 4,
                i <= 4,
                buffer@ == start + bytes@.subrange(0, i as int),
            decreases 4 - i,
        {
            buffer.push(bytes[i]);
            i += 1;
        }
        assert(bytes@.subrange(0, 4) == bytes@);
    }

    /// Appends `word_record(word@)` to `buffer`.
    fn push_word(buffer: &mut Vec<u8>, word: &str)
        ensures
            final(buffer)@ == old(buffer)@ + word_record(word@),
    {
        let bytes = word.as_bytes();
        Self::push_length(buffer, bytes.len());
        let ghost start = buffer@;
        let mut i: usize = 0;
        while i < bytes.len()
            invariant
                i <= bytes@.len(),
                buffer@ == start + bytes@.subrange(0, i as int),
            decreases bytes@.len() - i,
        {
            buffer.push(bytes[i]);
            i += 1;
        }
        assert(bytes@.subrange(0, bytes@.len() as int) == bytes@);
    }

    /// The characters of a text.
    fn chars_of(text: &str) -> (chars: Vec<char>)
        ensures
            chars@ == text@,
    {
        let mut chars: Vec<char> = Vec::new();
        for c in it: text.chars()
            invariant
                it.seq() == text@,
                chars@ == it.seq().take(it.index() as int),
        {
            chars.push(c);
            assert(it.seq().take(it.index() + 1) == it.seq().take(it.index() as int).push(c));
        }
        assert(text@.take(text@.len() as int) == text@);
        chars
    }

    /// Turns the line breaks of a text into spaces.
    fn join_lines(text: &Vec<char>) -> (joined: Vec<char>)
        ensures
            joined@ == unbroken(text@),
    {
        let mut joined: Vec<char> = Vec::new();
        let mut i: usize = 0;
        assert(text@.skip(0) == text@);
        while i < text.len()
            invariant
                i <= text@.len(),
                unbroken(text@) == joined@ + unbroken(text@.skip(i as int)),
            decreases text@.len() - i,
        {
            let ghost rest = text@.skip(i as int);
            if text[i] == '\r' && i + 1 < text.len() && text[i + 1] == '\n' {
                joined.push(' ');
                proof {
                    assert(rest[0] == '\r' && rest[1] == '\n');
                    assert(rest.skip(2) == text@.skip(i as int + 2));
                }
                i += 2;
            } else {
                proof {
                    assert(rest[0] == text@[i as int]);
                    if rest.len() >= 2 {
                        assert(rest[1] == text@[i as int + 1]);
                    }
                    assert(rest.skip(1) == text@.skip(i as int + 1));
                }
                if text[i] == '\n' {
                    joined.push(' ');
                } else {
                    joined.push(text[i]);
                }
                i += 1;
            }
        }
        assert(unbroken(text@.skip(text@.len() as int)) == Seq::<char>::empty());
        joined
    }

    /// Whether some character of the text is alphabetic.
    fn any_alphabetic(text: &Vec<char>) -> (found: bool)
        ensures
            found == has_alphabetic(text@),
    {
        let mut i: usize = 0;
        while i < text.len()
            invariant
                i <= text@.len(),
                forall|j: int| 0 <= j < i ==> !alphabetic(#[trigger] text@[j]),
            decreases text@.len() - i,
        {
            if is_alphabetic(text[i]) {
                return true;
            }
            i += 1;
        }
        false
    }

    /// Adds the piece to the sentences if it holds a letter, cleaned with
    /// the sentence patterns.
    fn keep_sentence(sentences: &mut Vec<String>, piece: &Vec<char>)
        ensures
            texts(final(sentences)@) == if has_alphabetic(piece@) {
                texts(old(sentences)@).push(
                    cleaned(piece@, slice_texts(GENERIC_SENTENCE_GARBAGE_PATTERNS@)),
                )
            } else {
                texts(old(sentences)@)
            },
    {
        if Self::any_alphabetic(piece) {
            let raw = string_of(piece);
            let clean = Self::clean_token(raw.as_str(), GENERIC_SENTENCE_GARBAGE_PATTERNS.as_slice());
            let ghost before = sentences@;
            sentences.push(clean);
            assert(texts(sentences@) =~= texts(before).push(clean@));
        }
    }

    /// Cuts the text of a file into sentences. Line breaks count as spaces.
    /// A sentence ends with `.`, `!`, `?` or `;`, which stays with it; what
    /// follows the last of them is a sentence too. Pieces without any
    /// letter are dropped, the others are cleaned with the sentence
    /// patterns.
    pub fn sentences_from_file(text: &str) -> (sentences: Vec<String>)
        ensures
            texts(sentences@) == text_sentences(text@),
    {
        let chars = Self::join_lines(&Self::chars_of(text));
        let mut sentences: Vec<String> = Vec::new();
        let mut current: Vec<char> = Vec::new();
        let ghost mut done: Seq<Seq<char>> = Seq::empty();
        let mut i: usize = 0;
        proof {
            assert(chars@.skip(0) == chars@);
            assert(texts(sentences@) =~= cleaned_sentences(done));
        }
        while i < chars.len()
            invariant
                i <= chars@.len(),
                pieces_from(Seq::empty(), chars@) == done + pieces_from(
                    current@,
                    chars@.skip(i as int),
                ),
                texts(sentences@) == cleaned_sentences(done),
            decreases chars@.len() - i,
        {
            let c = chars[i];
            current.push(c);
            proof {
                let rest = chars@.skip(i as int);
                assert(rest[0] == c);
                assert(rest.skip(1) == chars@.skip(i as int + 1));
            }
            if c == '.' || c == '!' || c == '?' || c == ';' {
                Self::keep_sentence(&mut sentences, &current);
                proof {
                    let longer = done.push(current@);
                    assert(longer.drop_last() == done);
                    assert(done + (seq![current@] + pieces_from(Seq::empty(), chars@.skip(i as int + 1)))
                        =~= longer + pieces_from(Seq::empty(), chars@.skip(i as int + 1)));
                    done = longer;
                }
                current = Vec::new();
            }
            i += 1;
        }
        if current.len() > 0 {
            Self::keep_sentence(&mut sentences, &current);
            proof {
                let longer = done.push(current@);
                assert(longer.drop_last() == done);
                assert(done + seq![current@] =~= longer);
                done = longer;
            }
        } else {
            assert(done + Seq::<Seq<char>>::empty() =~= done);
        }
        sentences
    }

    /// Cleans a token with a list of regular expressions. Every pattern is
    /// applied to the token as it came in, with its matches cut out; the
    /// result is that of the last pattern that matched anywhere, or the
    /// token itself when none did.
    pub fn clean_token(token: &str, garbo_patterns: &[&str]) -> (clean: String)
        ensures
            clean@ == cleaned(token@, slice_texts(garbo_patterns@)),
    {
        let mut current_tok = token.to_owned();
        let mut i: usize = 0;
        while i < garbo_patterns.len()
            invariant
                i <= garbo_patterns@.len(),
                current_tok@ == cleaned(token@, slice_texts(garbo_patterns@).take(i as int)),
            decreases garbo_patterns@.len() - i,
        {
            proof {
                let done = slice_texts(garbo_patterns@).take(i as int + 1);
                assert(done.drop_last() == slice_texts(garbo_patterns@).take(i as int));
                assert(done.last() == garbo_patterns@[i as int]@);
            }
            match remove_matches(garbo_patterns[i], token) {
                Some(text) => {
                    current_tok = text;
                },
                None => {},
            }
            i += 1;
        }
        assert(slice_texts(garbo_patterns@).take(garbo_patterns@.len() as int) == slice_texts(
            garbo_patterns@,
        ));
        current_tok
    }

    /// Splits a sentence at whitespace, cleans each piece with the word
    /// patterns and drops the pieces that come out empty.
    pub fn words_of(sentence: &str) -> (words: Vec<String>)
        ensures
            texts(words@) == sentence_words(sentence@),
    {
        let pieces = split_whitespace(sentence);
        let mut words: Vec<String> = Vec::new();
        let mut i: usize = 0;
        while i < pieces.len()
            invariant
                i <= pieces@.len(),
                texts(words@) == cleaned_words(
                    texts(pieces@).take(i as int),
                    slice_texts(GENERIC_WORD_GARBAGE_PATTERNS@),
                ),
            decreases pieces@.len() - i,
        {
            proof {
                let done = texts(pieces@).take(i as int + 1);
                assert(done.drop_last() == texts(pieces@).take(i as int));
                assert(done.last() == pieces@[i as int]@);
            }
            let word = Self::clean_token(pieces[i].as_str(), GENERIC_WORD_GARBAGE_PATTERNS.as_slice());
            if !word.as_str().is_empty() {
                let ghost earlier = words@;
                words.push(word);
                assert(texts(words@) == texts(earlier).push(word@));
            }
            i += 1;
        }
        assert(texts(pieces@).take(pieces@.len() as int) == texts(pieces@));
        words
    }

    /// Hashes one word into a 256-bit digest. The hasher is fed the layout
    /// version, the word's byte length as 32 little-endian bits, and the
    /// word's bytes.
    pub fn hash_word(word: &str) -> (digest: [u8; 32])
        ensures
            digest == word_digest(word@),
    {
        let mut buffer: Vec<u8> = Vec::new();
        buffer.push(REDB_LAYOUT_VERSION);
        Self::push_word(&mut buffer, word);
        assert(buffer@ == word_input(word@));
        blake3_hash(buffer.as_slice())
    }

    /// Hashes an ordered sequence of words into a 256-bit digest. The hasher
    /// is fed the layout version, then each word as in `hash_word` (length
    /// first, so that `"ab", "c"` and `"a", "bc"` feed different bytes), then
    /// the number of words as 32 little-endian bits.
    pub fn hash_words(words: &[String]) -> (digest: [u8; 32])
        ensures
            digest == sequence_digest(texts(words@)),
    {
        let mut buffer: Vec<u8> = Vec::new();
        buffer.push(REDB_LAYOUT_VERSION);
        let mut i: usize = 0;
        while i < words.len()
            invariant
                i <= words@.len(),
                buffer@ == seq![REDB_LAYOUT_VERSION] + word_records(texts(words@).take(i as int)),
            decreases words@.len() - i,
        {
            Self::push_word(&mut buffer, words[i].as_str());
            proof {
                let done = texts(words@).take(i as int + 1);
                assert(done.drop_last() == texts(words@).take(i as int));
                assert(done.last() == words@[i as int]@);
            }
            i += 1;
        }
        assert(texts(words@).take(words@.len() as int) == texts(words@));
        Self::push_length(&mut buffer, words.len());
        blake3_hash(buffer.as_slice())
    }
}

} // verus!
