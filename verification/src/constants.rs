//! Tunable constants shared by the analysis and the storage engine.

use vstd::prelude::*;

verus! {

/// Sentences with fewer cleaned words than this are left out of the ranking.
pub const WORDS_IN_SENTENCE_DISCARD_THRESHOLD: u64 = 3;

/// Patterns that clean one whitespace-separated token: surrounding
/// whitespace, then everything before the first letter or digit, then
/// everything after the last one.
pub const GENERIC_WORD_GARBAGE_PATTERNS: [&'static str; 3] = [
    r"(?u)^\s+|\s+$",
    r"(?u)^[^\p{L}\p{N}]+",
    r"(?u)[^\p{L}\p{N}]+$",
];

/// Patterns that clean one sentence: leading punctuation and whitespace and
/// trailing whitespace or punctuation other than a sentence end, then
/// bracketed footnote numbers, then a sentence made of nothing but digits,
/// punctuation and whitespace.
pub const GENERIC_SENTENCE_GARBAGE_PATTERNS: [&'static str; 3] = [
    r"(?u)^[\p{P}\s]+|[\p{P}&&[^.!?;]]\s*$|\s+$",
    r"\[\d+\]",
    r"(?u)^[\p{N}\p{P}\s]+$",
];

/// Language assumed when none is configured.
pub const DEFAULT_LANGUAGE: &'static str = "English";

/// Number of rows shown by a query when no limit is given on the command line.
pub const DEFAULT_TOP_N_LIMIT: u32 = 50;

/// Generation of the stored layout. It salts every content hash and is
/// compared with the version record of a store when the store is opened.
pub const REDB_LAYOUT_VERSION: u8 = 1;

} // verus!
