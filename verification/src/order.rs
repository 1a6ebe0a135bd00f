//! The order in which digests and index keys are kept.
//!
//! A digest is read as a 256-bit big-endian number, which orders digests
//! exactly as a byte-by-byte comparison from the first byte does. An index
//! key is ordered by its sort value first and by its digest second.

use vstd::prelude::*;

verus! {

/// A 256-bit content hash.
pub type Digest = [u8; 32];

/// The key of a secondary index: the value the rows are ordered by, then the
/// content hash of the primary record it stands for.
pub type IndexKey = (u64, [u8; 32]);

/// The number that a byte string spells when read big-endian.
pub open spec fn be_value(bytes: Seq<u8>) -> nat
    decreases bytes.len(),
{
    if bytes.len() == 0 {
        0
    } else {
        be_value(bytes.drop_last()) * 256 + bytes.last() as nat
    }
}

/// `a` comes before `b`.
pub open spec fn digest_lt(a: Digest, b: Digest) -> bool {
    be_value(a@) < be_value(b@)
}

/// `a` comes before `b`: smaller sort value, or equal sort values and the
/// smaller digest.
pub open spec fn key_lt(a: IndexKey, b: IndexKey) -> bool {
    a.0 < b.0 || (a.0 == b.0 && digest_lt(a.1, b.1))
}

/// How the first of two values stands to the second.
#[derive(Clone, Copy, Debug, PartialEq, Eq, Structural)]
pub enum Relation {
    Before,
    Same,
    After,
}

/// Byte strings of one length that spell the same number are equal.
pub proof fn lemma_be_value_injective(a: Seq<u8>, b: Seq<u8>)
    requires
        a.len() == b.len(),
        be_value(a) == be_value(b),
    ensures
        a == b,
    decreases a.len(),
{
    if a.len() > 0 {
        lemma_be_value_injective(a.drop_last(), b.drop_last());
        assert(a == a.drop_last().push(a.last()));
        assert(b == b.drop_last().push(b.last()));
    } else {
        assert(a =~= b);
    }
}

/// Two byte strings of one length that agree before position `i` and differ
/// at `i` are ordered as their bytes at `i` are.
pub proof fn lemma_be_value_first_difference(a: Seq<u8>, b: Seq<u8>, i: int)
    requires
        a.len() == b.len(),
        0 <= i < a.len(),
        a.subrange(0, i) == b.subrange(0, i),
        a[i] < b[i],
    ensures
        be_value(a) < be_value(b),
    decreases a.len(),
{
    let n = a.len() as int;
    if i == n - 1 {
        assert(a.drop_last() == a.subrange(0, i));
        assert(b.drop_last() == b.subrange(0, i));
    } else {
        assert(a.drop_last().subrange(0, i) == a.subrange(0, i));
        assert(b.drop_last().subrange(0, i) == b.subrange(0, i));
        lemma_be_value_first_difference(a.drop_last(), b.drop_last(), i);
    }
}

/// Digests are equal exactly when neither comes before the other.
pub proof fn lemma_digest_trichotomy(a: Digest, b: Digest)
    ensures
        a == b <==> !digest_lt(a, b) && !digest_lt(b, a),
{
    if !digest_lt(a, b) && !digest_lt(b, a) {
        lemma_be_value_injective(a@, b@);
        assert(a =~= b);
    }
}

/// Index keys are equal exactly when neither comes before the other.
pub proof fn lemma_key_trichotomy(a: IndexKey, b: IndexKey)
    ensures
        a == b <==> !key_lt(a, b) && !key_lt(b, a),
{
    lemma_digest_trichotomy(a.1, b.1);
}

/// Compares two digests byte by byte from the front.
pub fn digest_relation(a: &Digest, b: &Digest) -> (r: Relation)
    ensures
        r == Relation::Before <==> digest_lt(*a, *b),
        r == Relation::Same <==> *a == *b,
        r == Relation::After <==> digest_lt(*b, *a),
{
    let mut i: usize = 0;
    while i < 32
        invariant
            i <= 32,
            a@.subrange(0, i as int) == b@.subrange(0, i as int),
        decreases 32 - i,
    {
        if a[i] < b[i] {
            proof {
                lemma_be_value_first_difference(a@, b@, i as int);
                lemma_digest_trichotomy(*a, *b);
            }
            return Relation::Before;
        }
        if a[i] > b[i] {
            proof {
                lemma_be_value_first_difference(b@, a@, i as int);
                lemma_digest_trichotomy(*a, *b);
            }
            return Relation::After;
        }
        assert(a@.subrange(0, i as int + 1) == a@.subrange(0, i as int).push(a@[i as int]));
        assert(b@.subrange(0, i as int + 1) == b@.subrange(0, i as int).push(b@[i as int]));
        i += 1;
    }
    proof {
        assert(a@.subrange(0, 32) == a@);
        assert(b@.subrange(0, 32) == b@);
        assert(*a =~= *b);
    }
    Relation::Same
}

/// Compares two index keys: by sort value, then by digest.
pub fn key_relation(a: &IndexKey, b: &IndexKey) -> (r: Relation)
    ensures
        r == Relation::Before <==> key_lt(*a, *b),
        r == Relation::Same <==> *a == *b,
        r == Relation::After <==> key_lt(*b, *a),
{
    if a.0 < b.0 {
        Relation::Before
    } else if a.0 > b.0 {
        Relation::After
    } else {
        digest_relation(&a.1, &b.1)
    }
}

} // verus!
