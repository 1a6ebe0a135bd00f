//! A secondary index: a set of `(sort value, digest)` keys with empty
//! payloads, kept in ascending key order.

use vstd::prelude::*;
use crate::order::{Digest, IndexKey, Relation, key_lt, key_relation, lemma_key_trichotomy};

verus! {

/// Every earlier key comes before every later one.
pub open spec fn strictly_ascending(keys: Seq<IndexKey>) -> bool {
    forall|i: int, j: int| 0 <= i < j < keys.len() ==> key_lt(#[trigger] keys[i], #[trigger] keys[j])
}

/// The number of rows that a query with this limit reads from `len` rows:
/// all of them when no limit is given.
pub open spec fn limited(len: nat, limit: Option<u32>) -> nat {
    match limit {
        Some(n) => if (n as nat) < len { n as nat } else { len },
        None => len,
    }
}

/// Two ascending key sequences that hold the same keys are the same sequence.
pub proof fn lemma_ascending_unique(a: Seq<IndexKey>, b: Seq<IndexKey>)
    requires
        strictly_ascending(a),
        strictly_ascending(b),
        a.to_set() == b.to_set(),
    ensures
        a == b,
    decreases a.len(),
{
    if a.len() == 0 {
        if b.len() > 0 {
            assert(b.to_set().contains(b[0]));
            assert(a.to_set().contains(b[0]));
        }
        assert(a =~= b);
    } else {
        let x = a.last();
        assert(a.to_set().contains(x));
        assert(b.to_set().contains(x));
        let j = choose|j: int| 0 <= j < b.len() && b[j] == x;
        // x is the greatest key of `a`, so nothing in `b` follows it.
        if j < b.len() - 1 {
            let y = b[j + 1];
            assert(key_lt(x, y));
            assert(b.to_set().contains(y));
            assert(a.to_set().contains(y));
            let k = choose|k: int| 0 <= k < a.len() && a[k] == y;
            if k < a.len() - 1 {
                assert(key_lt(a[k], a[a.len() - 1]));
            }
            lemma_key_trichotomy(x, y);
        }
        let a0 = a.drop_last();
        let b0 = b.drop_last();
        assert forall|k: IndexKey| a0.to_set().contains(k) <==> b0.to_set().contains(k) by {
            if a0.to_set().contains(k) {
                let i = choose|i: int| 0 <= i < a0.len() && a0[i] == k;
                assert(a[i] == k);
                assert(key_lt(a[i], a[a.len() - 1]));
                lemma_key_trichotomy(k, x);
                assert(a.to_set().contains(k));
                assert(b.to_set().contains(k));
                let m = choose|m: int| 0 <= m < b.len() && b[m] == k;
                assert(b0[m] == k);
            }
            if b0.to_set().contains(k) {
                let i = choose|i: int| 0 <= i < b0.len() && b0[i] == k;
                assert(b[i] == k);
                assert(key_lt(b[i], b[b.len() - 1]));
                lemma_key_trichotomy(k, x);
                assert(b.to_set().contains(k));
                assert(a.to_set().contains(k));
                let m = choose|m: int| 0 <= m < a.len() && a[m] == k;
                assert(a0[m] == k);
            }
        }
        assert(a0.to_set() =~= b0.to_set());
        lemma_ascending_unique(a0, b0);
        assert(a == a0.push(x));
        assert(b == b0.push(x));
    }
}

/// An ascending key sequence holds no key twice, so it is as long as the set
/// of its keys is large.
pub proof fn lemma_ascending_len(keys: Seq<IndexKey>)
    requires
        strictly_ascending(keys),
    ensures
        keys.no_duplicates(),
        keys.to_set().finite(),
        keys.to_set().len() == keys.len(),
{
    assert forall|i: int, j: int| 0 <= i < keys.len() && 0 <= j < keys.len() && i != j implies keys[i]
        != keys[j] by {
        lemma_key_trichotomy(keys[i], keys[j]);
        if i < j {
            assert(key_lt(keys[i], keys[j]));
        } else {
            assert(key_lt(keys[j], keys[i]));
        }
    }
    keys.unique_seq_to_set();
}

/// A limit of zero reads no row, a limit of at least the number of rows
/// reads them all, and so does no limit.
pub proof fn lemma_limit_boundaries(keys: Seq<IndexKey>, limit: u32)
    ensures
        keys.take(limited(keys.len(), Some(0u32)) as int) == Seq::<IndexKey>::empty(),
        limit >= keys.len() ==> keys.take(limited(keys.len(), Some(limit)) as int) == keys,
        keys.take(limited(keys.len(), None) as int) == keys,
        limited(keys.len(), Some(limit)) <= limit,
        limited(keys.len(), Some(limit)) <= keys.len(),
{
    assert(keys.take(0) =~= Seq::<IndexKey>::empty());
    assert(keys.take(keys.len() as int) =~= keys);
}

/// Read from its end, an ascending scan shows the highest sort values
/// first: no row is followed by one of a higher value.
pub proof fn lemma_reversed_is_descending(keys: Seq<IndexKey>)
    requires
        strictly_ascending(keys),
    ensures
        forall|i: int, j: int|
            0 <= i < j < keys.len() ==> (#[trigger] keys.reverse()[i]).0 >= (
            #[trigger] keys.reverse()[j]).0,
{
    assert forall|i: int, j: int| 0 <= i < j < keys.len() implies (#[trigger] keys.reverse()[i]).0 >= (
    #[trigger] keys.reverse()[j]).0 by {
        assert(key_lt(keys[keys.len() - 1 - j], keys[keys.len() - 1 - i]));
    }
}

/// A secondary index table.
pub struct IndexTable {
    entries: Vec<IndexKey>,
}

impl View for IndexTable {
    type V = Seq<IndexKey>;

    /// The keys in the order in which a scan of the table meets them.
    closed spec fn view(&self) -> Seq<IndexKey> {
        self.entries@
    }
}

impl IndexTable {
    /// The table is in ascending key order, lowest sort value first.
    pub open spec fn wf(&self) -> bool {
        strictly_ascending(self@)
    }

    /// The keys of the table as a set.
    pub open spec fn keys(&self) -> Set<IndexKey> {
        self@.to_set()
    }

    /// An empty table.
    pub fn new() -> (table: Self)
        ensures
            table@ == Seq::<IndexKey>::empty(),
            table.wf(),
    {
        IndexTable { entries: Vec::new() }
    }

    /// The number of rows.
    pub fn len(&self) -> (n: usize)
        ensures
            n == self@.len(),
    {
        self.entries.len()
    }

    /// The number of keys that come before `key`.
    fn lower_bound(&self, key: &IndexKey) -> (pos: usize)
        requires
            self.wf(),
        ensures
            pos <= self@.len(),
            forall|i: int| 0 <= i < pos ==> key_lt(#[trigger] self@[i], *key),
            forall|i: int| pos <= i < self@.len() ==> !key_lt(#[trigger] self@[i], *key),
    {
        let mut low: usize = 0;
        let mut high: usize = self.entries.len();
        while low < high
            invariant
                self.wf(),
                low <= high <= self@.len(),
                forall|i: int| 0 <= i < low ==> key_lt(#[trigger] self@[i], *key),
                forall|i: int| high <= i < self@.len() ==> !key_lt(#[trigger] self@[i], *key),
            decreases high - low,
        {
            let mid = low + (high - low) / 2;
            let r = key_relation(&self.entries[mid], key);
            if r == Relation::Before {
                assert forall|i: int| 0 <= i < mid + 1 implies key_lt(#[trigger] self@[i], *key) by {
                    if i < mid {
                        assert(key_lt(self@[i], self@[mid as int]));
                    }
                }
                low = mid + 1;
            } else {
                assert forall|i: int| mid <= i < self@.len() implies !key_lt(
                    #[trigger] self@[i],
                    *key,
                ) by {
                    if mid < i {
                        assert(key_lt(self@[mid as int], self@[i]));
                    }
                }
                high = mid;
            }
        }
        low
    }

    /// With `pos` keys before `key`, the key is in the table only at `pos`.
    proof fn lemma_absent_unless_at(&self, key: IndexKey, pos: int)
        requires
            self.wf(),
            0 <= pos <= self@.len(),
            forall|i: int| 0 <= i < pos ==> key_lt(#[trigger] self@[i], key),
            forall|i: int| pos <= i < self@.len() ==> !key_lt(#[trigger] self@[i], key),
        ensures
            self@.contains(key) <==> (pos < self@.len() && self@[pos] == key),
            forall|i: int| pos < i < self@.len() ==> key_lt(key, #[trigger] self@[i]),
    {
        assert forall|i: int| pos < i < self@.len() implies key_lt(key, #[trigger] self@[i]) by {
            lemma_key_trichotomy(key, self@[pos]);
            lemma_key_trichotomy(key, self@[i]);
            assert(key_lt(self@[pos], self@[i]));
        }
        if self@.contains(key) {
            let i = choose|i: int| 0 <= i < self@.len() && self@[i] == key;
            lemma_key_trichotomy(key, key);
            if i < pos {
                assert(key_lt(self@[i], key));
            }
            if i > pos {
                assert(key_lt(key, self@[i]));
            }
        }
    }

    /// Adds `key` to the table, keeping the order. A key that is already
    /// there is not added a second time. Returns whether the key is new.
    pub fn insert(&mut self, key: IndexKey) -> (fresh: bool)
        requires
            old(self).wf(),
        ensures
            final(self).wf(),
            final(self).keys() == old(self).keys().insert(key),
            fresh == !old(self)@.contains(key),
            final(self)@.len() == old(self)@.len() + if fresh { 1int } else { 0int },
    {
        let pos = self.lower_bound(&key);
        proof {
            self.lemma_absent_unless_at(key, pos as int);
        }
        if pos < self.entries.len() {
            let r = key_relation(&self.entries[pos], &key);
            if r == Relation::Same {
                assert(self.keys() =~= self.keys().insert(key));
                return false;
            }
        }
        let ghost before = self@;
        self.entries.insert(pos, key);
        proof {
            let after = self@;
            assert(after == before.insert(pos as int, key));
            assert forall|i: int, j: int| 0 <= i < j < after.len() implies key_lt(
                #[trigger] after[i],
                #[trigger] after[j],
            ) by {
                lemma_key_trichotomy(key, before[pos as int]);
                if j < pos {
                    assert(key_lt(before[i], before[j]));
                } else if j == pos {
                    assert(key_lt(before[i], key));
                } else if i < pos {
                    assert(key_lt(before[i], before[j - 1]));
                } else if i == pos {
                    assert(key_lt(key, before[j - 1]));
                } else {
                    assert(key_lt(before[i - 1], before[j - 1]));
                }
            }
            assert forall|k: IndexKey| after.to_set().contains(k) <==> before.to_set().insert(
                key,
            ).contains(k) by {
                if after.to_set().contains(k) {
                    let i = choose|i: int| 0 <= i < after.len() && after[i] == k;
                    if i < pos {
                        assert(before[i] == k);
                    } else if i > pos {
                        assert(before[i - 1] == k);
                    }
                }
                if before.to_set().contains(k) {
                    let i = choose|i: int| 0 <= i < before.len() && before[i] == k;
                    if i < pos {
                        assert(after[i] == k);
                    } else {
                        assert(after[i + 1] == k);
                    }
                }
                if k == key {
                    assert(after[pos as int] == k);
                }
            }
            assert(after.to_set() =~= before.to_set().insert(key));
        }
        true
    }

    /// Takes `key` out of the table, if it is there. Returns whether it was.
    pub fn remove(&mut self, key: &IndexKey) -> (found: bool)
        requires
            old(self).wf(),
        ensures
            final(self).wf(),
            final(self).keys() == old(self).keys().remove(*key),
            found == old(self)@.contains(*key),
            final(self)@.len() == old(self)@.len() - if found { 1int } else { 0int },
    {
        let pos = self.lower_bound(key);
        proof {
            self.lemma_absent_unless_at(*key, pos as int);
        }
        if pos >= self.entries.len() {
            assert(self.keys() =~= self.keys().remove(*key));
            return false;
        }
        let r = key_relation(&self.entries[pos], key);
        if r != Relation::Same {
            assert(self.keys() =~= self.keys().remove(*key));
            return false;
        }
        let ghost before = self@;
        self.entries.remove(pos);
        proof {
            let after = self@;
            assert(after == before.remove(pos as int));
            assert forall|i: int, j: int| 0 <= i < j < after.len() implies key_lt(
                #[trigger] after[i],
                #[trigger] after[j],
            ) by {
                let i0 = if i < pos { i } else { i + 1 };
                let j0 = if j < pos { j } else { j + 1 };
                assert(key_lt(before[i0], before[j0]));
            }
            assert forall|k: IndexKey| after.to_set().contains(k) <==> before.to_set().remove(
                *key,
            ).contains(k) by {
                if after.to_set().contains(k) {
                    let i = choose|i: int| 0 <= i < after.len() && after[i] == k;
                    let i0 = if i < pos { i } else { i + 1 };
                    assert(before[i0] == k);
                    lemma_key_trichotomy(k, *key);
                    if i0 < pos {
                        assert(key_lt(before[i0], before[pos as int]));
                    } else {
                        assert(key_lt(before[pos as int], before[i0]));
                    }
                }
                if before.to_set().contains(k) && k != *key {
                    let i = choose|i: int| 0 <= i < before.len() && before[i] == k;
                    if i < pos {
                        assert(after[i] == k);
                    } else {
                        assert(after[i - 1] == k);
                    }
                }
            }
            assert(after.to_set() =~= before.to_set().remove(*key));
        }
        true
    }

    /// Moves the entry of one record to a new sort value: the key under the
    /// old sort value, if there was one, is removed, and the key under the
    /// new sort value is inserted.
    pub fn update_entry(&mut self, old_sort_value: Option<u64>, new_sort_value: u64, hash: Digest)
        requires
            old(self).wf(),
        ensures
            final(self).wf(),
            final(self).keys() == match old_sort_value {
                Some(value) => old(self).keys().remove((value, hash)),
                None => old(self).keys(),
            }.insert((new_sort_value, hash)),
    {
        match old_sort_value {
            Some(value) => {
                self.remove(&(value, hash));
            },
            None => {},
        }
        self.insert((new_sort_value, hash));
    }

    /// The first rows of an ascending scan: lowest sort value first, ties in
    /// digest order, cut off after `limit` rows, or all rows when no limit is
    /// given. A caller that wants the highest values first reverses the
    /// result.
    pub fn top_n(&self, limit: Option<u32>) -> (rows: Vec<IndexKey>)
        ensures
            rows@ == self@.take(limited(self@.len(), limit) as int),
    {
        let total = self.entries.len();
        let count: usize = match limit {
            Some(n) => if (n as usize) < total { n as usize } else { total },
            None => total,
        };
        let mut rows: Vec<IndexKey> = Vec::new();
        let mut i: usize = 0;
        while i < count
            invariant
                i <= count <= self@.len(),
                rows@ == self@.take(i as int),
            decreases count - i,
        {
            rows.push(self.entries[i]);
            assert(self@.take(i as int + 1) == self@.take(i as int).push(self@[i as int]));
            i += 1;
        }
        rows
    }

    /// A table that holds the given keys.
    pub fn load(keys: &Vec<IndexKey>) -> (table: Self)
        ensures
            table.wf(),
            table.keys() == keys@.to_set(),
    {
        let mut table = Self::new();
        let mut i: usize = 0;
        assert(table.keys() =~= keys@.take(0).to_set());
        while i < keys.len()
            invariant
                i <= keys@.len(),
                table.wf(),
                table.keys() == keys@.take(i as int).to_set(),
            decreases keys@.len() - i,
        {
            table.insert(keys[i]);
            proof {
                let earlier = keys@.take(i as int);
                let done = keys@.take(i as int + 1);
                assert(done == earlier.push(keys@[i as int]));
                assert forall|k: IndexKey| done.to_set().contains(k) <==> earlier.to_set().insert(
                    keys@[i as int],
                ).contains(k) by {
                    if done.to_set().contains(k) {
                        let j = choose|j: int| 0 <= j < done.len() && done[j] == k;
                        if j < earlier.len() {
                            assert(earlier[j] == k);
                        }
                    }
                    if earlier.to_set().contains(k) {
                        let j = choose|j: int| 0 <= j < earlier.len() && earlier[j] == k;
                        assert(done[j] == k);
                    }
                    if k == keys@[i as int] {
                        assert(done[i as int] == k);
                    }
                }
                assert(done.to_set() =~= earlier.to_set().insert(keys@[i as int]));
            }
            i += 1;
        }
        assert(keys@.take(keys@.len() as int) == keys@);
        table
    }

    /// A copy of all keys, in the order of a scan.
    pub fn export(&self) -> (keys: Vec<IndexKey>)
        ensures
            keys@ == self@,
    {
        let keys = self.top_n(None);
        assert(self@.take(self@.len() as int) == self@);
        keys
    }
}

} // verus!
