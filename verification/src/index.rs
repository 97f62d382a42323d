//! The in-memory index: for each live key, the offset of its latest record.
//!
//! The entries are kept in a vector, strictly ascending by key in
//! lexicographic byte order, so that a lookup is a binary search and no key
//! occurs twice.

use vstd::prelude::*;

verus! {

/// Whether `a` and `b` hold the same bytes at every position below `n`.
pub open spec fn same_up_to(a: Seq<u8>, b: Seq<u8>, n: int) -> bool {
    forall|i: int| 0 <= i < n ==> a[i] == b[i]
}

/// Whether position `n` shows that `a` comes before `b`: they agree below `n`,
/// and there `a` ends while `b` goes on, or `a` holds the smaller byte.
pub open spec fn less_at(a: Seq<u8>, b: Seq<u8>, n: int) -> bool {
    &&& 0 <= n <= a.len()
    &&& n < b.len()
    &&& same_up_to(a, b, n)
    &&& (n == a.len() || a[n] < b[n])
}

/// Whether `a` comes before `b` in lexicographic byte order.
pub open spec fn key_less(a: Seq<u8>, b: Seq<u8>) -> bool {
    exists|n: int| less_at(a, b, n)
}

/// How two keys stand to each other.
#[derive(Debug, Clone, Copy, PartialEq, Eq)]
pub enum KeyOrder {
    Less,
    Equal,
    Greater,
}

/// No key comes before itself.
pub proof fn lemma_key_less_irreflexive(a: Seq<u8>)
    ensures
        !key_less(a, a),
{
}

/// A key that comes before a second, which comes before a third, comes before
/// the third.
pub proof fn lemma_key_less_transitive(a: Seq<u8>, b: Seq<u8>, c: Seq<u8>)
    requires
        key_less(a, b),
        key_less(b, c),
    ensures
        key_less(a, c),
{
    let n = choose|n: int| less_at(a, b, n);
    let m = choose|m: int| less_at(b, c, m);
    if n <= m {
        assert(less_at(a, c, n));
    } else {
        assert(less_at(a, c, m));
    }
}

/// Compares two keys in lexicographic byte order.
pub fn key_order(a: &[u8], b: &[u8]) -> (order: KeyOrder)
    ensures
        match order {
            KeyOrder::Less => key_less(a@, b@),
            KeyOrder::Equal => a@ == b@,
            KeyOrder::Greater => key_less(b@, a@),
        },
{
    let mut i: usize = 0;
    while i < a.len() && i < b.len()
        invariant
            i <= a.len(),
            i <= b.len(),
            same_up_to(a@, b@, i as int),
        decreases a.len() - i,
    {
        if a[i] < b[i] {
            assert(less_at(a@, b@, i as int));
            return KeyOrder::Less;
        }
        if a[i] > b[i] {
            assert(less_at(b@, a@, i as int));
            return KeyOrder::Greater;
        }
        i = i + 1;
    }
    if a.len() < b.len() {
        assert(less_at(a@, b@, i as int));
        KeyOrder::Less
    } else if a.len() > b.len() {
        assert(less_at(b@, a@, i as int));
        KeyOrder::Greater
    } else {
        assert(a@ =~= b@);
        KeyOrder::Equal
    }
}

/// One entry of the index.
struct Entry {
    key: Vec<u8>,
    offset: u64,
}

/// Whether the keys of the entries ascend strictly.
spec fn ascending(entries: Seq<Entry>) -> bool {
    forall|i: int, j: int|
        0 <= i < j < entries.len() ==> key_less(
            (#[trigger] entries[i]).key@,
            (#[trigger] entries[j]).key@,
        )
}

/// Whether some entry holds `key`.
spec fn holds(entries: Seq<Entry>, key: Seq<u8>) -> bool {
    exists|i: int| 0 <= i < entries.len() && (#[trigger] entries[i]).key@ == key
}

/// The position of an entry that holds `key`.
spec fn position(entries: Seq<Entry>, key: Seq<u8>) -> int {
    choose|i: int| 0 <= i < entries.len() && (#[trigger] entries[i]).key@ == key
}

/// The mapping that the entries stand for.
spec fn mapping(entries: Seq<Entry>) -> Map<Seq<u8>, u64> {
    Map::new(
        |key: Seq<u8>| holds(entries, key),
        |key: Seq<u8>| entries[position(entries, key)].offset,
    )
}

/// In ascending entries, the entry at `i` is the one that holds its key.
proof fn lemma_entry_is_mapped(entries: Seq<Entry>, i: int)
    requires
        ascending(entries),
        0 <= i < entries.len(),
    ensures
        holds(entries, entries[i].key@),
        position(entries, entries[i].key@) == i,
        mapping(entries).contains_key(entries[i].key@),
        mapping(entries)[entries[i].key@] == entries[i].offset,
{
    let key = entries[i].key@;
    let p = position(entries, key);
    lemma_key_less_irreflexive(key);
    if p < i {
        assert(key_less(entries[p].key@, entries[i].key@));
    } else if i < p {
        assert(key_less(entries[i].key@, entries[p].key@));
    }
}

/// The mapping from keys to offsets, ordered by key.
pub struct Index {
    entries: Vec<Entry>,
}

impl View for Index {
    type V = Map<Seq<u8>, u64>;

    closed spec fn view(&self) -> Map<Seq<u8>, u64> {
        mapping(self.entries@)
    }
}

impl Index {
    /// The invariant of the index: its keys ascend strictly, so none occurs
    /// twice. `new` establishes it and every method keeps it.
    pub closed spec fn wf(&self) -> bool {
        ascending(self.entries@)
    }

    /// An index without entries.
    pub fn new() -> (index: Index)
        ensures
            index.wf(),
            index@ == Map::<Seq<u8>, u64>::empty(),
    {
        let index = Index { entries: Vec::new() };
        assert(index@ =~= Map::<Seq<u8>, u64>::empty());
        index
    }

    /// The number of keys in the index.
    pub fn len(&self) -> (n: usize)
        requires
            self.wf(),
        ensures
            n == self@.dom().len(),
            self@.dom().finite(),
    {
        proof {
            lemma_mapping_len(self.entries@);
        }
        self.entries.len()
    }

    /// Finds where `key` is, or where it would have to be inserted.
    fn search(&self, key: &[u8]) -> (found: (bool, usize))
        requires
            self.wf(),
        ensures
            found.1 <= self.entries@.len(),
            found.0 ==> found.1 < self.entries@.len() && self.entries@[found.1 as int].key@ == key@,
            !found.0 ==> !holds(self.entries@, key@),
            !found.0 ==> forall|i: int|
                0 <= i < found.1 ==> key_less((#[trigger] self.entries@[i]).key@, key@),
            !found.0 ==> forall|i: int|
                found.1 <= i < self.entries@.len() ==> key_less(
                    key@,
                    (#[trigger] self.entries@[i]).key@,
                ),
    {
        let mut low: usize = 0;
        let mut high: usize = self.entries.len();
        while low < high
            invariant
                low <= high <= self.entries@.len(),
                ascending(self.entries@),
                forall|i: int| 0 <= i < low ==> key_less((#[trigger] self.entries@[i]).key@, key@),
                forall|i: int|
                    high <= i < self.entries@.len() ==> key_less(
                        key@,
                        (#[trigger] self.entries@[i]).key@,
                    ),
            decreases high - low,
        {
            let mid = low + (high - low) / 2;
            match key_order(self.entries[mid].key.as_slice(), key) {
                KeyOrder::Equal => {
                    return (true, mid);
                },
                KeyOrder::Less => {
                    assert forall|i: int| 0 <= i < mid + 1 implies key_less(
                        (#[trigger] self.entries@[i]).key@,
                        key@,
                    ) by {
                        if i < mid {
                            lemma_key_less_transitive(
                                self.entries@[i].key@,
                                self.entries@[mid as int].key@,
                                key@,
                            );
                        }
                    }
                    low = mid + 1;
                },
                KeyOrder::Greater => {
                    assert forall|i: int| mid <= i < self.entries@.len() implies key_less(
                        key@,
                        (#[trigger] self.entries@[i]).key@,
                    ) by {
                        if mid < i {
                            lemma_key_less_transitive(
                                key@,
                                self.entries@[mid as int].key@,
                                self.entries@[i].key@,
                            );
                        }
                    }
                    high = mid;
                },
            }
        }
        proof {
            lemma_key_less_irreflexive(key@);
            if holds(self.entries@, key@) {
                let p = position(self.entries@, key@);
                assert(self.entries@[p].key@ == key@);
            }
        }
        (false, low)
    }

    /// The offset stored for `key`, if the key is in the index.
    pub fn lookup(&self, key: &[u8]) -> (offset: Option<u64>)
        requires
            self.wf(),
        ensures
            offset == (if self@.contains_key(key@) {
                Some(self@[key@])
            } else {
                None
            }),
    {
        let (found, at) = self.search(key);
        if found {
            proof {
                lemma_entry_is_mapped(self.entries@, at as int);
            }
            Some(self.entries[at].offset)
        } else {
            None
        }
    }

    /// Stores `offset` for `key`, in place of what was stored for it before.
    pub fn upsert(&mut self, key: Vec<u8>, offset: u64)
        requires
            old(self).wf(),
        ensures
            final(self).wf(),
            final(self)@ == old(self)@.insert(key@, offset),
    {
        let ghost before = self.entries@;
        let (found, at) = self.search(key.as_slice());
        if found {
            self.entries[at].offset = offset;
            proof {
                let after = self.entries@;
                assert(after =~= before.remove(at as int).insert(at as int, after[at as int]));
                assert(ascending(after)) by {
                    assert forall|i: int, j: int| 0 <= i < j < after.len() implies key_less(
                        (#[trigger] after[i]).key@,
                        (#[trigger] after[j]).key@,
                    ) by {
                        assert(after[i].key@ == before[i].key@);
                        assert(after[j].key@ == before[j].key@);
                    }
                }
                lemma_mapping_after_upsert(before, after, at as int, true);
            }
        } else {
            self.entries.insert(at, Entry { key, offset });
            proof {
                let after = self.entries@;
                assert(ascending(after)) by {
                    assert forall|i: int, j: int| 0 <= i < j < after.len() implies key_less(
                        (#[trigger] after[i]).key@,
                        (#[trigger] after[j]).key@,
                    ) by {
                        if i < at && j > at {
                            assert(after[i] == before[i]);
                            assert(after[j] == before[j - 1]);
                            lemma_key_less_transitive(after[i].key@, key@, after[j].key@);
                        } else if i < at && j < at {
                            assert(after[i] == before[i]);
                            assert(after[j] == before[j]);
                        } else if i > at {
                            assert(after[i] == before[i - 1]);
                            assert(after[j] == before[j - 1]);
                        } else if i == at {
                            assert(after[j] == before[j - 1]);
                        } else {
                            assert(after[i] == before[i]);
                        }
                    }
                }
                lemma_mapping_after_upsert(before, after, at as int, false);
            }
        }
    }

    /// Takes `key` out of the index; an absent key changes nothing.
    pub fn remove(&mut self, key: &[u8])
        requires
            old(self).wf(),
        ensures
            final(self).wf(),
            final(self)@ == old(self)@.remove(key@),
    {
        let ghost before = self.entries@;
        let (found, at) = self.search(key);
        if found {
            self.entries.remove(at);
            proof {
                let after = self.entries@;
                assert(ascending(after)) by {
                    assert forall|i: int, j: int| 0 <= i < j < after.len() implies key_less(
                        (#[trigger] after[i]).key@,
                        (#[trigger] after[j]).key@,
                    ) by {
                        let i0 = if i < at { i } else { i + 1 };
                        let j0 = if j < at { j } else { j + 1 };
                        assert(after[i] == before[i0]);
                        assert(after[j] == before[j0]);
                    }
                }
                lemma_mapping_after_remove(before, after, at as int);
            }
        } else {
            assert(mapping(before) =~= mapping(before).remove(key@));
        }
    }
}

/// What the mapping is after the entry at `at` was replaced (where the key was
/// found) or a new entry was inserted there.
proof fn lemma_mapping_after_upsert(before: Seq<Entry>, after: Seq<Entry>, at: int, found: bool)
    requires
        ascending(before),
        ascending(after),
        0 <= at < after.len(),
        found ==> at < before.len() && before[at].key@ == after[at].key@ && after
            == before.remove(at).insert(at, after[at]),
        !found ==> at <= before.len() && !holds(before, after[at].key@) && after == before.insert(
            at,
            after[at],
        ),
    ensures
        mapping(after) == mapping(before).insert(after[at].key@, after[at].offset),
{
    let key = after[at].key@;
    let wanted = mapping(before).insert(key, after[at].offset);
    assert forall|k: Seq<u8>| mapping(after).contains_key(k) == wanted.contains_key(k) by {
        if holds(after, k) {
            let p = position(after, k);
            if p != at {
                let source = if found || p < at { p } else { p - 1 };
                assert(before[source] == after[p]);
            }
        }
        if holds(before, k) && k != key {
            let p = position(before, k);
            let target = if found || p < at { p } else { p + 1 };
            assert(after[target] == before[p]);
        }
        if k == key {
            assert(after[at].key@ == k);
        }
    }
    assert forall|k: Seq<u8>| mapping(after).contains_key(k) implies mapping(after)[k]
        == wanted[k] by {
        let p = position(after, k);
        lemma_entry_is_mapped(after, p);
        if p != at {
            let source = if found || p < at { p } else { p - 1 };
            assert(before[source] == after[p]);
            lemma_entry_is_mapped(before, source);
            lemma_entry_is_mapped(after, at);
        }
    }
    assert(mapping(after) =~= wanted);
}

/// What the mapping is after the entry at `at` was taken out.
proof fn lemma_mapping_after_remove(before: Seq<Entry>, after: Seq<Entry>, at: int)
    requires
        ascending(before),
        ascending(after),
        0 <= at < before.len(),
        after == before.remove(at),
    ensures
        mapping(after) == mapping(before).remove(before[at].key@),
{
    let key = before[at].key@;
    let wanted = mapping(before).remove(key);
    lemma_entry_is_mapped(before, at);
    assert forall|k: Seq<u8>| mapping(after).contains_key(k) == wanted.contains_key(k) by {
        if holds(after, k) {
            let p = position(after, k);
            let source = if p < at { p } else { p + 1 };
            assert(before[source] == after[p]);
            lemma_entry_is_mapped(before, source);
        }
        if holds(before, k) && k != key {
            let p = position(before, k);
            let target = if p < at { p } else { p - 1 };
            assert(after[target] == before[p]);
        }
    }
    assert forall|k: Seq<u8>| mapping(after).contains_key(k) implies mapping(after)[k]
        == wanted[k] by {
        let p = position(after, k);
        lemma_entry_is_mapped(after, p);
        let source = if p < at { p } else { p + 1 };
        assert(before[source] == after[p]);
        lemma_entry_is_mapped(before, source);
    }
    assert(mapping(after) =~= wanted);
}

/// Ascending entries stand for as many keys as there are entries.
proof fn lemma_mapping_len(entries: Seq<Entry>)
    requires
        ascending(entries),
    ensures
        mapping(entries).dom().finite(),
        mapping(entries).dom().len() == entries.len(),
    decreases entries.len(),
{
    if entries.len() == 0 {
        assert(mapping(entries).dom() =~= Set::<Seq<u8>>::empty());
    } else {
        let rest = entries.drop_last();
        let last = entries.last();
        lemma_mapping_len(rest);
        lemma_key_less_irreflexive(last.key@);
        assert(!holds(rest, last.key@)) by {
            if holds(rest, last.key@) {
                let p = position(rest, last.key@);
                assert(rest[p] == entries[p]);
                assert(key_less(entries[p].key@, entries[entries.len() - 1].key@));
            }
        }
        assert(mapping(entries).dom() =~= mapping(rest).dom().insert(last.key@)) by {
            assert forall|k: Seq<u8>| holds(entries, k) == (holds(rest, k) || k == last.key@) by {
                if holds(entries, k) {
                    let p = position(entries, k);
                    if p < rest.len() {
                        assert(rest[p] == entries[p]);
                    }
                }
                if holds(rest, k) {
                    let p = position(rest, k);
                    assert(rest[p] == entries[p]);
                }
                if k == last.key@ {
                    assert(entries[entries.len() - 1].key@ == k);
                }
            }
        }
    }
}

} // verus!
