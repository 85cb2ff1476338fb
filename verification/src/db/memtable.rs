//! The in-memory write buffer: a sorted map from keys to values or
//! tombstones.
use crate::common::key_value::{clone_opt_value, opt_value_view, Key, Value};
use crate::common::order::{
    bytes_eq, bytes_lt, lemma_lex_asymmetric, lemma_lex_total, lemma_lex_transitive, lex_lt,
};
use vstd::prelude::*;

verus! {

/// Entries whose keys strictly increase in byte-wise order.
pub open spec fn sorted_entries(s: Seq<(Key, Option<Value>)>) -> bool {
    forall|i: int, j: int| 0 <= i < j < s.len() ==> lex_lt(#[trigger] s[i].0@, #[trigger] s[j].0@)
}

/// `k` is the key of some entry.
pub open spec fn has_key(s: Seq<(Key, Option<Value>)>, k: Seq<u8>) -> bool {
    exists|i: int| 0 <= i < s.len() && #[trigger] s[i].0@ == k
}

/// The map from keys to values (`None` for a tombstone) that the entries
/// describe.
pub open spec fn entries_map(s: Seq<(Key, Option<Value>)>) -> Map<Seq<u8>, Option<Seq<u8>>> {
    Map::new(
        |k: Seq<u8>| has_key(s, k),
        |k: Seq<u8>| opt_value_view(s[choose|i: int| 0 <= i < s.len() && #[trigger] s[i].0@ == k].1),
    )
}

/// In sorted entries, the entry at `i` is the only one with its key, and
/// the map gives its value.
pub proof fn lemma_entries_map_at(s: Seq<(Key, Option<Value>)>, i: int)
    requires
        sorted_entries(s),
        0 <= i < s.len(),
    ensures
        entries_map(s).contains_key(s[i].0@),
        entries_map(s)[s[i].0@] == opt_value_view(s[i].1),
        forall|j: int| 0 <= j < s.len() && #[trigger] s[j].0@ == s[i].0@ ==> j == i,
{
    let k = s[i].0@;
    assert(s[i].0@ == k);
    assert forall|j: int| 0 <= j < s.len() && #[trigger] s[j].0@ == s[i].0@ implies j == i by {
        if j < i {
            assert(lex_lt(s[j].0@, s[i].0@));
            lemma_lex_asymmetric(k, k);
        } else if j > i {
            assert(lex_lt(s[i].0@, s[j].0@));
            lemma_lex_asymmetric(k, k);
        }
    }
}

/// Replacing the value of the entry at `i` updates the map there.
proof fn lemma_entries_map_update(s: Seq<(Key, Option<Value>)>, i: int, e: (Key, Option<Value>))
    requires
        sorted_entries(s),
        0 <= i < s.len(),
        e.0@ == s[i].0@,
    ensures
        sorted_entries(s.update(i, e)),
        entries_map(s.update(i, e)) == entries_map(s).insert(e.0@, opt_value_view(e.1)),
{
    let t = s.update(i, e);
    assert(sorted_entries(t)) by {
        assert forall|a: int, b: int| 0 <= a < b < t.len() implies lex_lt(#[trigger] t[a].0@, #[trigger] t[b].0@) by {
            assert(lex_lt(s[a].0@, s[b].0@));
        }
    }
    lemma_entries_map_at(t, i);
    assert forall|k: Seq<u8>| has_key(t, k) <==> has_key(s, k) by {
        if has_key(s, k) {
            let j = choose|j: int| 0 <= j < s.len() && #[trigger] s[j].0@ == k;
            assert(t[j].0@ == k);
        }
        if has_key(t, k) {
            let j = choose|j: int| 0 <= j < t.len() && #[trigger] t[j].0@ == k;
            assert(s[j].0@ == k);
        }
    }
    assert forall|k: Seq<u8>| has_key(t, k) && k != e.0@ implies entries_map(t)[k] == entries_map(s)[k] by {
        let j = choose|j: int| 0 <= j < t.len() && #[trigger] t[j].0@ == k;
        assert(j != i);
        assert(s[j].0@ == k);
        lemma_entries_map_at(t, j);
        lemma_entries_map_at(s, j);
    }
    assert(entries_map(t) =~= entries_map(s).insert(e.0@, opt_value_view(e.1)));
}

/// Inserting an entry at the place its key sorts to adds it to the map.
proof fn lemma_entries_map_insert(s: Seq<(Key, Option<Value>)>, i: int, e: (Key, Option<Value>))
    requires
        sorted_entries(s),
        0 <= i <= s.len(),
        forall|j: int| 0 <= j < i ==> lex_lt(#[trigger] s[j].0@, e.0@),
        forall|j: int| i <= j < s.len() ==> lex_lt(e.0@, #[trigger] s[j].0@),
    ensures
        sorted_entries(s.insert(i, e)),
        entries_map(s.insert(i, e)) == entries_map(s).insert(e.0@, opt_value_view(e.1)),
{
    let t = s.insert(i, e);
    assert(sorted_entries(t)) by {
        assert forall|a: int, b: int| 0 <= a < b < t.len() implies lex_lt(#[trigger] t[a].0@, #[trigger] t[b].0@) by {
            if b < i {
                assert(lex_lt(s[a].0@, s[b].0@));
            } else if b == i {
            } else if a < i {
                assert(lex_lt(s[a].0@, e.0@));
                assert(lex_lt(e.0@, s[b - 1].0@));
                lemma_lex_transitive(s[a].0@, e.0@, s[b - 1].0@);
            } else if a == i {
            } else {
                assert(lex_lt(s[a - 1].0@, s[b - 1].0@));
            }
        }
    }
    lemma_entries_map_at(t, i);
    assert forall|k: Seq<u8>| has_key(t, k) <==> (has_key(s, k) || k == e.0@) by {
        if has_key(s, k) {
            let j = choose|j: int| 0 <= j < s.len() && #[trigger] s[j].0@ == k;
            if j < i {
                assert(t[j].0@ == k);
            } else {
                assert(t[j + 1].0@ == k);
            }
        }
        if k == e.0@ {
            assert(t[i].0@ == k);
        }
        if has_key(t, k) && k != e.0@ {
            let j = choose|j: int| 0 <= j < t.len() && #[trigger] t[j].0@ == k;
            if j < i {
                assert(s[j].0@ == k);
            } else {
                assert(s[j - 1].0@ == k);
            }
        }
    }
    assert forall|k: Seq<u8>| has_key(t, k) && k != e.0@ implies entries_map(t)[k] == entries_map(s)[k] by {
        let j = choose|j: int| 0 <= j < t.len() && #[trigger] t[j].0@ == k;
        lemma_entries_map_at(t, j);
        if j < i {
            lemma_entries_map_at(s, j);
        } else {
            assert(j != i);
            lemma_entries_map_at(s, j - 1);
        }
    }
    assert(entries_map(t) =~= entries_map(s).insert(e.0@, opt_value_view(e.1)));
}

/// An in-memory sorted structure representing a slice of the database state.
pub struct MemTable {
    entries: Vec<(Key, Option<Value>)>,
}

impl View for MemTable {
    type V = Map<Seq<u8>, Option<Seq<u8>>>;

    /// Each key maps to its value, or to `None` for a tombstone.
    closed spec fn view(&self) -> Map<Seq<u8>, Option<Seq<u8>>> {
        entries_map(self.entries@)
    }
}

impl MemTable {
    #[verifier::type_invariant]
    spec fn inv(self) -> bool {
        sorted_entries(self.entries@)
    }

    /// The entries in increasing key order.
    pub closed spec fn entries(self) -> Seq<(Key, Option<Value>)> {
        self.entries@
    }

    /// Creates a new, empty MemTable.
    pub fn new() -> (r: Self)
        ensures
            r@ == Map::<Seq<u8>, Option<Seq<u8>>>::empty(),
            r.entries().len() == 0,
    {
        let r = MemTable { entries: Vec::new() };
        assert(entries_map(r.entries@) =~= Map::<Seq<u8>, Option<Seq<u8>>>::empty());
        r
    }

    /// The position of `key`: every entry before it has a smaller key; the
    /// entry there, if any, has `key` when `found` and a greater key if not.
    fn locate(&self, key: &[u8]) -> (r: (bool, usize))
        ensures
            r.1 <= self.entries().len(),
            forall|j: int| 0 <= j < r.1 ==> lex_lt(#[trigger] self.entries()[j].0@, key@),
            r.0 ==> r.1 < self.entries().len() && self.entries()[r.1 as int].0@ == key@,
            !r.0 ==> forall|j: int| r.1 <= j < self.entries().len() ==> lex_lt(key@, #[trigger] self.entries()[j].0@),
    {
        proof {
            use_type_invariant(self);
        }
        let mut lo: usize = 0;
        let mut hi: usize = self.entries.len();
        while lo < hi
            invariant
                sorted_entries(self.entries@),
                lo <= hi <= self.entries@.len(),
                forall|j: int| 0 <= j < lo ==> lex_lt(#[trigger] self.entries@[j].0@, key@),
                forall|j: int| hi <= j < self.entries@.len() ==> !lex_lt(#[trigger] self.entries@[j].0@, key@),
            decreases hi - lo,
        {
            let mid = lo + (hi - lo) / 2;
            if bytes_lt(self.entries[mid].0.as_slice(), key) {
                proof {
                    assert forall|j: int| 0 <= j < mid + 1 implies lex_lt(#[trigger] self.entries@[j].0@, key@) by {
                        if j < mid {
                            lemma_lex_transitive(self.entries@[j].0@, self.entries@[mid as int].0@, key@);
                        }
                    }
                }
                lo = mid + 1;
            } else {
                proof {
                    assert forall|j: int| mid <= j < self.entries@.len() implies !lex_lt(#[trigger] self.entries@[j].0@, key@) by {
                        if j > mid && lex_lt(self.entries@[j].0@, key@) {
                            lemma_lex_transitive(self.entries@[mid as int].0@, self.entries@[j].0@, key@);
                        }
                    }
                }
                hi = mid;
            }
        }
        if lo < self.entries.len() && bytes_eq(self.entries[lo].0.as_slice(), key) {
            (true, lo)
        } else {
            proof {
                assert forall|j: int| lo <= j < self.entries@.len() implies lex_lt(key@, #[trigger] self.entries@[j].0@) by {
                    let x = self.entries@[j].0@;
                    if x == key@ {
                        if j > lo {
                            assert(lex_lt(self.entries@[lo as int].0@, x));
                        }
                    } else {
                        lemma_lex_total(x, key@);
                    }
                }
            }
            (false, lo)
        }
    }

    /// Sets `key` to `value` (a tombstone when `None`).
    fn set(&mut self, key: Key, value: Option<Value>)
        ensures
            final(self)@ == old(self)@.insert(key@, opt_value_view(value)),
    {
        proof {
            use_type_invariant(&*self);
        }
        let (found, idx) = self.locate(key.as_slice());
        let ghost k = key@;
        let ghost v = opt_value_view(value);
        let mut entries = Vec::new();
        std::mem::swap(&mut entries, &mut self.entries);
        if found {
            proof {
                lemma_entries_map_update(entries@, idx as int, (key, value));
            }
            entries.set(idx, (key, value));
        } else {
            proof {
                lemma_entries_map_insert(entries@, idx as int, (key, value));
            }
            entries.insert(idx, (key, value));
        }
        self.entries = entries;
    }

    /// Inserts a key-value pair into the MemTable.
    pub fn put(&mut self, key: Key, value: Value)
        ensures
            final(self)@ == old(self)@.insert(key@, Some(value@)),
    {
        self.set(key, Some(value));
    }

    /// Inserts a tombstone for the specified key.
    pub fn delete(&mut self, key: Key)
        ensures
            final(self)@ == old(self)@.insert(key@, None),
    {
        self.set(key, None);
    }

    /// Retrieves the value associated with the key.
    /// Returns `None` if the key is missing or if it has been deleted (tombstone).
    pub fn get(&self, key: &Key) -> (r: Option<Value>)
        ensures
            opt_value_view(r) == (if self@.contains_key(key@) {
                self@[key@]
            } else {
                None
            }),
    {
        proof {
            use_type_invariant(self);
        }
        let (found, idx) = self.locate(key.as_slice());
        if found {
            proof {
                lemma_entries_map_at(self.entries@, idx as int);
            }
            clone_opt_value(&self.entries[idx].1)
        } else {
            proof {
                if has_key(self.entries@, key@) {
                    let j = choose|j: int| 0 <= j < self.entries@.len() && #[trigger] self.entries@[j].0@ == key@;
                    if j < idx {
                        lemma_lex_asymmetric(key@, key@);
                    } else {
                        lemma_lex_asymmetric(key@, key@);
                    }
                }
            }
            None
        }
    }

    /// The number of entries, tombstones included.
    pub fn len(&self) -> (r: usize)
        ensures
            r == self.entries().len(),
    {
        self.entries.len()
    }

    /// The entries in increasing key order.
    pub fn as_slice(&self) -> (r: &[(Key, Option<Value>)])
        ensures
            r@ == self.entries(),
            sorted_entries(r@),
            self@ == entries_map(r@),
    {
        proof {
            use_type_invariant(self);
        }
        self.entries.as_slice()
    }
}

} // verus!
