//! The in-memory tier of recent writes.
//!
//! A memtable maps keys to their most recently written values and can
//! enumerate its entries in ascending byte-lexicographic key order; the
//! coordinator is generic over the concrete implementation. Two
//! implementations are provided: one keeps its entries sorted by key, the
//! other unordered with a sort on enumeration.

use vstd::prelude::*;

use crate::codec::entries_map;
use crate::codec::entries_sorted;
use crate::codec::entry_views;
use crate::codec::keys_distinct;
use crate::codec::copy_bytes;
use crate::codec::lemma_entries_map_dom;
use crate::codec::lemma_entries_map_len;
use crate::codec::lemma_entries_map_value;
use crate::codec::lemma_sorted_keys_distinct;
use crate::keys::lex_lt;
use crate::keys::lemma_lex_lt_asymmetric;
use crate::keys::lemma_lex_lt_transitive;
use crate::keys::bytes_eq;
use crate::keys::key_compare;
use crate::keys::KeyOrder;

verus! {

/// The capability set of a memtable: create empty, write a key, read a key,
/// count distinct keys, and enumerate the entries sorted by key.
pub trait MemTable: Sized {
    /// The mapping from keys to their most recently written values.
    spec fn model(&self) -> Map<Seq<u8>, Seq<u8>>;

    /// Implementation-specific well-formedness.
    spec fn inv(&self) -> bool;

    /// A well-formed memtable holds finitely many keys.
    proof fn lemma_model_finite(&self)
        requires
            self.inv(),
        ensures
            self.model().dom().finite(),
    ;

    /// Creates an empty table.
    fn new() -> (r: Self)
        ensures
            r.inv(),
            r.model() == Map::<Seq<u8>, Seq<u8>>::empty(),
    ;

    /// Associates `value` with `key`, replacing any prior value. Writing the
    /// tombstone constant is an ordinary set; deletion is built on it.
    fn set(&mut self, key: Vec<u8>, value: Vec<u8>)
        requires
            old(self).inv(),
        ensures
            final(self).inv(),
            final(self).model() == old(self).model().insert(key@, value@),
    ;

    /// Returns the current value of `key`, or absent.
    fn get(&self, key: &Vec<u8>) -> (r: Option<&Vec<u8>>)
        requires
            self.inv(),
        ensures
            match r {
                Some(v) => self.model().dom().contains(key@) && v@ == self.model()[key@],
                None => !self.model().dom().contains(key@),
            },
    ;

    /// Returns the number of distinct keys currently stored.
    fn len(&self) -> (n: usize)
        requires
            self.inv(),
        ensures
            n == self.model().dom().len(),
    ;

    /// Returns the entries in ascending byte-lexicographic key order, with no
    /// duplicate keys.
    fn sorted_entries(&self) -> (r: Vec<(Vec<u8>, Vec<u8>)>)
        requires
            self.inv(),
        ensures
            entries_sorted(entry_views(r@)),
            keys_distinct(entry_views(r@)),
            entries_map(entry_views(r@)) == self.model(),
    ;
}

/// A memtable backed by a vector of entries kept sorted by key, with no
/// duplicate keys.
#[derive(Debug)]
pub struct VecMemTable {
    entries: Vec<(Vec<u8>, Vec<u8>)>,
}

impl VecMemTable {
    /// The entries as mathematical values.
    pub closed spec fn entry_seq(&self) -> Seq<(Seq<u8>, Seq<u8>)> {
        entry_views(self.entries@)
    }

    /// Finds the first position whose key is not below `key`: returns that
    /// position and whether it holds `key` itself.
    fn position_of(&self, key: &Vec<u8>) -> (r: (usize, bool))
        requires
            self.inv(),
        ensures
            ({
                let (i, found) = r;
                &&& i <= self.entry_seq().len()
                &&& forall|j: int| 0 <= j < i ==> lex_lt(#[trigger] self.entry_seq()[j].0, key@)
                &&& (found <==> i < self.entry_seq().len() && self.entry_seq()[i as int].0 == key@)
                &&& (!found && i < self.entry_seq().len() ==> lex_lt(
                    key@,
                    self.entry_seq()[i as int].0,
                ))
            }),
    {
        let ghost vs = self.entry_seq();
        let mut i: usize = 0;
        proof {
            assert(self.entries@.len() == self.entries.len());
        }
        while i < self.entries.len()
            invariant
                vs == self.entry_seq(),
                vs.len() == self.entries@.len() <= usize::MAX,
                i <= vs.len(),
                forall|j: int| 0 <= j < i ==> lex_lt(#[trigger] vs[j].0, key@),
            decreases vs.len() - i,
        {
            match key_compare(&self.entries[i].0, key) {
                KeyOrder::Less => {
                    proof {
                        assert(vs[i as int].0 == self.entries@[i as int].0@);
                    }
                    i = i + 1;
                },
                KeyOrder::Equal => {
                    return (i, true);
                },
                KeyOrder::Greater => {
                    proof {
                        if vs[i as int].0 == key@ {
                            lemma_lex_lt_asymmetric(key@, vs[i as int].0);
                        }
                    }
                    return (i, false);
                },
            }
        }
        (i, false)
    }
}

impl MemTable for VecMemTable {
    closed spec fn model(&self) -> Map<Seq<u8>, Seq<u8>> {
        entries_map(entry_views(self.entries@))
    }

    closed spec fn inv(&self) -> bool {
        entries_sorted(entry_views(self.entries@))
    }

    proof fn lemma_model_finite(&self) {
        lemma_sorted_keys_distinct(self.entry_seq());
        lemma_entries_map_len(self.entry_seq());
    }

    fn new() -> (r: Self) {
        let r = VecMemTable { entries: Vec::new() };
        proof {
            assert(entry_views(r.entries@) =~= Seq::<(Seq<u8>, Seq<u8>)>::empty());
        }
        r
    }

    fn set(&mut self, key: Vec<u8>, value: Vec<u8>) {
        let ghost vs = self.entry_seq();
        let ghost k = key@;
        let ghost v = value@;
        proof {
            lemma_sorted_keys_distinct(vs);
        }
        let (i, found) = self.position_of(&key);
        if found {
            self.entries.set(i, (key, value));
            proof {
                let vs2 = self.entry_seq();
                assert(vs2 =~= vs.update(i as int, (k, v)));
                assert(forall|a: int| 0 <= a < vs2.len() ==> (#[trigger] vs2[a]).0 == vs[a].0);
                assert(entries_sorted(vs2));
                lemma_sorted_keys_distinct(vs2);
                lemma_map_update(vs, vs2, k, v, i as int);
            }
        } else {
            self.entries.insert(i, (key, value));
            proof {
                let vs2 = self.entry_seq();
                assert(vs2 =~= vs.insert(i as int, (k, v)));
                vs.insert_ensures(i as int, (k, v));
                assert(vs2[i as int] == (k, v));
                assert forall|a: int, b: int| 0 <= a < b < vs2.len() implies lex_lt(
                    #[trigger] vs2[a].0,
                    #[trigger] vs2[b].0,
                ) by {
                    if a < i && b < i {
                        assert(vs2[a] == vs[a] && vs2[b] == vs[b]);
                    } else if a < i && b == i {
                        assert(vs2[a] == vs[a]);
                    } else if a < i && b > i {
                        assert(vs2[a] == vs[a] && vs2[b] == vs[b - 1]);
                        if b - 1 == i {
                            lemma_lex_lt_transitive(vs[a].0, k, vs2[b].0);
                        }
                    } else if a == i && b > i {
                        assert(vs2[b] == vs[b - 1]);
                        if b - 1 > i {
                            lemma_lex_lt_transitive(k, vs[i as int].0, vs[b - 1].0);
                        }
                    } else {
                        assert(vs2[a] == vs[a - 1] && vs2[b] == vs[b - 1]);
                    }
                }
                lemma_sorted_keys_distinct(vs2);
                lemma_map_insert(vs, vs2, k, v, i as int);
            }
        }
    }

    fn get(&self, key: &Vec<u8>) -> (r: Option<&Vec<u8>>) {
        let ghost vs = self.entry_seq();
        proof {
            lemma_sorted_keys_distinct(vs);
            lemma_entries_map_dom(vs, key@);
        }
        let (i, found) = self.position_of(key);
        if found {
            proof {
                lemma_entries_map_value(vs, i as int);
            }
            Some(&self.entries[i].1)
        } else {
            proof {
                if self.model().dom().contains(key@) {
                    let j = choose|j: int| 0 <= j < vs.len() && (#[trigger] vs[j].0) == key@;
                    if j < i {
                        lemma_lex_lt_asymmetric(vs[j].0, key@);
                    } else {
                        assert(i < vs.len());
                        if j > i {
                            lemma_lex_lt_transitive(key@, vs[i as int].0, vs[j].0);
                        }
                        lemma_lex_lt_asymmetric(key@, vs[j].0);
                    }
                }
            }
            None
        }
    }

    fn len(&self) -> (n: usize) {
        proof {
            lemma_sorted_keys_distinct(self.entry_seq());
            lemma_entries_map_len(self.entry_seq());
        }
        self.entries.len()
    }

    fn sorted_entries(&self) -> (r: Vec<(Vec<u8>, Vec<u8>)>) {
        let ghost vs = self.entry_seq();
        let mut r: Vec<(Vec<u8>, Vec<u8>)> = Vec::new();
        let mut i: usize = 0;
        proof {
            assert(self.entries@.len() == self.entries.len());
        }
        while i < self.entries.len()
            invariant
                vs == self.entry_seq(),
                vs.len() == self.entries@.len() <= usize::MAX,
                i <= vs.len(),
                r@.len() == i,
                forall|j: int|
                    0 <= j < i ==> (#[trigger] r@[j]).0@ == vs[j].0 && r@[j].1@ == vs[j].1,
            decreases vs.len() - i,
        {
            let key = copy_bytes(&self.entries[i].0);
            let value = copy_bytes(&self.entries[i].1);
            r.push((key, value));
            i = i + 1;
        }
        proof {
            assert(entry_views(r@) =~= vs);
            lemma_sorted_keys_distinct(vs);
        }
        r
    }
}

/// A memtable that keeps its entries unordered, as a hash-addressed table
/// would: lookups scan, writes replace in place or append, and enumeration
/// sorts. A hash table over byte-string keys offers nothing to verify
/// against, so the backing is a vector holding the same mapping — entries in
/// insertion order with no duplicate keys.
#[derive(Debug)]
pub struct HashMapMemTable {
    entries: Vec<(Vec<u8>, Vec<u8>)>,
}

impl HashMapMemTable {
    /// The entries as mathematical values.
    pub closed spec fn entry_seq(&self) -> Seq<(Seq<u8>, Seq<u8>)> {
        entry_views(self.entries@)
    }

    /// The position of the entry holding `key`, if one does.
    fn position_of(&self, key: &Vec<u8>) -> (r: Option<usize>)
        ensures
            match r {
                Some(i) => i < self.entry_seq().len() && self.entry_seq()[i as int].0 == key@,
                None => forall|j: int|
                    0 <= j < self.entry_seq().len() ==> (#[trigger] self.entry_seq()[j]).0 != key@,
            },
    {
        let ghost vs = self.entry_seq();
        let mut i: usize = 0;
        proof {
            assert(self.entries@.len() == self.entries.len());
        }
        while i < self.entries.len()
            invariant
                vs == self.entry_seq(),
                vs.len() == self.entries@.len() <= usize::MAX,
                i <= vs.len(),
                forall|j: int| 0 <= j < i ==> (#[trigger] vs[j]).0 != key@,
            decreases vs.len() - i,
        {
            if bytes_eq(&self.entries[i].0, key) {
                return Some(i);
            }
            i = i + 1;
        }
        None
    }
}

impl MemTable for HashMapMemTable {
    closed spec fn model(&self) -> Map<Seq<u8>, Seq<u8>> {
        entries_map(entry_views(self.entries@))
    }

    closed spec fn inv(&self) -> bool {
        keys_distinct(entry_views(self.entries@))
    }

    proof fn lemma_model_finite(&self) {
        lemma_entries_map_len(self.entry_seq());
    }

    fn new() -> (r: Self) {
        let r = HashMapMemTable { entries: Vec::new() };
        proof {
            assert(entry_views(r.entries@) =~= Seq::<(Seq<u8>, Seq<u8>)>::empty());
        }
        r
    }

    fn set(&mut self, key: Vec<u8>, value: Vec<u8>) {
        let ghost vs = self.entry_seq();
        let ghost k = key@;
        let ghost v = value@;
        match self.position_of(&key) {
            Some(i) => {
                self.entries.set(i, (key, value));
                proof {
                    let vs2 = self.entry_seq();
                    assert(vs2 =~= vs.update(i as int, (k, v)));
                    assert(forall|a: int| 0 <= a < vs2.len() ==> (#[trigger] vs2[a]).0 == vs[a].0);
                    assert(keys_distinct(vs2));
                    lemma_map_update(vs, vs2, k, v, i as int);
                }
            },
            None => {
                self.entries.push((key, value));
                proof {
                    let vs2 = self.entry_seq();
                    assert(vs2 =~= vs.push((k, v)));
                    assert(vs2.drop_last() =~= vs);
                    assert forall|a: int, b: int| 0 <= a < b < vs2.len() implies (
                    #[trigger] vs2[a]).0 != (#[trigger] vs2[b]).0 by {
                        if b < vs2.len() - 1 {
                            assert(vs2[a] == vs[a] && vs2[b] == vs[b]);
                        } else {
                            assert(vs2[a] == vs[a] && vs2[b] == (k, v));
                        }
                    }
                }
            },
        }
    }

    fn get(&self, key: &Vec<u8>) -> (r: Option<&Vec<u8>>) {
        proof {
            lemma_entries_map_dom(self.entry_seq(), key@);
        }
        match self.position_of(key) {
            Some(i) => {
                proof {
                    lemma_entries_map_value(self.entry_seq(), i as int);
                }
                Some(&self.entries[i].1)
            },
            None => None,
        }
    }

    fn len(&self) -> (n: usize) {
        proof {
            lemma_entries_map_len(self.entry_seq());
        }
        self.entries.len()
    }

    fn sorted_entries(&self) -> (r: Vec<(Vec<u8>, Vec<u8>)>) {
        let ghost vs = self.entry_seq();
        let mut sorted = VecMemTable::new();
        let mut i: usize = 0;
        proof {
            assert(self.entries@.len() == self.entries.len());
            assert(vs.take(0) =~= Seq::<(Seq<u8>, Seq<u8>)>::empty());
        }
        while i < self.entries.len()
            invariant
                vs == self.entry_seq(),
                vs.len() == self.entries@.len() <= usize::MAX,
                i <= vs.len(),
                sorted.inv(),
                sorted.model() == entries_map(vs.take(i as int)),
            decreases vs.len() - i,
        {
            let key = copy_bytes(&self.entries[i].0);
            let value = copy_bytes(&self.entries[i].1);
            sorted.set(key, value);
            proof {
                assert(vs.take(i + 1).drop_last() =~= vs.take(i as int));
                assert(vs.take(i + 1).last() == vs[i as int]);
            }
            i = i + 1;
        }
        proof {
            assert(vs.take(vs.len() as int) =~= vs);
        }
        sorted.sorted_entries()
    }
}

/// Replacing the entry at `i` (whose key is `k`) by `(k, v)` updates the
/// denoted map at `k` alone.
proof fn lemma_map_update(
    vs: Seq<(Seq<u8>, Seq<u8>)>,
    vs2: Seq<(Seq<u8>, Seq<u8>)>,
    k: Seq<u8>,
    v: Seq<u8>,
    i: int,
)
    requires
        keys_distinct(vs),
        keys_distinct(vs2),
        0 <= i < vs.len(),
        vs[i].0 == k,
        vs2 == vs.update(i, (k, v)),
    ensures
        entries_map(vs2) == entries_map(vs).insert(k, v),
{
    let m = entries_map(vs);
    let m2 = entries_map(vs2);
    assert forall|key: Seq<u8>| #![auto] m2.dom().contains(key) <==> m.insert(
        k,
        v,
    ).dom().contains(key) by {
        lemma_entries_map_dom(vs, key);
        lemma_entries_map_dom(vs2, key);
        if key == k {
            assert(vs2[i].0 == k);
        } else {
            if exists|j: int| 0 <= j < vs.len() && (#[trigger] vs[j].0) == key {
                let j = choose|j: int| 0 <= j < vs.len() && (#[trigger] vs[j].0) == key;
                assert(vs2[j].0 == key);
            }
            if exists|j: int| 0 <= j < vs2.len() && (#[trigger] vs2[j].0) == key {
                let j = choose|j: int| 0 <= j < vs2.len() && (#[trigger] vs2[j].0) == key;
                assert(vs[j].0 == key);
            }
        }
    }
    assert forall|key: Seq<u8>| #![auto] m2.dom().contains(key) implies m2[key] == m.insert(
        k,
        v,
    )[key] by {
        if key == k {
            lemma_entries_map_value(vs2, i);
        } else {
            lemma_entries_map_dom(vs2, key);
            let j = choose|j: int| 0 <= j < vs2.len() && (#[trigger] vs2[j].0) == key;
            lemma_entries_map_value(vs2, j);
            assert(vs[j] == vs2[j]);
            lemma_entries_map_value(vs, j);
        }
    }
    assert(m2 =~= m.insert(k, v));
}

/// Inserting a fresh entry `(k, v)` at position `i` inserts `k` into the
/// denoted map.
proof fn lemma_map_insert(
    vs: Seq<(Seq<u8>, Seq<u8>)>,
    vs2: Seq<(Seq<u8>, Seq<u8>)>,
    k: Seq<u8>,
    v: Seq<u8>,
    i: int,
)
    requires
        keys_distinct(vs),
        keys_distinct(vs2),
        0 <= i <= vs.len(),
        vs2 == vs.insert(i, (k, v)),
    ensures
        entries_map(vs2) == entries_map(vs).insert(k, v),
{
    let m = entries_map(vs);
    let m2 = entries_map(vs2);
    vs.insert_ensures(i, (k, v));
    assert forall|key: Seq<u8>| #![auto] m2.dom().contains(key) <==> m.insert(
        k,
        v,
    ).dom().contains(key) by {
        lemma_entries_map_dom(vs, key);
        lemma_entries_map_dom(vs2, key);
        if key == k {
            assert(vs2[i].0 == k);
        } else {
            if exists|j: int| 0 <= j < vs.len() && (#[trigger] vs[j].0) == key {
                let j = choose|j: int| 0 <= j < vs.len() && (#[trigger] vs[j].0) == key;
                if j < i {
                    assert(vs2[j].0 == key);
                } else {
                    assert(vs2[j + 1].0 == key);
                }
            }
            if exists|j: int| 0 <= j < vs2.len() && (#[trigger] vs2[j].0) == key {
                let j = choose|j: int| 0 <= j < vs2.len() && (#[trigger] vs2[j].0) == key;
                assert(j != i);
                if j < i {
                    assert(vs[j].0 == key);
                } else {
                    assert(vs[j - 1].0 == key);
                }
            }
        }
    }
    assert forall|key: Seq<u8>| #![auto] m2.dom().contains(key) implies m2[key] == m.insert(
        k,
        v,
    )[key] by {
        if key == k {
            lemma_entries_map_value(vs2, i);
        } else {
            lemma_entries_map_dom(vs2, key);
            let j = choose|j: int| 0 <= j < vs2.len() && (#[trigger] vs2[j].0) == key;
            lemma_entries_map_value(vs2, j);
            assert(j != i);
            if j < i {
                lemma_entries_map_value(vs, j);
            } else {
                assert(vs2[j] == vs[j - 1]);
                lemma_entries_map_value(vs, j - 1);
            }
        }
    }
    assert(m2 =~= m.insert(k, v));
}

} // verus!
