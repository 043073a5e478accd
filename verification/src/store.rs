//! The store façade.
//!
//! A `KVStore` owns one live memtable and one LSM coordinator. Writes go to
//! the live memtable; when it holds more than a threshold of keys it is
//! frozen and handed to the coordinator for a background flush. Reads consult
//! the live memtable, then the coordinator. Deletion writes the reserved
//! tombstone value; the façade is the one place that interprets it, mapping
//! it to absent.

use vstd::prelude::*;

use crate::codec::MAX_FIELD_LEN;
use crate::codec::copy_bytes;
use crate::errors::StoreError;
use crate::lsm::LSMTree;
use crate::lsm::files_map;
use crate::lsm::files_ok;
use crate::lsm::files_sorted;
use crate::lsm::file_ids;
use crate::lsm::lemma_union_insert_right;
use crate::lsm::map_entries_bounded;
use crate::lsm::table_ids;
use crate::lsm::tables_wf;
use crate::codec::entry_views;
use crate::codec::lemma_bytes_deep_view;
use crate::codec::map_get;
use crate::memtable::MemTable;
use crate::sstable::format_sstable_name;
use crate::sstable::index_of_name;
use crate::sstable::lemma_name_round_trip;
use crate::sstable::name_of_index;

verus! {

/// The live memtable is frozen and flushed once it holds more than this many
/// distinct keys.
pub const MAX_MEMTABLE_ELEMENTS: usize = 10_000;

/// The reserved 32-byte value that marks a key as deleted. Layers below the
/// façade store and move it like any value; the façade reports a key bound to
/// it as absent. A legitimate value equal to this constant is
/// indistinguishable from a deletion.
pub open spec fn tombstone() -> Seq<u8> {
    seq![
        179u8,
        210u8,
        155u8,
        16u8,
        110u8,
        229u8,
        104u8,
        202u8,
        72u8,
        124u8,
        209u8,
        13u8,
        85u8,
        192u8,
        56u8,
        71u8,
        239u8,
        10u8,
        116u8,
        199u8,
        186u8,
        205u8,
        163u8,
        143u8,
        3u8,
        43u8,
        125u8,
        16u8,
        157u8,
        22u8,
        47u8,
        244u8,
    ]
}

/// The tombstone constant as a value to write.
pub fn tombstone_value() -> (r: Vec<u8>)
    ensures
        r@ == tombstone(),
{
    let r: Vec<u8> = vec![
        179, 210, 155, 16, 110, 229, 104, 202, 72, 124, 209, 13, 85, 192, 56, 71, 239, 10, 116,
        199, 186, 205, 163, 143, 3, 43, 125, 16, 157, 22, 47, 244,
    ];
    proof {
        assert(r@ =~= tombstone());
    }
    r
}

/// Reports whether a stored value is the tombstone constant.
pub fn is_tombstone(v: &Vec<u8>) -> (r: bool)
    ensures
        r == (v@ == tombstone()),
{
    let t = tombstone_value();
    crate::keys::bytes_eq(v, &t)
}

/// What a read returns over the raw key-to-value mapping: the bound value,
/// except that a key bound to the tombstone is absent.
pub open spec fn lookup(m: Map<Seq<u8>, Seq<u8>>, key: Seq<u8>) -> Option<Seq<u8>> {
    if m.dom().contains(key) && m[key] != tombstone() {
        Some(m[key])
    } else {
        None
    }
}

/// The embedded key/value store: one live memtable over one LSM tree.
pub struct KVStore<T: MemTable> {
    memtable: T,
    lsm: LSMTree<T>,
}

impl<T: MemTable> KVStore<T> {
    /// The raw mapping from keys to their most recently written values,
    /// tombstones included: the disk tiers overlaid by the live memtable.
    pub closed spec fn raw_map(&self) -> Map<Seq<u8>, Seq<u8>> {
        self.lsm.lsm_map().union_prefer_right(self.memtable.model())
    }

    /// The mapping already handed off to the coordinator (its disk tables
    /// and pending-flush slot), without the live memtable.
    pub closed spec fn handed_off_map(&self) -> Map<Seq<u8>, Seq<u8>> {
        self.lsm.lsm_map()
    }

    /// The mapping held by the on-disk tables alone.
    pub closed spec fn durable_map(&self) -> Map<Seq<u8>, Seq<u8>> {
        self.lsm.disk_map()
    }

    /// Well-formedness.
    pub closed spec fn inv(&self) -> bool {
        &&& self.memtable.inv()
        &&& map_entries_bounded(self.memtable.model())
        &&& self.lsm.inv()
    }

    /// Room is left in the file-index space for more flushes.
    pub closed spec fn can_flush(&self) -> bool {
        self.lsm.can_flush()
    }

    /// The on-disk tables, by index and contents.
    pub closed spec fn table_id_multiset(&self) -> vstd::multiset::Multiset<(int, Seq<u8>)> {
        table_ids(self.lsm.tables@).to_multiset()
    }

    /// Opens a store over the files of its directory, given as
    /// `(name, contents)` pairs in any order. An empty listing opens an
    /// empty store; a listing with an ill-formed or duplicated name, or
    /// malformed contents, is rejected.
    pub fn new(files: Vec<(Vec<u8>, Vec<u8>)>) -> (r: Result<KVStore<T>, StoreError>)
        ensures
            match r {
                Ok(s) => {
                    &&& s.inv()
                    &&& files_ok(entry_views(files@))
                    &&& s.table_id_multiset() == file_ids(entry_views(files@)).to_multiset()
                    &&& (files@.len() == 0 ==> s.can_flush() && s.raw_map() == Map::<
                        Seq<u8>,
                        Seq<u8>,
                    >::empty())
                    &&& (files_sorted(entry_views(files@)) ==> s.raw_map() == files_map(
                        entry_views(files@),
                    ))
                },
                Err(e) => {
                    &&& !files_ok(entry_views(files@))
                    &&& (e == StoreError::InvalidFileName || e == StoreError::MalformedFile)
                },
            },
    {
        let lsm = match LSMTree::<T>::new(files) {
            Ok(lsm) => lsm,
            Err(e) => {
                return Err(e);
            },
        };
        let memtable = T::new();
        let s = KVStore { memtable, lsm };
        proof {
            assert(s.raw_map() =~= s.lsm.lsm_map());
            if s.lsm.tables@.len() == 0 {
                assert(s.lsm.pending_map() =~= Map::<Seq<u8>, Seq<u8>>::empty());
                assert(s.raw_map() =~= Map::<Seq<u8>, Seq<u8>>::empty());
            }
        }
        Ok(s)
    }

    /// Whether another flush can still be given a file index.
    pub fn index_space_left(&self) -> (r: bool)
        ensures
            r == self.can_flush(),
    {
        self.lsm.index_space_left()
    }

    /// Associates `value` with `key`. Any prior value is replaced; writing
    /// the tombstone constant is a valid set and makes the key read as
    /// absent. Rejects a key or value longer than 65 535 bytes, changing
    /// nothing. When the live memtable grows past the threshold it is frozen
    /// and handed off for flushing.
    pub fn set(&mut self, key: Vec<u8>, value: Vec<u8>) -> (r: Result<(), StoreError>)
        requires
            old(self).inv(),
            old(self).can_flush(),
            key@.len() >= 1,
        ensures
            final(self).inv(),
            match r {
                Ok(()) => {
                    &&& key@.len() <= MAX_FIELD_LEN && value@.len() <= MAX_FIELD_LEN
                    &&& final(self).raw_map() == old(self).raw_map().insert(key@, value@)
                },
                Err(e) => {
                    &&& e == StoreError::OversizedField
                    &&& key@.len() > MAX_FIELD_LEN || value@.len() > MAX_FIELD_LEN
                    &&& final(self).raw_map() == old(self).raw_map()
                    &&& *final(self) == *old(self)
                },
            },
    {
        if key.len() > MAX_FIELD_LEN || value.len() > MAX_FIELD_LEN {
            return Err(StoreError::OversizedField);
        }
        let ghost k = key@;
        let ghost v = value@;
        self.memtable.set(key, value);
        proof {
            lemma_union_insert_right(self.lsm.lsm_map(), old(self).memtable.model(), k, v);
        }
        if self.memtable.len() > MAX_MEMTABLE_ELEMENTS {
            let ghost before = self.raw_map();
            self.save_memtable();
            proof {
                assert(self.raw_map() == before);
            }
        }
        Ok(())
    }

    /// Deletes `key` by writing the tombstone value for it. Rejects a key
    /// longer than 65 535 bytes.
    pub fn delete(&mut self, key: &Vec<u8>) -> (r: Result<(), StoreError>)
        requires
            old(self).inv(),
            old(self).can_flush(),
            key@.len() >= 1,
        ensures
            final(self).inv(),
            match r {
                Ok(()) => {
                    &&& key@.len() <= MAX_FIELD_LEN
                    &&& final(self).raw_map() == old(self).raw_map().insert(key@, tombstone())
                },
                Err(e) => {
                    &&& e == StoreError::OversizedField
                    &&& key@.len() > MAX_FIELD_LEN
                    &&& final(self).raw_map() == old(self).raw_map()
                },
            },
    {
        let owned = copy_bytes(key);
        let value = tombstone_value();
        self.set(owned, value)
    }

    /// Returns the current value of `key`: the live memtable's answer first,
    /// then the coordinator's; a key whose current value is the tombstone is
    /// absent.
    pub fn get(&self, key: &Vec<u8>) -> (r: Option<Vec<u8>>)
        requires
            self.inv(),
        ensures
            r.deep_view() == lookup(self.raw_map(), key@),
    {
        match self.memtable.get(key) {
            Some(v) => {
                proof {
                    assert(self.raw_map().dom().contains(key@));
                    assert(self.raw_map()[key@] == v@);
                }
                if is_tombstone(v) {
                    None
                } else {
                    let out = copy_bytes(v);
                    proof {
                        lemma_bytes_deep_view(out);
                    }
                    Some(out)
                }
            },
            None => {
                proof {
                    assert(map_get(self.raw_map(), key@) == map_get(self.lsm.lsm_map(), key@));
                }
                match self.lsm.get(key) {
                    Some(v) => {
                        proof {
                            lemma_bytes_deep_view(v);
                            assert(self.lsm.lsm_map().dom().contains(key@));
                            assert(self.raw_map()[key@] == v@);
                        }
                        if is_tombstone(&v) {
                            None
                        } else {
                            Some(v)
                        }
                    },
                    None => None,
                }
            },
        }
    }

    /// Freezes the live memtable, hands it to the coordinator for flushing,
    /// and installs a fresh empty one. The flush barrier: everything written
    /// so far is now in the coordinator's tiers.
    pub fn save_memtable(&mut self)
        requires
            old(self).inv(),
            old(self).can_flush(),
        ensures
            final(self).inv(),
            final(self).raw_map() == old(self).raw_map(),
            final(self).handed_off_map() == old(self).raw_map(),
    {
        let mut frozen = T::new();
        core::mem::swap(&mut self.memtable, &mut frozen);
        self.lsm.save_memtable(frozen);
        proof {
            assert(self.raw_map() =~= old(self).raw_map());
            assert(self.handed_off_map() =~= old(self).raw_map());
        }
    }

    /// Joins the in-flight flush, if any: afterwards every frozen memtable
    /// has become an on-disk table.
    pub fn wait_for_threads(&mut self)
        requires
            old(self).inv(),
        ensures
            final(self).inv(),
            final(self).raw_map() == old(self).raw_map(),
            final(self).handed_off_map() == old(self).handed_off_map(),
            final(self).durable_map() == old(self).handed_off_map(),
    {
        self.lsm.wait_for_threads();
    }

    /// Closes the store: flushes the live memtable, joins the flush, and
    /// returns the directory's files as `(name, contents)` pairs in
    /// ascending name order. Opening a store over exactly these files yields
    /// the same mapping.
    pub fn close(self) -> (r: Vec<(Vec<u8>, Vec<u8>)>)
        requires
            self.inv(),
            self.can_flush(),
        ensures
            files_ok(entry_views(r@)),
            files_sorted(entry_views(r@)),
            files_map(entry_views(r@)) == self.raw_map(),
    {
        let mut this = self;
        this.save_memtable();
        this.lsm.wait_for_threads();
        let ghost ts = this.lsm.tables@;
        let mut files: Vec<(Vec<u8>, Vec<u8>)> = Vec::new();
        let mut i: usize = 0;
        proof {
            assert(this.lsm.tables@.len() == this.lsm.tables.len());
            assert(this.lsm.pending_map() =~= Map::<Seq<u8>, Seq<u8>>::empty());
            assert(this.lsm.lsm_map() =~= this.lsm.disk_map());
        }
        while i < this.lsm.tables.len()
            invariant
                ts == this.lsm.tables@,
                tables_wf(ts),
                ts.len() <= usize::MAX,
                i <= ts.len(),
                files@.len() == i,
                forall|m: int|
                    0 <= m < i ==> (#[trigger] files@[m]).0@ == name_of_index(ts[m].index as int)
                        && files@[m].1@ == ts[m].data@,
            decreases ts.len() - i,
        {
            let name = format_sstable_name(this.lsm.tables[i].index);
            let data = copy_bytes(&this.lsm.tables[i].data);
            files.push((name, data));
            i = i + 1;
        }
        proof {
            let fsv = entry_views(files@);
            assert(fsv.len() == ts.len());
            assert(forall|m: int|
                0 <= m < fsv.len() ==> (#[trigger] fsv[m]).0 == name_of_index(ts[m].index as int)
                    && fsv[m].1 == ts[m].data@);
            assert forall|m: int| 0 <= m < fsv.len() implies index_of_name((#[trigger] fsv[m]).0)
                == Some(ts[m].index as int) by {
                lemma_name_round_trip(ts[m].index as int);
            }
            assert(files_ok(fsv));
            assert(files_sorted(fsv));
            crate::lsm::lemma_tables_files_map(ts, fsv);
        }
        files
    }
}

} // verus!
