//! The LSM coordinator.
//!
//! It owns the list of on-disk tables in ascending index order, the
//! pending-flush slot holding a frozen memtable whose table is not yet
//! durable, and the monotonic index counter that names new files. A flush
//! serializes the frozen memtable into a new table; committing the table and
//! clearing the slot happen in one step, so no reader ever sees a state where
//! the memtable is gone but its table is not yet visible. When the list grows
//! past a threshold, compaction collapses it into a single table that keeps,
//! for every key, the value from the highest-indexed table holding it.

use vstd::prelude::*;

use crate::codec::MAX_FIELD_LEN;
use crate::codec::copy_bytes;
use crate::codec::decode_entries;
use crate::codec::entries_fit;
use crate::codec::entries_map;
use crate::codec::entries_sorted;
use crate::codec::entry_views;
use crate::codec::keys_distinct;
use crate::codec::keys_nonempty;
use crate::codec::lemma_entries_map_dom;
use crate::codec::lemma_entries_map_value;
use crate::codec::lemma_parse_encode_entries;
use crate::codec::lemma_parse_entries_fit;
use crate::codec::lemma_sorted_keys_distinct;
use crate::codec::map_get;
use crate::codec::parse_entries;
use crate::codec::serialize_values;
use crate::errors::StoreError;
use crate::keys::lex_lt;
use crate::keys::lemma_lex_lt_asymmetric;
use crate::keys::lemma_lex_lt_transitive;
use crate::keys::key_compare;
use crate::keys::KeyOrder;
use crate::memtable::MemTable;
use crate::sstable::MAX_SSTABLE_INDEX;
use crate::sstable::SSTable;
use crate::sstable::index_of_name;
use crate::sstable::parse_sstable_name;
use crate::sstable::table_bytes_wf;

verus! {

/// Compaction runs when a flush leaves more than this many tables on disk.
pub const COMPACT_THRESHOLD: usize = 32;

/// A mapping whose keys and values fit in records: keys non-empty and at most
/// 65 535 bytes, values at most 65 535 bytes.
pub open spec fn map_entries_bounded(m: Map<Seq<u8>, Seq<u8>>) -> bool {
    forall|k: Seq<u8>| #[trigger]
        m.dom().contains(k) ==> 1 <= k.len() <= MAX_FIELD_LEN && m[k].len() <= MAX_FIELD_LEN
}

/// The combined mapping of a list of tables, tables later in the list
/// overriding earlier ones.
pub open spec fn tables_map(ts: Seq<SSTable>) -> Map<Seq<u8>, Seq<u8>>
    decreases ts.len(),
{
    if ts.len() == 0 {
        Map::empty()
    } else {
        tables_map(ts.drop_last()).union_prefer_right(ts.last().as_map())
    }
}

/// No key occurs in two distinct tables of the list.
pub open spec fn tables_key_disjoint(ts: Seq<SSTable>) -> bool {
    forall|i: int, j: int, k: Seq<u8>|
        0 <= i < j < ts.len() && (#[trigger] ts[i].as_map().dom().contains(k)) ==> !(
        #[trigger] ts[j].as_map().dom().contains(k))
}

/// Every table is well-formed and indices are strictly increasing along the
/// list.
pub open spec fn tables_wf(ts: Seq<SSTable>) -> bool {
    &&& forall|i: int| 0 <= i < ts.len() ==> (#[trigger] ts[i]).wf()
    &&& forall|i: int, j: int| 0 <= i < j < ts.len() ==> ts[i].index < ts[j].index
}

/// The identity of a table for content comparisons: its index and bytes.
pub open spec fn table_id(t: SSTable) -> (int, Seq<u8>) {
    (t.index as int, t.data@)
}

/// The identity a directory file denotes: its parsed index and its bytes.
pub open spec fn file_id(f: (Seq<u8>, Seq<u8>)) -> (int, Seq<u8>) {
    (index_of_name(f.0).unwrap(), f.1)
}

/// The identities of a list of tables.
pub open spec fn table_ids(ts: Seq<SSTable>) -> Seq<(int, Seq<u8>)> {
    ts.map_values(|t: SSTable| table_id(t))
}

/// The identities of a directory listing.
pub open spec fn file_ids(fs: Seq<(Seq<u8>, Seq<u8>)>) -> Seq<(int, Seq<u8>)> {
    fs.map_values(|f: (Seq<u8>, Seq<u8>)| file_id(f))
}

/// A usable directory listing: every file name parses, no two files share an
/// index, and every file's contents are well-formed table bytes.
pub open spec fn files_ok(fs: Seq<(Seq<u8>, Seq<u8>)>) -> bool {
    &&& forall|i: int| 0 <= i < fs.len() ==> index_of_name((#[trigger] fs[i]).0) is Some
    &&& forall|i: int, j: int|
        0 <= i < j < fs.len() ==> index_of_name(fs[i].0) != index_of_name(fs[j].0)
    &&& forall|i: int| 0 <= i < fs.len() ==> table_bytes_wf((#[trigger] fs[i]).1)
}

/// Some table in the list carries index `x`.
pub open spec fn has_index(ts: Seq<SSTable>, x: u32) -> bool {
    exists|i: int| 0 <= i < ts.len() && (#[trigger] ts[i]).index == x
}

/// The file names of `fs` are sorted in strictly ascending index order.
pub open spec fn files_sorted(fs: Seq<(Seq<u8>, Seq<u8>)>) -> bool {
    forall|i: int, j: int|
        0 <= i < j < fs.len() ==> index_of_name(fs[i].0).unwrap() < index_of_name(
            fs[j].0,
        ).unwrap()
}

/// The LSM coordinator.
pub struct LSMTree<T: MemTable> {
    /// On-disk tables, ascending by index; the order of the list is the
    /// order of the file names.
    pub tables: Vec<SSTable>,
    /// The frozen memtable whose flush is in flight, with the index of the
    /// file it will become.
    pub pending: Option<(u32, T)>,
    /// How many table indices have been assigned; the next file gets this
    /// index. Never reused, so a higher index is always logically newer.
    pub next_index: u32,
    /// Everything ever handed to the disk tier: the contents found at
    /// construction overlaid with every frozen memtable since, newest write
    /// winning.
    pub frozen: Ghost<Map<Seq<u8>, Seq<u8>>>,
}

impl<T: MemTable> LSMTree<T> {
    /// The mapping held by the on-disk tables alone.
    pub open spec fn disk_map(&self) -> Map<Seq<u8>, Seq<u8>> {
        tables_map(self.tables@)
    }

    /// The mapping held by the pending-flush slot.
    pub open spec fn pending_map(&self) -> Map<Seq<u8>, Seq<u8>> {
        match self.pending {
            Some((_, ref m)) => m.model(),
            None => Map::empty(),
        }
    }

    /// The whole mapping this tier answers for: disk overlaid by the
    /// pending-flush slot.
    pub open spec fn lsm_map(&self) -> Map<Seq<u8>, Seq<u8>> {
        self.disk_map().union_prefer_right(self.pending_map())
    }

    /// Well-formedness.
    pub open spec fn inv(&self) -> bool {
        &&& tables_wf(self.tables@)
        &&& forall|i: int| 0 <= i < self.tables@.len() ==> (#[trigger] self.tables@[i]).index
            < self.next_index
        &&& self.next_index <= MAX_SSTABLE_INDEX
        &&& match self.pending {
            Some((idx, ref m)) => {
                &&& m.inv()
                &&& map_entries_bounded(m.model())
                &&& idx < self.next_index
                &&& forall|i: int| 0 <= i < self.tables@.len() ==> (
                #[trigger] self.tables@[i]).index < idx
            },
            None => true,
        }
        &&& self.frozen@ == self.lsm_map()
    }

    /// Room is left for another table index.
    pub open spec fn can_flush(&self) -> bool {
        self.next_index < MAX_SSTABLE_INDEX
    }
}

/// The combined mapping of a directory listing's files, in the given order,
/// later files overriding earlier ones.
pub open spec fn files_map(fs: Seq<(Seq<u8>, Seq<u8>)>) -> Map<Seq<u8>, Seq<u8>>
    decreases fs.len(),
{
    if fs.len() == 0 {
        Map::empty()
    } else {
        files_map(fs.drop_last()).union_prefer_right(
            entries_map(parse_entries(fs.last().1).unwrap()),
        )
    }
}

/// Tables holding exactly the files' bytes, in the same order, denote the
/// files' combined mapping.
pub proof fn lemma_tables_files_map(ts: Seq<SSTable>, fs: Seq<(Seq<u8>, Seq<u8>)>)
    requires
        ts.len() == fs.len(),
        forall|m: int| 0 <= m < ts.len() ==> (#[trigger] ts[m]).data@ == fs[m].1,
    ensures
        tables_map(ts) == files_map(fs),
    decreases ts.len(),
{
    if ts.len() > 0 {
        assert(forall|m: int| 0 <= m < ts.len() - 1 ==> (#[trigger] ts.drop_last()[m]).data@
            == fs.drop_last()[m].1);
        lemma_tables_files_map(ts.drop_last(), fs.drop_last());
        assert(ts.last().data@ == fs.last().1);
    }
}

impl<T: MemTable> LSMTree<T> {
    /// Builds a coordinator over the files of a store directory, given as
    /// `(name, contents)` pairs in any order. Installs each file as a table,
    /// ordered by the index its name encodes, and continues numbering above
    /// the highest index found. Rejects the listing when a name is not a
    /// well-formed table name, two names encode one index, or a file's
    /// contents are malformed.
    pub fn new(files: Vec<(Vec<u8>, Vec<u8>)>) -> (r: Result<LSMTree<T>, StoreError>)
        ensures
            match r {
                Ok(t) => {
                    &&& t.inv()
                    &&& t.pending is None
                    &&& files_ok(entry_views(files@))
                    &&& table_ids(t.tables@).to_multiset() == file_ids(
                        entry_views(files@),
                    ).to_multiset()
                    &&& t.tables@.len() == files@.len()
                    &&& t.next_index as int == (if t.tables@.len() == 0 {
                        0
                    } else {
                        t.tables@.last().index + 1
                    })
                    &&& (files_sorted(entry_views(files@)) ==> {
                        &&& (forall|m: int|
                            0 <= m < files@.len() ==> (#[trigger] t.tables@[m]).index as int
                                == index_of_name(entry_views(files@)[m].0).unwrap()
                                && t.tables@[m].data@ == entry_views(files@)[m].1)
                        &&& t.disk_map() == files_map(entry_views(files@))
                        &&& t.lsm_map() == files_map(entry_views(files@))
                    })
                },
                Err(e) => {
                    &&& !files_ok(entry_views(files@))
                    &&& (e == StoreError::InvalidFileName || e == StoreError::MalformedFile)
                },
            },
    {
        let ghost fsv = entry_views(files@);
        let mut tables: Vec<SSTable> = Vec::new();
        let mut i: usize = 0;
        proof {
            assert(files@.len() == files.len());
            assert(table_ids(tables@) =~= Seq::<(int, Seq<u8>)>::empty());
            assert(file_ids(fsv.take(0)) =~= Seq::<(int, Seq<u8>)>::empty());
            assert(table_ids(tables@).to_multiset() =~= file_ids(fsv.take(0)).to_multiset());
        }
        while i < files.len()
            invariant
                fsv == entry_views(files@),
                fsv.len() == files@.len() <= usize::MAX,
                i <= fsv.len(),
                tables_wf(tables@),
                tables@.len() == i,
                table_ids(tables@).to_multiset() == file_ids(fsv.take(i as int)).to_multiset(),
                forall|j: int|
                    0 <= j < i ==> index_of_name((#[trigger] fsv[j]).0) is Some
                        && table_bytes_wf(fsv[j].1),
                forall|j1: int, j2: int|
                    0 <= j1 < j2 < i ==> index_of_name(fsv[j1].0) != index_of_name(fsv[j2].0),
                forall|j: int|
                    0 <= j < i ==> has_index(
                        tables@,
                        index_of_name((#[trigger] fsv[j]).0).unwrap() as u32,
                    ),
                forall|x: u32| #[trigger]
                    has_index(tables@, x) ==> exists|j: int|
                        0 <= j < i && index_of_name((#[trigger] fsv[j]).0) == Some(x as int),
                files_sorted(fsv) ==> (forall|m: int|
                    0 <= m < i ==> (#[trigger] tables@[m]).index as int == index_of_name(
                        fsv[m].0,
                    ).unwrap() && tables@[m].data@ == fsv[m].1),
            decreases fsv.len() - i,
        {
            let ghost tables0 = tables@;
            let index = match parse_sstable_name(&files[i].0) {
                Some(index) => index,
                None => {
                    proof {
                        assert(index_of_name(fsv[i as int].0) is None);
                    }
                    return Err(StoreError::InvalidFileName);
                },
            };
            let data = copy_bytes(&files[i].1);
            let table = match SSTable::new(index, data) {
                Ok(table) => table,
                Err(_) => {
                    proof {
                        assert(!table_bytes_wf(fsv[i as int].1));
                    }
                    return Err(StoreError::MalformedFile);
                },
            };
            let ghost tid = table_id(table);
            if !insert_table(&mut tables, table) {
                proof {
                    let j = choose|j: int|
                        0 <= j < i && index_of_name((#[trigger] fsv[j]).0) == Some(index as int);
                    assert(index_of_name(fsv[j].0) == index_of_name(fsv[i as int].0));
                    assert(!files_ok(fsv));
                }
                return Err(StoreError::InvalidFileName);
            }
            proof {
                assert(fsv.take(i + 1).drop_last() =~= fsv.take(i as int));
                assert(fsv.take(i + 1).last() == fsv[i as int]);
                assert(file_ids(fsv.take(i + 1)) =~= file_ids(fsv.take(i as int)).push(
                    file_id(fsv[i as int]),
                ));
                assert(file_id(fsv[i as int]) == tid);
                broadcast use vstd::seq_lib::to_multiset_build;

                assert(table_ids(tables@).to_multiset() == file_ids(fsv.take(i + 1)).to_multiset());
                assert forall|j1: int, j2: int| 0 <= j1 < j2 < i + 1 implies index_of_name(
                    fsv[j1].0,
                ) != index_of_name(fsv[j2].0) by {
                    if j2 == i {
                        assert(has_index(tables0, index_of_name(fsv[j1].0).unwrap() as u32));
                    }
                }
                assert forall|j: int| 0 <= j < i + 1 implies has_index(
                    tables@,
                    index_of_name((#[trigger] fsv[j]).0).unwrap() as u32,
                ) by {
                    if j < i {
                        assert(has_index(tables0, index_of_name(fsv[j].0).unwrap() as u32));
                    }
                }
                if files_sorted(fsv) {
                    assert forall|m: int| 0 <= m < tables0.len() implies (
                    #[trigger] tables0[m]).index < index by {
                        assert(tables0[m].index as int == index_of_name(fsv[m].0).unwrap());
                    }
                    assert(tables@ == tables0.push(table));
                }
            }
            i = i + 1;
        }
        let next_index = if tables.len() == 0 {
            0
        } else {
            tables[tables.len() - 1].index + 1
        };
        proof {
            assert(fsv.take(fsv.len() as int) =~= fsv);
        }
        let result = LSMTree {
            tables,
            pending: None::<(u32, T)>,
            next_index,
            frozen: Ghost(Map::empty()),
        };
        let result = LSMTree { frozen: Ghost(result.lsm_map()), ..result };
        proof {
            assert(result.pending_map() =~= Map::<Seq<u8>, Seq<u8>>::empty());
            assert(result.lsm_map() =~= result.disk_map());
            assert forall|m: int| 0 <= m < result.tables@.len() implies (
            #[trigger] result.tables@[m]).index < result.next_index by {
                if m < result.tables@.len() - 1 {
                    assert(result.tables@[m].index < result.tables@.last().index);
                }
            }
            if files_sorted(fsv) {
                lemma_tables_files_map(result.tables@, fsv);
            }
        }
        Ok(result)
    }
}

impl<T: MemTable> LSMTree<T> {
    /// Joins the in-flight flush, if one is pending: serializes the frozen
    /// memtable's sorted entries into a new table and, in one step, appends
    /// the table to the list and clears the pending slot — no observer sees
    /// the slot empty before its table is visible. Runs compaction when the
    /// list has grown past the threshold.
    pub fn wait_for_threads(&mut self)
        requires
            old(self).inv(),
        ensures
            final(self).inv(),
            final(self).pending is None,
            final(self).disk_map() == old(self).lsm_map(),
            final(self).lsm_map() == old(self).lsm_map(),
            final(self).frozen@ == old(self).frozen@,
            final(self).next_index == old(self).next_index,
    {
        let taken = self.pending.take();
        match taken {
            None => {
                proof {
                    assert(self.lsm_map() =~= self.disk_map());
                }
            },
            Some((index, m)) => {
                let ghost mmodel = m.model();
                let entries = m.sorted_entries();
                let ghost vs = entry_views(entries@);
                proof {
                    assert forall|j: int| 0 <= j < vs.len() implies 1 <= (#[trigger] vs[j]).0.len()
                        <= MAX_FIELD_LEN && vs[j].1.len() <= MAX_FIELD_LEN by {
                        lemma_entries_map_value(vs, j);
                    }
                    assert(entries_fit(vs));
                    assert(keys_nonempty(vs));
                }
                let data = match serialize_values(&entries) {
                    Ok(data) => data,
                    Err(_) => {
                        proof {
                            assert(false);
                        }
                        Vec::new()
                    },
                };
                let table = SSTable { index, data };
                proof {
                    lemma_parse_encode_entries(vs);
                    assert(table.wf());
                    assert(table.as_map() == mmodel);
                }
                let ghost tables0 = self.tables@;
                self.tables.push(table);
                proof {
                    assert(self.tables@.drop_last() =~= tables0);
                    assert(self.tables@.last() == table);
                    assert(self.disk_map() == tables_map(tables0).union_prefer_right(mmodel));
                    assert(self.lsm_map() =~= self.disk_map());
                    assert(forall|j: int| 0 <= j < self.tables@.len() ==> (
                    #[trigger] self.tables@[j]).wf());
                }
                if self.tables.len() > COMPACT_THRESHOLD {
                    self.merge_sstables();
                }
            },
        }
    }

    /// Publishes a frozen memtable into the pending-flush slot and assigns
    /// the next file index to it. Any previous flush is joined first, so at
    /// most one flush is ever in flight.
    pub fn save_memtable(&mut self, memtable: T)
        requires
            old(self).inv(),
            memtable.inv(),
            map_entries_bounded(memtable.model()),
            old(self).can_flush(),
        ensures
            final(self).inv(),
            final(self).lsm_map() == old(self).lsm_map().union_prefer_right(memtable.model()),
            final(self).disk_map() == old(self).lsm_map(),
            final(self).pending_map() == memtable.model(),
            final(self).frozen@ == old(self).frozen@.union_prefer_right(memtable.model()),
            final(self).next_index == old(self).next_index + 1,
    {
        let ghost mmodel = memtable.model();
        self.wait_for_threads();
        let index = self.next_index;
        self.next_index = index + 1;
        self.pending = Some((index, memtable));
        let ghost grown = self.frozen@.union_prefer_right(mmodel);
        self.frozen = Ghost(grown);
    }

    /// Whether another table index can still be assigned.
    pub fn index_space_left(&self) -> (r: bool)
        ensures
            r == self.can_flush(),
    {
        self.next_index < MAX_SSTABLE_INDEX
    }

    /// The number of tables currently on disk.
    pub fn len(&self) -> (n: usize)
        ensures
            n == self.tables@.len(),
    {
        self.tables.len()
    }

    /// Looks a key up across this tier: the pending-flush memtable first,
    /// then the on-disk tables newest to oldest; the first hit wins.
    pub fn get(&self, key: &Vec<u8>) -> (r: Option<Vec<u8>>)
        requires
            self.inv(),
        ensures
            r.deep_view() == map_get(self.lsm_map(), key@),
    {
        match &self.pending {
            Some((_, m)) => {
                match m.get(key) {
                    Some(v) => {
                        return Some(copy_bytes(v));
                    },
                    None => {},
                }
            },
            None => {},
        }
        proof {
            assert(map_get(self.lsm_map(), key@) == map_get(self.disk_map(), key@));
        }
        let mut i: usize = self.tables.len();
        proof {
            assert(self.tables@.take(i as int) =~= self.tables@);
        }
        while i > 0
            invariant
                self.inv(),
                i <= self.tables@.len(),
                map_get(tables_map(self.tables@.take(i as int)), key@) == map_get(
                    self.disk_map(),
                    key@,
                ),
                map_get(self.lsm_map(), key@) == map_get(self.disk_map(), key@),
            decreases i,
        {
            i = i - 1;
            match self.tables[i].get(key) {
                Some(v) => {
                    proof {
                        assert(self.tables@.take(i + 1).drop_last() =~= self.tables@.take(i as int));
                        assert(self.tables@.take(i + 1).last() == self.tables@[i as int]);
                    }
                    return Some(v);
                },
                None => {
                    proof {
                        assert(self.tables@.take(i + 1).drop_last() =~= self.tables@.take(i as int));
                        assert(self.tables@.take(i + 1).last() == self.tables@[i as int]);
                    }
                },
            }
        }
        proof {
            assert(self.tables@.take(0) =~= Seq::<SSTable>::empty());
        }
        None
    }
}

/// A key is in the combined mapping of a table list exactly when some table
/// holds it.
proof fn lemma_tables_map_dom(ts: Seq<SSTable>, k: Seq<u8>)
    ensures
        tables_map(ts).dom().contains(k) <==> exists|i: int|
            0 <= i < ts.len() && (#[trigger] ts[i]).as_map().dom().contains(k),
    decreases ts.len(),
{
    if ts.len() > 0 {
        lemma_tables_map_dom(ts.drop_last(), k);
        if tables_map(ts).dom().contains(k) {
            if ts.last().as_map().dom().contains(k) {
                assert(ts[ts.len() - 1].as_map().dom().contains(k));
            } else {
                let i = choose|i: int|
                    0 <= i < ts.drop_last().len() && (
                    #[trigger] ts.drop_last()[i]).as_map().dom().contains(k);
                assert(ts[i].as_map().dom().contains(k));
            }
        }
        if exists|i: int| 0 <= i < ts.len() && (#[trigger] ts[i]).as_map().dom().contains(k) {
            let i = choose|i: int|
                0 <= i < ts.len() && (#[trigger] ts[i]).as_map().dom().contains(k);
            if i < ts.len() - 1 {
                assert(ts.drop_last()[i].as_map().dom().contains(k));
            }
        }
    }
}

/// When the tables past position `i` do not hold `k`, the combined mapping
/// resolves `k` to table `i`'s value.
proof fn lemma_tables_map_winner(ts: Seq<SSTable>, k: Seq<u8>, i: int)
    requires
        0 <= i < ts.len(),
        ts[i].as_map().dom().contains(k),
        forall|j: int| i < j < ts.len() ==> !(#[trigger] ts[j]).as_map().dom().contains(k),
    ensures
        tables_map(ts).dom().contains(k),
        tables_map(ts)[k] == ts[i].as_map()[k],
    decreases ts.len(),
{
    if i == ts.len() - 1 {
    } else {
        assert(forall|j: int| i < j < ts.drop_last().len() ==> !(
        #[trigger] ts.drop_last()[j]).as_map().dom().contains(k));
        assert(ts.drop_last()[i] == ts[i]);
        lemma_tables_map_winner(ts.drop_last(), k, i);
        assert(!ts.last().as_map().dom().contains(k));
    }
}

/// A pair is among a table list's identities exactly when some table carries
/// that index and those bytes.
proof fn lemma_table_ids_contains(ts: Seq<SSTable>, x: int, d: Seq<u8>)
    ensures
        table_ids(ts).contains((x, d)) <==> exists|m: int|
            0 <= m < ts.len() && (#[trigger] ts[m]).index as int == x && ts[m].data@ == d,
{
    if table_ids(ts).contains((x, d)) {
        let m = choose|m: int| 0 <= m < table_ids(ts).len() && table_ids(ts)[m] == (x, d);
        assert(ts[m].index as int == x && ts[m].data@ == d);
    }
    if exists|m: int| 0 <= m < ts.len() && (#[trigger] ts[m]).index as int == x && ts[m].data@
        == d {
        let m = choose|m: int|
            0 <= m < ts.len() && (#[trigger] ts[m]).index as int == x && ts[m].data@ == d;
        assert(table_ids(ts)[m] == (x, d));
    }
}

/// A pair is among a listing's identities exactly when some file's name
/// encodes that index and its contents are those bytes.
proof fn lemma_file_ids_contains(fs: Seq<(Seq<u8>, Seq<u8>)>, x: int, d: Seq<u8>)
    ensures
        file_ids(fs).contains((x, d)) <==> exists|j: int|
            0 <= j < fs.len() && index_of_name((#[trigger] fs[j]).0).unwrap() == x && fs[j].1 == d,
{
    if file_ids(fs).contains((x, d)) {
        let j = choose|j: int| 0 <= j < file_ids(fs).len() && file_ids(fs)[j] == (x, d);
        assert(index_of_name(fs[j].0).unwrap() == x && fs[j].1 == d);
    }
    if exists|j: int| 0 <= j < fs.len() && index_of_name((#[trigger] fs[j]).0).unwrap() == x
        && fs[j].1 == d {
        let j = choose|j: int|
            0 <= j < fs.len() && index_of_name((#[trigger] fs[j]).0).unwrap() == x && fs[j].1 == d;
        assert(file_ids(fs)[j] == (x, d));
    }
}

/// The mapping one file of a listing holds.
pub open spec fn file_map(f: (Seq<u8>, Seq<u8>)) -> Map<Seq<u8>, Seq<u8>> {
    entries_map(parse_entries(f.1).unwrap())
}

/// The index one file's name encodes.
pub open spec fn file_index(f: (Seq<u8>, Seq<u8>)) -> int {
    index_of_name(f.0).unwrap()
}

/// Some file of the listing holds the key.
pub open spec fn listing_has_key(fs: Seq<(Seq<u8>, Seq<u8>)>, k: Seq<u8>) -> bool {
    exists|i: int| 0 <= i < fs.len() && (#[trigger] file_map(fs[i])).dom().contains(k)
}

/// A coordinator opened over a directory listing — in whatever order the
/// files were handed over — holds exactly the listing's keys.
pub proof fn lemma_open_covers_keys<T: MemTable>(
    t: &LSMTree<T>,
    fs: Seq<(Seq<u8>, Seq<u8>)>,
    k: Seq<u8>,
)
    requires
        t.inv(),
        table_ids(t.tables@).to_multiset() == file_ids(fs).to_multiset(),
    ensures
        t.disk_map().dom().contains(k) <==> listing_has_key(fs, k),
{
    let ts = t.tables@;
    table_ids(ts).to_multiset_ensures();
    file_ids(fs).to_multiset_ensures();
    lemma_tables_map_dom(ts, k);
    if exists|i: int| 0 <= i < ts.len() && (#[trigger] ts[i]).as_map().dom().contains(k) {
        let i = choose|i: int| 0 <= i < ts.len() && (#[trigger] ts[i]).as_map().dom().contains(k);
        assert(table_ids(ts)[i] == table_id(ts[i]));
        assert(table_ids(ts).contains(table_id(ts[i])));
        assert(table_ids(ts).to_multiset().count(table_id(ts[i])) > 0);
        assert(file_ids(fs).to_multiset().count(table_id(ts[i])) > 0);
        assert(file_ids(fs).contains(table_id(ts[i])));
        lemma_file_ids_contains(fs, ts[i].index as int, ts[i].data@);
        let j = choose|j: int|
            0 <= j < fs.len() && index_of_name((#[trigger] fs[j]).0).unwrap() == ts[i].index as int
                && fs[j].1 == ts[i].data@;
        assert(file_map(fs[j]).dom().contains(k));
    }
    if listing_has_key(fs, k) {
        let j = choose|j: int| 0 <= j < fs.len() && (#[trigger] file_map(fs[j])).dom().contains(k);
        assert(file_ids(fs)[j] == file_id(fs[j]));
        assert(file_ids(fs).contains(file_id(fs[j])));
        assert(file_ids(fs).to_multiset().count(file_id(fs[j])) > 0);
        assert(table_ids(ts).to_multiset().count(file_id(fs[j])) > 0);
        assert(table_ids(ts).contains(file_id(fs[j])));
        lemma_table_ids_contains(ts, file_index(fs[j]), fs[j].1);
        let m = choose|m: int|
            0 <= m < ts.len() && (#[trigger] ts[m]).index as int == file_index(fs[j]) && ts[m].data@
                == fs[j].1;
        assert(ts[m].as_map().dom().contains(k));
    }
}

/// A coordinator opened over a directory listing — in whatever order the
/// files were handed over — resolves each key to the value in the file with
/// the highest index holding it: a higher index is a logically newer version.
pub proof fn lemma_open_resolves_newest<T: MemTable>(
    t: &LSMTree<T>,
    fs: Seq<(Seq<u8>, Seq<u8>)>,
    k: Seq<u8>,
    i: int,
)
    requires
        t.inv(),
        table_ids(t.tables@).to_multiset() == file_ids(fs).to_multiset(),
        0 <= i < fs.len(),
        file_map(fs[i]).dom().contains(k),
        forall|j: int|
            0 <= j < fs.len() && (#[trigger] file_map(fs[j])).dom().contains(k) ==> file_index(
                fs[j],
            ) <= file_index(fs[i]),
    ensures
        t.disk_map().dom().contains(k),
        t.disk_map()[k] == file_map(fs[i])[k],
{
    let ts = t.tables@;
    table_ids(ts).to_multiset_ensures();
    file_ids(fs).to_multiset_ensures();
    assert(file_ids(fs)[i] == file_id(fs[i]));
    assert(file_ids(fs).contains(file_id(fs[i])));
    assert(file_ids(fs).to_multiset().count(file_id(fs[i])) > 0);
    assert(table_ids(ts).to_multiset().count(file_id(fs[i])) > 0);
    assert(table_ids(ts).contains(file_id(fs[i])));
    lemma_table_ids_contains(ts, file_index(fs[i]), fs[i].1);
    let m = choose|m: int|
        0 <= m < ts.len() && (#[trigger] ts[m]).index as int == file_index(fs[i]) && ts[m].data@
            == fs[i].1;
    assert(ts[m].as_map() == file_map(fs[i]));
    assert forall|j: int| m < j < ts.len() implies !(
    #[trigger] ts[j]).as_map().dom().contains(k) by {
        if ts[j].as_map().dom().contains(k) {
            assert(table_ids(ts)[j] == table_id(ts[j]));
            assert(table_ids(ts).contains(table_id(ts[j])));
            assert(table_ids(ts).to_multiset().count(table_id(ts[j])) > 0);
            assert(file_ids(fs).to_multiset().count(table_id(ts[j])) > 0);
            assert(file_ids(fs).contains(table_id(ts[j])));
            lemma_file_ids_contains(fs, ts[j].index as int, ts[j].data@);
            let j2 = choose|j2: int|
                0 <= j2 < fs.len() && index_of_name((#[trigger] fs[j2]).0).unwrap() == ts[j].index
                    as int && fs[j2].1 == ts[j].data@;
            assert(file_map(fs[j2]).dom().contains(k));
            assert(file_index(fs[j2]) <= file_index(fs[i]));
            assert(ts[m].index < ts[j].index);
            assert(false);
        }
    }
    lemma_tables_map_winner(ts, k, m);
}

/// Inserting on the left of a newest-wins union commutes with the union when
/// the right side does not hold the key.
proof fn lemma_union_insert_left(
    a: Map<Seq<u8>, Seq<u8>>,
    b: Map<Seq<u8>, Seq<u8>>,
    k: Seq<u8>,
    v: Seq<u8>,
)
    requires
        !b.dom().contains(k),
    ensures
        a.insert(k, v).union_prefer_right(b) == a.union_prefer_right(b).insert(k, v),
{
    assert(a.insert(k, v).union_prefer_right(b) =~= a.union_prefer_right(b).insert(k, v));
}

/// Inserting on the right of a newest-wins union commutes with the union.
pub proof fn lemma_union_insert_right(
    a: Map<Seq<u8>, Seq<u8>>,
    b: Map<Seq<u8>, Seq<u8>>,
    k: Seq<u8>,
    v: Seq<u8>,
)
    ensures
        a.union_prefer_right(b.insert(k, v)) == a.union_prefer_right(b).insert(k, v),
{
    assert(a.union_prefer_right(b.insert(k, v)) =~= a.union_prefer_right(b).insert(k, v));
}

/// Inserting the same key on both sides of a newest-wins union keeps only
/// the right side's value.
proof fn lemma_union_insert_both(
    a: Map<Seq<u8>, Seq<u8>>,
    b: Map<Seq<u8>, Seq<u8>>,
    k: Seq<u8>,
    u: Seq<u8>,
    v: Seq<u8>,
)
    ensures
        a.insert(k, u).union_prefer_right(b.insert(k, v)) == a.union_prefer_right(b).insert(k, v),
{
    assert(a.insert(k, u).union_prefer_right(b.insert(k, v)) =~= a.union_prefer_right(b).insert(
        k,
        v,
    ));
}

/// Merges two sorted record lists into one: keys ascending, and where both
/// lists hold a key, `newer`'s value wins.
fn merge_entry_lists(older: &Vec<(Vec<u8>, Vec<u8>)>, newer: &Vec<(Vec<u8>, Vec<u8>)>) -> (r: Vec<
    (Vec<u8>, Vec<u8>),
>)
    requires
        entries_sorted(entry_views(older@)),
        entries_sorted(entry_views(newer@)),
    ensures
        entries_sorted(entry_views(r@)),
        entries_map(entry_views(r@)) == entries_map(entry_views(older@)).union_prefer_right(
            entries_map(entry_views(newer@)),
        ),
        entries_fit(entry_views(older@)) && entries_fit(entry_views(newer@)) ==> entries_fit(
            entry_views(r@),
        ),
        keys_nonempty(entry_views(older@)) && keys_nonempty(entry_views(newer@))
            ==> keys_nonempty(entry_views(r@)),
{
    let ghost va = entry_views(older@);
    let ghost vb = entry_views(newer@);
    let mut out: Vec<(Vec<u8>, Vec<u8>)> = Vec::new();
    let mut i: usize = 0;
    let mut j: usize = 0;
    proof {
        assert(older@.len() == older.len());
        assert(newer@.len() == newer.len());
        assert(entry_views(out@) =~= Seq::<(Seq<u8>, Seq<u8>)>::empty());
        assert(entries_map(va.take(0)) =~= Map::<Seq<u8>, Seq<u8>>::empty());
        assert(entries_map(vb.take(0)) =~= Map::<Seq<u8>, Seq<u8>>::empty());
        assert(entries_map(entry_views(out@)) =~= entries_map(va.take(0)).union_prefer_right(
            entries_map(vb.take(0)),
        ));
    }
    while i < older.len() || j < newer.len()
        invariant
            va == entry_views(older@),
            vb == entry_views(newer@),
            va.len() == older@.len() <= usize::MAX,
            vb.len() == newer@.len() <= usize::MAX,
            entries_sorted(va),
            entries_sorted(vb),
            i <= va.len(),
            j <= vb.len(),
            entries_sorted(entry_views(out@)),
            entries_map(entry_views(out@)) == entries_map(va.take(i as int)).union_prefer_right(
                entries_map(vb.take(j as int)),
            ),
            forall|m: int, n: int|
                0 <= m < i && j <= n < vb.len() ==> lex_lt(
                    (#[trigger] va[m]).0,
                    (#[trigger] vb[n]).0,
                ),
            forall|m: int, n: int|
                0 <= m < j && i <= n < va.len() ==> lex_lt(
                    (#[trigger] vb[m]).0,
                    (#[trigger] va[n]).0,
                ),
            forall|m: int, n: int|
                0 <= m < entry_views(out@).len() && i <= n < va.len() ==> lex_lt(
                    (#[trigger] entry_views(out@)[m]).0,
                    (#[trigger] va[n]).0,
                ),
            forall|m: int, n: int|
                0 <= m < entry_views(out@).len() && j <= n < vb.len() ==> lex_lt(
                    (#[trigger] entry_views(out@)[m]).0,
                    (#[trigger] vb[n]).0,
                ),
            forall|m: int|
                0 <= m < entry_views(out@).len() ==> (exists|n: int|
                    0 <= n < i && (#[trigger] entry_views(out@)[m]) == va[n]) || (exists|n: int|
                    0 <= n < j && entry_views(out@)[m] == vb[n]),
        decreases (va.len() - i) + (vb.len() - j),
    {
        let ghost out0 = entry_views(out@);
        let take_newer: bool;
        let advance_both: bool;
        if i < older.len() && j < newer.len() {
            match key_compare(&older[i].0, &newer[j].0) {
                KeyOrder::Less => {
                    take_newer = false;
                    advance_both = false;
                },
                KeyOrder::Equal => {
                    take_newer = true;
                    advance_both = true;
                },
                KeyOrder::Greater => {
                    take_newer = true;
                    advance_both = false;
                },
            }
        } else if i < older.len() {
            take_newer = false;
            advance_both = false;
        } else {
            take_newer = true;
            advance_both = false;
        }
        if take_newer {
            let key = copy_bytes(&newer[j].0);
            let value = copy_bytes(&newer[j].1);
            out.push((key, value));
            proof {
                let e = vb[j as int];
                assert(entry_views(out@) =~= out0.push(e));
                assert(entry_views(out@).drop_last() =~= out0);
                assert(entries_map(entry_views(out@)) == entries_map(out0).insert(e.0, e.1));
                assert(vb.take(j + 1).drop_last() =~= vb.take(j as int));
                assert(vb.take(j + 1).last() == e);
                assert(entries_map(vb.take(j + 1)) == entries_map(vb.take(j as int)).insert(
                    e.0,
                    e.1,
                ));
                assert forall|a2: int, b2: int|
                    0 <= a2 < b2 < entry_views(out@).len() implies lex_lt(
                    (#[trigger] entry_views(out@)[a2]).0,
                    (#[trigger] entry_views(out@)[b2]).0,
                ) by {
                    if b2 == entry_views(out@).len() - 1 {
                        assert(entry_views(out@)[a2] == out0[a2]);
                        assert(lex_lt(out0[a2].0, e.0));
                    } else {
                        assert(entry_views(out@)[a2] == out0[a2]);
                        assert(entry_views(out@)[b2] == out0[b2]);
                    }
                }
                if advance_both {
                    let ea = va[i as int];
                    assert(ea.0 == e.0);
                    assert(va.take(i + 1).drop_last() =~= va.take(i as int));
                    assert(va.take(i + 1).last() == ea);
                    assert(entries_map(va.take(i + 1)) == entries_map(va.take(i as int)).insert(
                        ea.0,
                        ea.1,
                    ));
                    lemma_union_insert_both(
                        entries_map(va.take(i as int)),
                        entries_map(vb.take(j as int)),
                        e.0,
                        ea.1,
                        e.1,
                    );
                } else {
                    lemma_union_insert_right(
                        entries_map(va.take(i as int)),
                        entries_map(vb.take(j as int)),
                        e.0,
                        e.1,
                    );
                }
            }
            if advance_both {
                proof {
                    assert forall|m: int, n: int|
                        0 <= m < i + 1 && j + 1 <= n < vb.len() implies lex_lt(
                        (#[trigger] va[m]).0,
                        (#[trigger] vb[n]).0,
                    ) by {
                        if m == i {
                            assert(lex_lt(vb[j as int].0, vb[n].0));
                        }
                    }
                    assert forall|m: int, n: int|
                        0 <= m < j + 1 && i + 1 <= n < va.len() implies lex_lt(
                        (#[trigger] vb[m]).0,
                        (#[trigger] va[n]).0,
                    ) by {
                        if m == j {
                            assert(lex_lt(va[i as int].0, va[n].0));
                        }
                    }
                }
                i = i + 1;
            } else {
                proof {
                    assert forall|m: int, n: int|
                        0 <= m < j + 1 && i <= n < va.len() implies lex_lt(
                        (#[trigger] vb[m]).0,
                        (#[trigger] va[n]).0,
                    ) by {
                        if m == j {
                            if i < va.len() && n > i {
                                lemma_lex_lt_transitive(vb[j as int].0, va[i as int].0, va[n].0);
                            }
                        }
                    }
                }
            }
            j = j + 1;
        } else {
            let key = copy_bytes(&older[i].0);
            let value = copy_bytes(&older[i].1);
            out.push((key, value));
            proof {
                let e = va[i as int];
                assert(entry_views(out@) =~= out0.push(e));
                assert(entry_views(out@).drop_last() =~= out0);
                assert(entries_map(entry_views(out@)) == entries_map(out0).insert(e.0, e.1));
                assert(va.take(i + 1).drop_last() =~= va.take(i as int));
                assert(va.take(i + 1).last() == e);
                assert(entries_map(va.take(i + 1)) == entries_map(va.take(i as int)).insert(
                    e.0,
                    e.1,
                ));
                assert(!entries_map(vb.take(j as int)).dom().contains(e.0)) by {
                    lemma_entries_map_dom(vb.take(j as int), e.0);
                    if exists|m: int|
                        0 <= m < vb.take(j as int).len() && (#[trigger] vb.take(j as int)[m]).0
                            == e.0 {
                        let m = choose|m: int|
                            0 <= m < vb.take(j as int).len() && (#[trigger] vb.take(
                                j as int,
                            )[m]).0 == e.0;
                        assert(lex_lt(vb[m].0, va[i as int].0));
                        lemma_lex_lt_asymmetric(vb[m].0, va[i as int].0);
                    }
                }
                lemma_union_insert_left(
                    entries_map(va.take(i as int)),
                    entries_map(vb.take(j as int)),
                    e.0,
                    e.1,
                );
                assert forall|a2: int, b2: int|
                    0 <= a2 < b2 < entry_views(out@).len() implies lex_lt(
                    (#[trigger] entry_views(out@)[a2]).0,
                    (#[trigger] entry_views(out@)[b2]).0,
                ) by {
                    if b2 == entry_views(out@).len() - 1 {
                        assert(entry_views(out@)[a2] == out0[a2]);
                        assert(lex_lt(out0[a2].0, e.0));
                    } else {
                        assert(entry_views(out@)[a2] == out0[a2]);
                        assert(entry_views(out@)[b2] == out0[b2]);
                    }
                }
                assert forall|m: int, n: int|
                    0 <= m < i + 1 && j <= n < vb.len() implies lex_lt(
                    (#[trigger] va[m]).0,
                    (#[trigger] vb[n]).0,
                ) by {
                    if m == i {
                        if j < vb.len() && n > j {
                            lemma_lex_lt_transitive(va[i as int].0, vb[j as int].0, vb[n].0);
                        }
                    }
                }
            }
            i = i + 1;
        }
    }
    proof {
        assert(va.take(va.len() as int) =~= va);
        assert(vb.take(vb.len() as int) =~= vb);
    }
    out
}

impl<T: MemTable> LSMTree<T> {
    /// Collapses the current on-disk tables into a single table that keeps,
    /// for every key, the value from the highest-indexed table holding it;
    /// the merged table takes the highest input index, preserving its place
    /// in install order. Does nothing when fewer than two tables exist. The
    /// pending-flush slot is untouched: a flush published but not yet joined
    /// stays newer than the merged table.
    pub fn merge_sstables(&mut self)
        requires
            old(self).inv(),
        ensures
            final(self).inv(),
            final(self).disk_map() == old(self).disk_map(),
            final(self).lsm_map() == old(self).lsm_map(),
            final(self).pending == old(self).pending,
            final(self).frozen@ == old(self).frozen@,
            final(self).next_index == old(self).next_index,
            old(self).tables@.len() >= 2 ==> final(self).tables@.len() == 1,
            old(self).tables@.len() < 2 ==> final(self).tables@ == old(self).tables@,
            tables_key_disjoint(final(self).tables@),
    {
        if self.tables.len() < 2 {
            return;
        }
        let ghost ts = self.tables@;
        let mut acc = match decode_entries(&self.tables[0].data) {
            Ok(acc) => acc,
            Err(_) => {
                proof {
                    assert(false);
                }
                Vec::new()
            },
        };
        proof {
            assert(self.tables@.len() == self.tables.len());
            assert(entry_views(acc@) == ts[0].entries());
            lemma_parse_entries_fit(ts[0].data@);
            assert(ts.take(1).drop_last() =~= Seq::<SSTable>::empty());
            assert(ts.take(1).last() == ts[0]);
            assert(tables_map(Seq::<SSTable>::empty()) == Map::<Seq<u8>, Seq<u8>>::empty());
            assert(tables_map(ts.take(1)) == Map::<Seq<u8>, Seq<u8>>::empty().union_prefer_right(
                ts[0].as_map(),
            ));
            assert(tables_map(ts.take(1)) =~= ts[0].as_map());
        }
        let mut i: usize = 1;
        while i < self.tables.len()
            invariant
                ts == self.tables@,
                tables_wf(ts),
                ts.len() <= usize::MAX,
                1 <= i <= ts.len(),
                entries_sorted(entry_views(acc@)),
                entries_fit(entry_views(acc@)),
                keys_nonempty(entry_views(acc@)),
                entries_map(entry_views(acc@)) == tables_map(ts.take(i as int)),
            decreases ts.len() - i,
        {
            let next = match decode_entries(&self.tables[i].data) {
                Ok(next) => next,
                Err(_) => {
                    proof {
                        assert(false);
                    }
                    Vec::new()
                },
            };
            proof {
                assert(entry_views(next@) == ts[i as int].entries());
                lemma_parse_entries_fit(ts[i as int].data@);
            }
            acc = merge_entry_lists(&acc, &next);
            proof {
                assert(ts.take(i + 1).drop_last() =~= ts.take(i as int));
                assert(ts.take(i + 1).last() == ts[i as int]);
            }
            i = i + 1;
        }
        proof {
            assert(ts.take(ts.len() as int) =~= ts);
        }
        let data = match serialize_values(&acc) {
            Ok(data) => data,
            Err(_) => {
                proof {
                    assert(false);
                }
                Vec::new()
            },
        };
        let index = self.tables[self.tables.len() - 1].index;
        let merged = SSTable { index, data };
        proof {
            lemma_parse_encode_entries(entry_views(acc@));
            assert(merged.wf());
            assert(merged.as_map() == tables_map(ts));
        }
        self.tables.clear();
        self.tables.push(merged);
        proof {
            assert(self.tables@.drop_last() =~= Seq::<SSTable>::empty());
            assert(self.tables@.last() == merged);
            assert(tables_map(Seq::<SSTable>::empty()) == Map::<Seq<u8>, Seq<u8>>::empty());
            assert(self.disk_map() == Map::<Seq<u8>, Seq<u8>>::empty().union_prefer_right(
                merged.as_map(),
            ));
            assert(self.disk_map() =~= merged.as_map());
            assert(self.lsm_map() =~= old(self).lsm_map());
        }
    }
}

/// Places `t` into the list at its index position, keeping ascending order.
/// Reports `false`, changing nothing, when a table with the same index is
/// already present.
fn insert_table(tables: &mut Vec<SSTable>, t: SSTable) -> (r: bool)
    requires
        tables_wf(old(tables)@),
        t.wf(),
    ensures
        tables_wf(final(tables)@),
        r ==> table_ids(final(tables)@).to_multiset() == table_ids(old(tables)@).to_multiset().insert(table_id(t)),
        r ==> (forall|i: int|
            0 <= i < old(tables)@.len() ==> (#[trigger] old(tables)@[i]).index != t.index),
        r ==> final(tables)@.len() == old(tables)@.len() + 1,
        r ==> (forall|x: u32|
            #[trigger] has_index(final(tables)@, x) <==> (x == t.index || has_index(
                old(tables)@,
                x,
            ))),
        r && (forall|i: int| 0 <= i < old(tables)@.len() ==> (#[trigger] old(tables)@[i]).index
            < t.index) ==> final(tables)@ == old(tables)@.push(t),
        !r ==> final(tables)@ == old(tables)@ && has_index(old(tables)@, t.index),
{
    let ghost ts = tables@;
    let mut i: usize = 0;
    proof {
        assert(tables@.len() == tables.len());
    }
    while i < tables.len()
        invariant
            ts == tables@,
            ts == old(tables)@,
            tables_wf(ts),
            t.wf(),
            ts.len() <= usize::MAX,
            i <= ts.len(),
            forall|j: int| 0 <= j < i ==> (#[trigger] ts[j]).index < t.index,
        decreases ts.len() - i,
    {
        if tables[i].index == t.index {
            return false;
        }
        if tables[i].index > t.index {
            proof {
                ts.insert_ensures(i as int, t);
                broadcast use vstd::seq_lib::to_multiset_insert;

            }
            tables.insert(i, t);
            proof {
                let ts2 = tables@;
                assert forall|a: int, b: int| 0 <= a < b < ts2.len() implies ts2[a].index
                    < ts2[b].index by {
                    if a < i && b == i {
                        assert(ts2[a] == ts[a]);
                    } else if a < i && b > i {
                        assert(ts2[a] == ts[a] && ts2[b] == ts[b - 1]);
                    } else if a == i && b > i {
                        assert(ts2[b] == ts[b - 1]);
                    } else if a > i && b > i {
                        assert(ts2[a] == ts[a - 1] && ts2[b] == ts[b - 1]);
                    } else {
                        assert(ts2[a] == ts[a] && ts2[b] == ts[b]);
                    }
                }
                assert(forall|j: int| 0 <= j < ts2.len() ==> (#[trigger] ts2[j]).wf());
                assert(table_ids(ts2) =~= table_ids(ts).insert(
                    i as int,
                    table_id(t),
                ));
                assert forall|x: u32| #[trigger]
                    has_index(ts2, x) <==> (x == t.index || has_index(ts, x)) by {
                    if has_index(ts2, x) {
                        let m = choose|m: int| 0 <= m < ts2.len() && (#[trigger] ts2[m]).index
                            == x;
                        if m < i {
                            assert(ts[m].index == x);
                        } else if m > i {
                            assert(ts[m - 1].index == x);
                        }
                    }
                    if x == t.index {
                        assert(ts2[i as int].index == x);
                    }
                    if has_index(ts, x) {
                        let m = choose|m: int| 0 <= m < ts.len() && (#[trigger] ts[m]).index == x;
                        if m < i {
                            assert(ts2[m].index == x);
                        } else {
                            assert(ts2[m + 1].index == x);
                        }
                    }
                }
            }
            return true;
        }
        i = i + 1;
    }
    proof {
        ts.insert_ensures(ts.len() as int, t);
        broadcast use vstd::seq_lib::to_multiset_insert;

    }
    tables.push(t);
    proof {
        let ts2 = tables@;
        assert(ts2 =~= ts.insert(ts.len() as int, t));
        assert(ts2 == ts.push(t));
        assert(forall|j: int| 0 <= j < ts2.len() ==> (#[trigger] ts2[j]).wf());
        assert(table_ids(ts2) =~= table_ids(ts).insert(
            ts.len() as int,
            table_id(t),
        ));
        assert forall|x: u32| #[trigger]
            has_index(ts2, x) <==> (x == t.index || has_index(ts, x)) by {
            if has_index(ts2, x) {
                let m = choose|m: int| 0 <= m < ts2.len() && (#[trigger] ts2[m]).index == x;
                if m < ts.len() {
                    assert(ts[m].index == x);
                }
            }
            if x == t.index {
                assert(ts2[ts.len() as int].index == x);
            }
            if has_index(ts, x) {
                let m = choose|m: int| 0 <= m < ts.len() && (#[trigger] ts[m]).index == x;
                assert(ts2[m].index == x);
            }
        }
    }
    true
}

} // verus!
