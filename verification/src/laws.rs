//! Algebraic laws of the store.
//!
//! The store's methods describe their effect on one raw key-to-value mapping:
//! `set` and `delete` insert into it, flush barriers and compaction leave it
//! unchanged, and `get` reads it through the tombstone filter. The laws here
//! state what follows for sequences of such operations.

use vstd::prelude::*;

use crate::codec::encode_entries;
use crate::codec::encode_entry;
use crate::codec::entry_fits;
use crate::codec::first_match;
use crate::codec::lemma_parse_encode_entries;
use crate::codec::parse_entries;
use crate::keys::lex_lt;
use crate::lsm::LSMTree;
use crate::lsm::files_map;
use crate::memtable::MemTable;
use crate::sstable::lemma_name_order;
use crate::sstable::name_of_index;
use crate::store::lookup;
use crate::store::tombstone;

verus! {

/// One operation of the store, as it acts on the raw mapping.
pub enum StoreOp {
    /// `set(key, value)`.
    Write { key: Seq<u8>, value: Seq<u8> },
    /// `delete(key)`: a set of the tombstone value.
    Delete { key: Seq<u8> },
    /// `save_memtable()`: freeze the live memtable and hand it off.
    Save,
    /// `wait_for_threads()`: join the in-flight flush.
    Wait,
    /// Compaction of the on-disk tables.
    Merge,
}

/// The effect of one operation on the raw mapping, as the methods' contracts
/// state it: writes insert, everything else changes nothing.
pub open spec fn apply_op(m: Map<Seq<u8>, Seq<u8>>, op: StoreOp) -> Map<Seq<u8>, Seq<u8>> {
    match op {
        StoreOp::Write { key, value } => m.insert(key, value),
        StoreOp::Delete { key } => m.insert(key, tombstone()),
        StoreOp::Save => m,
        StoreOp::Wait => m,
        StoreOp::Merge => m,
    }
}

/// The effect of a sequence of operations, applied in order.
pub open spec fn apply_ops(m: Map<Seq<u8>, Seq<u8>>, ops: Seq<StoreOp>) -> Map<Seq<u8>, Seq<u8>>
    decreases ops.len(),
{
    if ops.len() == 0 {
        m
    } else {
        apply_ops(apply_op(m, ops[0]), ops.skip(1))
    }
}

/// Whether an operation writes the given key.
pub open spec fn op_touches(op: StoreOp, key: Seq<u8>) -> bool {
    match op {
        StoreOp::Write { key: k, .. } => k == key,
        StoreOp::Delete { key: k } => k == key,
        StoreOp::Save => false,
        StoreOp::Wait => false,
        StoreOp::Merge => false,
    }
}

/// After `set(key, value)`, any sequence of operations on other keys —
/// writes to other keys, flush barriers, joins, compactions — leaves
/// `get(key)` returning `value`. Fails only for `value` equal to the
/// tombstone constant, which reads as absent by design.
pub proof fn lemma_set_survives_other_ops(
    m: Map<Seq<u8>, Seq<u8>>,
    key: Seq<u8>,
    value: Seq<u8>,
    ops: Seq<StoreOp>,
)
    requires
        value != tombstone(),
        forall|i: int| 0 <= i < ops.len() ==> !op_touches(#[trigger] ops[i], key),
    ensures
        lookup(apply_ops(m.insert(key, value), ops), key) == Some(value),
    decreases ops.len(),
{
    if ops.len() > 0 {
        assert(!op_touches(ops[0], key));
        let m2 = apply_op(m, ops[0]);
        assert(apply_op(m.insert(key, value), ops[0]) =~= m2.insert(key, value));
        assert(forall|i: int|
            0 <= i < ops.skip(1).len() ==> !op_touches(#[trigger] ops.skip(1)[i], key));
        lemma_set_survives_other_ops(m2, key, value, ops.skip(1));
    }
}

/// Last writer wins: two sets of the same key leave the second value.
pub proof fn lemma_last_writer_wins(
    m: Map<Seq<u8>, Seq<u8>>,
    key: Seq<u8>,
    first: Seq<u8>,
    second: Seq<u8>,
)
    requires
        second != tombstone(),
    ensures
        lookup(
            apply_op(apply_op(m, StoreOp::Write { key, value: first }), StoreOp::Write { key, value: second }),
            key,
        ) == Some(second),
{
}

/// A delete after a set makes the key read as absent.
pub proof fn lemma_delete_overrides_set(m: Map<Seq<u8>, Seq<u8>>, key: Seq<u8>, value: Seq<u8>)
    ensures
        lookup(
            apply_op(apply_op(m, StoreOp::Write { key, value }), StoreOp::Delete { key }),
            key,
        ) is None,
{
}

/// Deleting an absent key: the key reads as absent before and after.
pub proof fn lemma_delete_absent(m: Map<Seq<u8>, Seq<u8>>, key: Seq<u8>)
    requires
        lookup(m, key) is None,
    ensures
        lookup(apply_op(m, StoreOp::Delete { key }), key) is None,
{
}

/// A flush barrier loses no write: after `set(key, value)`, `get(key)`
/// returns `value` both while the flush is in flight (after `save_memtable`)
/// and once it has completed (after `wait_for_threads`). Fails only for
/// `value` equal to the tombstone constant.
pub proof fn lemma_flush_preserves_reads(m: Map<Seq<u8>, Seq<u8>>, key: Seq<u8>, value: Seq<u8>)
    requires
        value != tombstone(),
    ensures
        lookup(apply_ops(m.insert(key, value), seq![StoreOp::Save]), key) == Some(value),
        lookup(apply_ops(m.insert(key, value), seq![StoreOp::Save, StoreOp::Wait]), key) == Some(
            value,
        ),
{
    let one = seq![StoreOp::Save];
    let two = seq![StoreOp::Save, StoreOp::Wait];
    assert(forall|i: int| 0 <= i < one.len() ==> !op_touches(#[trigger] one[i], key));
    assert(forall|i: int| 0 <= i < two.len() ==> !op_touches(#[trigger] two[i], key));
    lemma_set_survives_other_ops(m, key, value, one);
    lemma_set_survives_other_ops(m, key, value, two);
}

/// Closing and reopening preserves every read: `close` returns files whose
/// combined mapping is the store's raw mapping, `new` over those files
/// rebuilds exactly that mapping, so each key reads as before.
pub proof fn lemma_reopen_preserves_reads(
    fs: Seq<(Seq<u8>, Seq<u8>)>,
    before: Map<Seq<u8>, Seq<u8>>,
    after: Map<Seq<u8>, Seq<u8>>,
    key: Seq<u8>,
)
    requires
        files_map(fs) == before,
        after == files_map(fs),
    ensures
        lookup(after, key) == lookup(before, key),
{
}

/// One record round-trips through the codec: serializing `(key, value)` and
/// scanning the bytes for `key` yields exactly `value`.
pub proof fn lemma_entry_round_trip(key: Seq<u8>, value: Seq<u8>)
    requires
        entry_fits(key, value),
    ensures
        parse_entries(encode_entry(key, value)) == Some(seq![(key, value)]),
        first_match(seq![(key, value)], key) == Some(value),
{
    let es = seq![(key, value)];
    assert(encode_entry(key, value) =~= encode_entries(es)) by {
        assert(es.skip(1) =~= Seq::<(Seq<u8>, Seq<u8>)>::empty());
        assert(encode_entries(es.skip(1)) == Seq::<u8>::empty());
        assert(encode_entry(es[0].0, es[0].1) + Seq::<u8>::empty() =~= encode_entry(key, value));
    }
    lemma_parse_encode_entries(es);
}

/// The file-name sequence is strictly increasing: tables are listed in
/// ascending index order, indices are never reused, and zero-padded decimal
/// names sort like their indices — so each new file's name is
/// lexicographically above every earlier one, and a directory listing in
/// name order is a listing in install order.
pub proof fn lemma_table_names_ascending<T: MemTable>(t: &LSMTree<T>, i: int, j: int)
    requires
        t.inv(),
        0 <= i < j < t.tables@.len(),
    ensures
        t.tables@[i].index < t.tables@[j].index,
        lex_lt(
            name_of_index(t.tables@[i].index as int),
            name_of_index(t.tables@[j].index as int),
        ),
{
    lemma_name_order(t.tables@[i].index as int, t.tables@[j].index as int);
}

/// The pending-flush slot is empty exactly when everything ever frozen for
/// flush is reachable through the on-disk list: the slot's clearing and the
/// table's appearance are one step. Stated in the direction that holds of
/// every store: an empty slot means the frozen history is the on-disk
/// mapping. (The converse fails when a frozen memtable only repeats entries
/// already on disk: the slot is occupied although nothing new is missing.)
pub proof fn lemma_empty_slot_means_durable<T: MemTable>(t: &LSMTree<T>)
    requires
        t.inv(),
        t.pending is None,
    ensures
        t.frozen@ == t.disk_map(),
{
    assert(t.lsm_map() =~= t.disk_map());
}

} // verus!
