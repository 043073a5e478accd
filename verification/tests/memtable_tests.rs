//! The memtable capability tests, run against both implementations.

use kv_store::memtable::HashMapMemTable;
use kv_store::memtable::MemTable;
use kv_store::memtable::VecMemTable;
use kv_store::store::tombstone_value;

fn byte_vec(s: &str) -> Vec<u8> {
    String::from(s).into_bytes()
}

fn test_basic_impl<T: MemTable>(mut memtable: T) {
    memtable.set(byte_vec("a"), byte_vec("mandarina"));
    memtable.set(byte_vec("b"), byte_vec("platan"));

    assert_eq!(memtable.get(&byte_vec("a")), Some(&byte_vec("mandarina")));
    assert_eq!(memtable.get(&byte_vec("b")), Some(&byte_vec("platan")));
    assert_eq!(memtable.get(&byte_vec("c")), None);
}

fn test_insert_same_key_impl<T: MemTable>(mut memtable: T) {
    // It should return the last element added with a given key

    memtable.set(byte_vec("a"), byte_vec("mandarina"));
    assert_eq!(memtable.get(&byte_vec("a")), Some(&byte_vec("mandarina")));

    memtable.set(byte_vec("a"), byte_vec("platan"));
    assert_eq!(memtable.get(&byte_vec("a")), Some(&byte_vec("platan")));

    memtable.set(byte_vec("a"), byte_vec("ana"));
    assert_eq!(memtable.get(&byte_vec("a")), Some(&byte_vec("ana")));

    memtable.set(byte_vec("a"), byte_vec("zzz"));
    assert_eq!(memtable.get(&byte_vec("a")), Some(&byte_vec("zzz")));
}

fn test_sorted_entries_impl<T: MemTable>(mut memtable: T) {
    memtable.set(byte_vec("a"), byte_vec("mandarina"));
    memtable.set(byte_vec("a"), tombstone_value());

    memtable.set(byte_vec("b"), byte_vec("yyyy"));
    memtable.set(byte_vec("b"), byte_vec("zzzz"));
    memtable.set(byte_vec("d"), byte_vec("ana"));
    memtable.set(vec![1, 2, 3], byte_vec("3 numeros"));
    memtable.set(vec![2, 3], byte_vec("2 numeros"));
    memtable.set(vec![99, 3], byte_vec("la c"));

    assert_eq!(
        memtable.sorted_entries(),
        vec![
            (vec![1, 2, 3], byte_vec("3 numeros")),
            (vec![2, 3], byte_vec("2 numeros")),
            (byte_vec("a"), tombstone_value()),
            (byte_vec("b"), byte_vec("zzzz")),
            (vec![99, 3], byte_vec("la c")),
            (byte_vec("d"), byte_vec("ana")),
        ]
    );
}

#[test]
fn mod_test_basic() {
    test_basic_impl(VecMemTable::new());
}

#[test]
fn mod_test_insert_same_key() {
    test_insert_same_key_impl(VecMemTable::new());
}

#[test]
fn mod_test_sorted_entries() {
    test_sorted_entries_impl(VecMemTable::new());
}

#[test]
fn hashmap_mem_table_test_basic() {
    test_basic_impl(HashMapMemTable::new());
}

#[test]
fn hashmap_mem_table_test_insert_same_key() {
    test_insert_same_key_impl(HashMapMemTable::new());
}

#[test]
fn hashmap_mem_table_test_sorted_entries() {
    test_sorted_entries_impl(HashMapMemTable::new());
}

#[test]
fn test_len_counts_distinct_keys() {
    let mut memtable = VecMemTable::new();
    assert_eq!(memtable.len(), 0);
    memtable.set(byte_vec("a"), byte_vec("1"));
    memtable.set(byte_vec("b"), byte_vec("2"));
    memtable.set(byte_vec("a"), byte_vec("3"));
    assert_eq!(memtable.len(), 2);
}
