//! End-to-end tests of the store façade: writes, deletes, tombstones, the
//! flush barrier, rotation under load, and persistence across close and
//! reopen.

use kv_store::memtable::VecMemTable;

type Store = kv_store::store::KVStore<VecMemTable>;

fn byte_vec(s: &str) -> Vec<u8> {
    String::from(s).into_bytes()
}

fn random_bytes() -> Vec<u8> {
    (0..20).map(|_| rand::random::<u8>()).collect()
}

fn create_kvstore() -> Store {
    Store::new(Vec::new()).expect("empty listing opens")
}

#[test]
fn test_basic() {
    let mut kv = create_kvstore();

    kv.set(byte_vec("a"), byte_vec("mandarina")).unwrap();
    kv.set(byte_vec("b"), byte_vec("platan")).unwrap();
    kv.set(byte_vec("c"), byte_vec("poma")).unwrap();
    kv.delete(&byte_vec("c")).unwrap();

    assert_eq!(kv.get(&byte_vec("a")), Some(byte_vec("mandarina")));
    assert_eq!(kv.get(&byte_vec("b")), Some(byte_vec("platan")));
    assert_eq!(kv.get(&byte_vec("c")), None);
}

#[test]
fn test_basic_while_saving_memtable() {
    let mut kv = create_kvstore();

    kv.set(byte_vec("a"), byte_vec("mandarina")).unwrap();
    kv.set(byte_vec("b"), byte_vec("platan")).unwrap();
    kv.set(byte_vec("c"), byte_vec("poma")).unwrap();
    kv.delete(&byte_vec("c")).unwrap();

    kv.save_memtable();

    // Test while saving memtable
    assert_eq!(kv.get(&byte_vec("a")), Some(byte_vec("mandarina")));
    assert_eq!(kv.get(&byte_vec("b")), Some(byte_vec("platan")));
    assert_eq!(kv.get(&byte_vec("c")), None);

    kv.wait_for_threads();

    // Test after memtable is on disk
    assert_eq!(kv.get(&byte_vec("a")), Some(byte_vec("mandarina")));
    assert_eq!(kv.get(&byte_vec("b")), Some(byte_vec("platan")));
    assert_eq!(kv.get(&byte_vec("c")), None);
}

#[test]
fn test_delete_after_saving_memtable() {
    let mut kv = create_kvstore();

    kv.set(byte_vec("a"), byte_vec("mandarina")).unwrap();
    kv.set(byte_vec("b"), byte_vec("platan")).unwrap();
    kv.set(byte_vec("c"), byte_vec("poma")).unwrap();

    kv.save_memtable();

    kv.delete(&byte_vec("c")).unwrap();

    // Test while saving memtable
    assert_eq!(kv.get(&byte_vec("a")), Some(byte_vec("mandarina")));
    assert_eq!(kv.get(&byte_vec("b")), Some(byte_vec("platan")));
    assert_eq!(kv.get(&byte_vec("c")), None);

    kv.wait_for_threads();

    // Test after memtable is on disk
    assert_eq!(kv.get(&byte_vec("a")), Some(byte_vec("mandarina")));
    assert_eq!(kv.get(&byte_vec("b")), Some(byte_vec("platan")));
    assert_eq!(kv.get(&byte_vec("c")), None);
}

#[test]
fn integration_test_test_insert_same_key() {
    let mut kv = create_kvstore();

    kv.set(byte_vec("a"), byte_vec("mandarina")).unwrap();
    assert_eq!(kv.get(&byte_vec("a")), Some(byte_vec("mandarina")));

    kv.set(byte_vec("a"), byte_vec("platan")).unwrap();
    assert_eq!(kv.get(&byte_vec("a")), Some(byte_vec("platan")));

    for _ in 0..10_000 {
        kv.set(random_bytes(), random_bytes()).unwrap();
    }

    assert_eq!(kv.get(&byte_vec("a")), Some(byte_vec("platan")));

    kv.set(byte_vec("a"), byte_vec("ana")).unwrap();
    assert_eq!(kv.get(&byte_vec("a")), Some(byte_vec("ana")));
}

#[test]
fn test_persistance() {
    let mut kv = create_kvstore();

    kv.set(byte_vec("a"), byte_vec("mandarina")).unwrap();
    for _ in 0..10_000 {
        kv.set(random_bytes(), random_bytes()).unwrap();
    }
    kv.set(byte_vec("b"), byte_vec("gerard")).unwrap();
    kv.set(byte_vec("a"), byte_vec("platan")).unwrap();
    // Close just after set, to test that the memtable is flushed to the
    // table tier before the directory files are handed back.
    let files = kv.close();

    let new_kv = Store::new(files).expect("reopen over the same files");
    assert_eq!(new_kv.get(&byte_vec("a")), Some(byte_vec("platan")));
    assert_eq!(new_kv.get(&byte_vec("b")), Some(byte_vec("gerard")));
}
