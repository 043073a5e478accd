//! Boundary behaviour of the codec and the file format, one concrete case
//! per law, and an input for each error kind.

use kv_store::codec::decode_entries;
use kv_store::codec::find_value;
use kv_store::codec::read_next_datum;
use kv_store::codec::serialize_entry;
use kv_store::codec::serialize_values;
use kv_store::codec::skip_next_datum;
use kv_store::errors::StoreError;
use kv_store::memtable::MemTable;
use kv_store::memtable::VecMemTable;
use kv_store::sstable::SSTable;
use kv_store::sstable::format_sstable_name;
use kv_store::sstable::parse_sstable_name;
use kv_store::store::tombstone_value;

type Store = kv_store::store::KVStore<VecMemTable>;

fn byte_vec(s: &str) -> Vec<u8> {
    String::from(s).into_bytes()
}

fn create_kvstore() -> Store {
    Store::new(Vec::new()).expect("empty listing opens")
}

#[test]
fn test_entry_round_trip() {
    let bytes = serialize_entry(&byte_vec("fruita"), &byte_vec("poma")).unwrap();
    assert_eq!(
        bytes,
        [&[0u8, 6][..], b"fruita", &[0, 4], b"poma"].concat()
    );
    assert_eq!(
        find_value(&bytes, &byte_vec("fruita")).unwrap(),
        Some(byte_vec("poma"))
    );
    assert_eq!(find_value(&bytes, &byte_vec("poma")).unwrap(), None);
}

#[test]
fn test_empty_value_round_trip() {
    let bytes = serialize_entry(&byte_vec("k"), &Vec::new()).unwrap();
    assert_eq!(bytes, vec![0, 1, b'k', 0, 0]);
    assert_eq!(find_value(&bytes, &byte_vec("k")).unwrap(), Some(Vec::new()));
}

#[test]
fn test_longest_key_round_trip() {
    let key = vec![7u8; 65_535];
    let bytes = serialize_entry(&key, &byte_vec("v")).unwrap();
    assert_eq!(bytes.len(), 2 + 65_535 + 2 + 1);
    assert_eq!(find_value(&bytes, &key).unwrap(), Some(byte_vec("v")));
}

#[test]
fn test_oversized_fields_rejected() {
    let long = vec![7u8; 65_536];
    assert_eq!(
        serialize_entry(&long, &byte_vec("v")),
        Err(StoreError::OversizedField)
    );
    assert_eq!(
        serialize_entry(&byte_vec("k"), &long),
        Err(StoreError::OversizedField)
    );
    assert_eq!(
        serialize_values(&vec![(byte_vec("k"), long.clone())]),
        Err(StoreError::OversizedField)
    );
    let mut kv = create_kvstore();
    assert_eq!(
        kv.set(byte_vec("k"), long.clone()),
        Err(StoreError::OversizedField)
    );
    assert_eq!(kv.set(long.clone(), byte_vec("v")), Err(StoreError::OversizedField));
    assert_eq!(kv.delete(&long), Err(StoreError::OversizedField));
    assert_eq!(kv.get(&byte_vec("k")), None);
}

#[test]
fn test_datum_error_taxonomy() {
    let mut pos: usize = 0;
    let mut buffer: Vec<u8> = Vec::new();

    // Clean end of stream on the length prefix.
    let empty: Vec<u8> = Vec::new();
    assert_eq!(
        read_next_datum(&empty, &mut pos, &mut buffer),
        Err(StoreError::UnexpectedEof)
    );

    // The prefix itself is cut short.
    let short = vec![0u8];
    pos = 0;
    assert_eq!(
        read_next_datum(&short, &mut pos, &mut buffer),
        Err(StoreError::TruncatedRecord)
    );

    // The prefix promises more bytes than remain.
    let truncated = vec![0u8, 5, 1, 2];
    pos = 0;
    assert_eq!(
        read_next_datum(&truncated, &mut pos, &mut buffer),
        Err(StoreError::TruncatedRecord)
    );
    pos = 0;
    assert_eq!(
        skip_next_datum(&truncated, &mut pos),
        Err(StoreError::TruncatedRecord)
    );

    // A good datum reads and skips cleanly.
    let good = vec![0u8, 2, 9, 8];
    pos = 0;
    assert_eq!(read_next_datum(&good, &mut pos, &mut buffer), Ok(2));
    assert_eq!(pos, 4);
    assert_eq!(&buffer[..2], &[9, 8]);
    pos = 0;
    assert_eq!(skip_next_datum(&good, &mut pos), Ok(2));
    assert_eq!(pos, 4);

    // A whole file of records decodes; a truncated one is malformed.
    let two = serialize_values(&vec![
        (byte_vec("a"), byte_vec("1")),
        (byte_vec("b"), byte_vec("2")),
    ])
    .unwrap();
    assert_eq!(
        decode_entries(&two).unwrap(),
        vec![(byte_vec("a"), byte_vec("1")), (byte_vec("b"), byte_vec("2"))]
    );
    let cut = two[..two.len() - 1].to_vec();
    assert_eq!(decode_entries(&cut), Err(StoreError::MalformedFile));
}

#[test]
fn test_sstable_name_round_trip_and_order() {
    let name = format_sstable_name(42);
    assert_eq!(name, byte_vec("00000042.sstable"));
    assert_eq!(parse_sstable_name(&name), Some(42));
    assert_eq!(parse_sstable_name(&byte_vec("hello.txt")), None);
    assert_eq!(parse_sstable_name(&byte_vec("0000042.sstable")), None);

    // Zero-padded names sort like their indices.
    let a = format_sstable_name(9);
    let b = format_sstable_name(10);
    let c = format_sstable_name(100);
    assert!(a < b && b < c);
}

#[test]
fn test_empty_memtable_flush_yields_empty_file() {
    let mut kv = create_kvstore();
    kv.save_memtable();
    let files = kv.close();
    // The explicit flush wrote one empty file; closing flushed the (still
    // empty) live memtable as a second one.
    assert_eq!(files.len(), 2);
    assert_eq!(files[0].0, byte_vec("00000000.sstable"));
    assert_eq!(files[0].1, Vec::<u8>::new());
    assert_eq!(files[1].0, byte_vec("00000001.sstable"));

    // A scan of the empty table is absent for any key.
    let table = SSTable::new(0, Vec::new()).unwrap();
    assert_eq!(table.get(&byte_vec("anything")), None);
}

#[test]
fn test_rejects_foreign_and_broken_files() {
    // A file with a non-numeric name is rejected at construction.
    assert!(matches!(
        Store::new(vec![(byte_vec("hello.txt"), Vec::new())]),
        Err(StoreError::InvalidFileName)
    ));
    // Two files naming one index are rejected.
    assert!(matches!(
        Store::new(vec![
            (byte_vec("00000000.sstable"), Vec::new()),
            (byte_vec("00000000.sstable"), Vec::new()),
        ]),
        Err(StoreError::InvalidFileName)
    ));
    // A table whose contents end mid-record is rejected.
    assert!(matches!(
        Store::new(vec![(byte_vec("00000000.sstable"), vec![0u8, 5])]),
        Err(StoreError::MalformedFile)
    ));
    // A table whose keys are out of order is rejected.
    let unsorted = serialize_values(&vec![
        (byte_vec("b"), byte_vec("2")),
        (byte_vec("a"), byte_vec("1")),
    ])
    .unwrap();
    assert!(matches!(
        Store::new(vec![(byte_vec("00000000.sstable"), unsorted)]),
        Err(StoreError::MalformedFile)
    ));
}

#[test]
fn test_exact_file_bytes() {
    let mut kv = create_kvstore();
    kv.set(byte_vec("fruita"), byte_vec("poma")).unwrap();
    kv.set(byte_vec("ciutat"), byte_vec("Barcelona city")).unwrap();
    let files = kv.close();
    assert_eq!(files.len(), 1);
    assert_eq!(files[0].0, byte_vec("00000000.sstable"));
    let expected = [
        &[0u8, 6][..],
        b"ciutat",
        &[0, 14],
        b"Barcelona city",
        &[0, 6],
        b"fruita",
        &[0, 4],
        b"poma",
    ]
    .concat();
    assert_eq!(files[0].1, expected);
}

#[test]
fn test_set_survives_unrelated_operations() {
    let mut kv = create_kvstore();
    kv.set(byte_vec("keep"), byte_vec("me")).unwrap();
    kv.set(byte_vec("other"), byte_vec("1")).unwrap();
    kv.delete(&byte_vec("other")).unwrap();
    kv.save_memtable();
    kv.wait_for_threads();
    kv.set(byte_vec("more"), byte_vec("2")).unwrap();
    assert_eq!(kv.get(&byte_vec("keep")), Some(byte_vec("me")));
}

#[test]
fn test_delete_absent_key() {
    let mut kv = create_kvstore();
    assert_eq!(kv.get(&byte_vec("ghostly")), None);
    kv.delete(&byte_vec("ghostly")).unwrap();
    assert_eq!(kv.get(&byte_vec("ghostly")), None);
}

#[test]
fn test_tombstone_value_reads_as_absent() {
    let mut kv = create_kvstore();
    kv.set(byte_vec("k"), tombstone_value()).unwrap();
    assert_eq!(kv.get(&byte_vec("k")), None);
}

#[test]
fn test_open_unsorted_listing() {
    // Files handed over in any order install in the order their names
    // encode: the higher-numbered table stays the newer one.
    let older = serialize_values(&vec![(byte_vec("k"), byte_vec("old"))]).unwrap();
    let newer = serialize_values(&vec![(byte_vec("k"), byte_vec("new"))]).unwrap();
    let kv = Store::new(vec![
        (byte_vec("00000001.sstable"), newer),
        (byte_vec("00000000.sstable"), older),
    ])
    .unwrap();
    assert_eq!(kv.get(&byte_vec("k")), Some(byte_vec("new")));
}

#[test]
fn test_compaction_triggers_past_threshold() {
    let mut lsm = kv_store::lsm::LSMTree::<VecMemTable>::new(Vec::new()).unwrap();
    for i in 0..33u8 {
        let mut memtable = VecMemTable::new();
        memtable.set(byte_vec("n"), vec![i]);
        lsm.save_memtable(memtable);
    }
    // Joining the last flush leaves 33 tables, one past the threshold, so
    // compaction collapses them into one.
    lsm.wait_for_threads();
    assert_eq!(lsm.len(), 1);
    assert_eq!(lsm.get(&byte_vec("n")), Some(vec![32]));
}

#[test]
fn test_compaction_preserves_reads() {
    let mut lsm = kv_store::lsm::LSMTree::<VecMemTable>::new(Vec::new()).unwrap();
    let layers: Vec<Vec<(&str, &str)>> = vec![
        vec![("fruita", "poma"), ("nom", "Gerard"), ("ciutat", "Barcelona")],
        vec![("cotxe", "Honda"), ("ciutat", "Mataro")],
        vec![("fruita", "mandarina"), ("ciutat", "Sabadell")],
    ];
    for layer in layers {
        let mut memtable = VecMemTable::new();
        for (k, v) in layer {
            memtable.set(byte_vec(k), byte_vec(v));
        }
        lsm.save_memtable(memtable);
    }
    lsm.wait_for_threads();
    let keys = ["fruita", "nom", "ciutat", "cotxe", "coffee"];
    let before: Vec<Option<Vec<u8>>> = keys.iter().map(|k| lsm.get(&byte_vec(k))).collect();
    lsm.merge_sstables();
    assert_eq!(lsm.len(), 1);
    let after: Vec<Option<Vec<u8>>> = keys.iter().map(|k| lsm.get(&byte_vec(k))).collect();
    assert_eq!(before, after);
    assert_eq!(lsm.get(&byte_vec("fruita")), Some(byte_vec("mandarina")));
}
