//! Tests of the LSM coordinator: flushing, reading across tables, and
//! compaction.

use kv_store::lsm::LSMTree;
use kv_store::memtable::MemTable;
use kv_store::memtable::VecMemTable;

fn byte_vec(s: &str) -> Vec<u8> {
    String::from(s).into_bytes()
}

fn create_lsm_tree() -> LSMTree<VecMemTable> {
    LSMTree::new(Vec::new()).expect("empty listing opens")
}

fn add_sstable_to_tree(lsm_tree: &mut LSMTree<VecMemTable>, values: Vec<(Vec<u8>, Vec<u8>)>) {
    let mut memtable = VecMemTable::new();
    for (key, value) in values {
        memtable.set(key, value);
    }
    lsm_tree.save_memtable(memtable);
}

#[test]
fn test_save_and_get() {
    let mut lsm_tree = create_lsm_tree();

    add_sstable_to_tree(
        &mut lsm_tree,
        vec![
            (byte_vec("a"), byte_vec("a")),
            (byte_vec("1"), byte_vec("1")),
            (byte_vec("fruita"), byte_vec("poma")),
            (byte_vec("ciutat"), byte_vec("Barcelona city")),
            (byte_vec("2"), byte_vec("2")),
            (byte_vec("3"), byte_vec("3")),
        ],
    );

    assert_eq!(
        lsm_tree
            .get(&byte_vec("fruita"))
            .expect("Value should be found"),
        byte_vec("poma")
    );

    assert_eq!(
        lsm_tree
            .get(&byte_vec("ciutat"))
            .expect("Value should be found"),
        byte_vec("Barcelona city")
    );

    assert_eq!(lsm_tree.get(&byte_vec("mandarina")), None);
}

#[test]
fn test_save_waits_for_previous_save() {
    let mut lsm_tree = create_lsm_tree();

    add_sstable_to_tree(
        &mut lsm_tree,
        vec![
            (byte_vec("fruita"), byte_vec("poma")),
            (byte_vec("ciutat"), byte_vec("Barcelona city")),
        ],
    );
    // This should wait for the previous save to finish.
    add_sstable_to_tree(
        &mut lsm_tree,
        vec![
            (byte_vec("cotxe"), byte_vec("Honda")),
            (byte_vec("ciutat"), byte_vec("Matar贸 city")),
        ],
    );

    assert_eq!(
        lsm_tree
            .get(&byte_vec("fruita"))
            .expect("Value should be found"),
        byte_vec("poma")
    );

    assert_eq!(
        lsm_tree
            .get(&byte_vec("ciutat"))
            .expect("Value should be found"),
        byte_vec("Matar贸 city")
    );

    assert_eq!(
        lsm_tree
            .get(&byte_vec("cotxe"))
            .expect("Value should be found"),
        byte_vec("Honda")
    );

    assert_eq!(lsm_tree.get(&byte_vec("mandarina")), None);
}

#[test]
fn test_merge_tables_while_saving() {
    let mut lsm_tree = create_lsm_tree();

    add_sstable_to_tree(
        &mut lsm_tree,
        vec![
            (byte_vec("fruita"), byte_vec("poma")),
            (byte_vec("nom"), byte_vec("Gerard")),
            (byte_vec("ciutat"), byte_vec("Barcelona city")),
        ],
    );
    add_sstable_to_tree(
        &mut lsm_tree,
        vec![
            (byte_vec("cotxe"), byte_vec("Honda")),
            (byte_vec("ciutat"), byte_vec("Matar贸 city")),
        ],
    );
    add_sstable_to_tree(
        &mut lsm_tree,
        vec![
            (byte_vec("fruita"), byte_vec("mandarina")),
            (byte_vec("ciutat"), byte_vec("Sabadell")),
        ],
    );
    lsm_tree.merge_sstables();

    lsm_tree.wait_for_threads();

    // As we called merge_sstables just before saving one, only the committed ones (first two) will
    // actually be merged, so we would end up with the merged table and the newest one.
    assert_eq!(lsm_tree.len(), 2);

    assert_eq!(
        lsm_tree
            .get(&byte_vec("fruita"))
            .expect("Value should be found"),
        byte_vec("mandarina")
    );

    assert_eq!(
        lsm_tree
            .get(&byte_vec("ciutat"))
            .expect("Value should be found"),
        byte_vec("Sabadell")
    );

    assert_eq!(
        lsm_tree
            .get(&byte_vec("cotxe"))
            .expect("Value should be found"),
        byte_vec("Honda")
    );

    assert_eq!(
        lsm_tree
            .get(&byte_vec("nom"))
            .expect("Value should be found"),
        byte_vec("Gerard")
    );

    assert_eq!(lsm_tree.get(&byte_vec("coffee")), None);
}

#[test]
fn test_merge_tables_while_not_saving() {
    let mut lsm_tree = create_lsm_tree();

    add_sstable_to_tree(
        &mut lsm_tree,
        vec![
            (byte_vec("fruita"), byte_vec("poma")),
            (byte_vec("nom"), byte_vec("Gerard")),
            (byte_vec("ciutat"), byte_vec("Barcelona city")),
        ],
    );
    add_sstable_to_tree(
        &mut lsm_tree,
        vec![
            (byte_vec("cotxe"), byte_vec("Honda")),
            (byte_vec("ciutat"), byte_vec("Matar贸 city")),
        ],
    );

    lsm_tree.wait_for_threads();

    lsm_tree.merge_sstables();

    lsm_tree.wait_for_threads();

    add_sstable_to_tree(
        &mut lsm_tree,
        vec![
            (byte_vec("fruita"), byte_vec("mandarina")),
            (byte_vec("ciutat"), byte_vec("Sabadell")),
        ],
    );

    // As we called merge_sstables just before saving one, only the committed ones (first two) will
    // actually be merged, so we would end up with the merged table and the newest one.
    assert_eq!(lsm_tree.len(), 1);

    assert_eq!(
        lsm_tree
            .get(&byte_vec("fruita"))
            .expect("Value should be found"),
        byte_vec("mandarina")
    );

    assert_eq!(
        lsm_tree
            .get(&byte_vec("ciutat"))
            .expect("Value should be found"),
        byte_vec("Sabadell")
    );

    assert_eq!(
        lsm_tree
            .get(&byte_vec("cotxe"))
            .expect("Value should be found"),
        byte_vec("Honda")
    );

    assert_eq!(
        lsm_tree
            .get(&byte_vec("nom"))
            .expect("Value should be found"),
        byte_vec("Gerard")
    );

    assert_eq!(lsm_tree.get(&byte_vec("coffee")), None);
}

#[test]
fn lsm_tree_test_save_and_get() {
    let mut lsm_tree = create_lsm_tree();

    add_sstable_to_tree(
        &mut lsm_tree,
        vec![
            (byte_vec("fruita"), byte_vec("poma")),
            (byte_vec("ciutat"), byte_vec("Barcelona city")),
        ],
    );

    add_sstable_to_tree(
        &mut lsm_tree,
        vec![
            (byte_vec("cotxe"), byte_vec("Honda")),
            (byte_vec("ciutat"), byte_vec("Mataró city")),
        ],
    );

    assert_eq!(
        lsm_tree
            .get(&byte_vec("fruita"))
            .expect("Value should be found"),
        byte_vec("poma")
    );

    assert_eq!(
        lsm_tree
            .get(&byte_vec("ciutat"))
            .expect("Value should be found"),
        byte_vec("Mataró city")
    );

    assert_eq!(
        lsm_tree
            .get(&byte_vec("cotxe"))
            .expect("Value should be found"),
        byte_vec("Honda")
    );

    assert_eq!(lsm_tree.get(&byte_vec("mandarina")), None);
}
