//! Engine-level behaviour: open, insert, lookup, replay, compaction.
use btree_kv::{BTree, Datum, DatumKind, KvError};

fn byte(b: u8) -> Datum {
    Datum::Byte(b)
}

fn text(s: &str) -> Datum {
    Datum::Text(s.as_bytes().to_vec())
}

fn fresh_byte_engine() -> BTree {
    let path = String::from("store.btr");
    BTree::new(&path, 1, 1, DatumKind::Byte, DatumKind::Byte, Vec::new(), Vec::new()).unwrap()
}

fn fresh_text_engine(key_size: usize, value_size: usize) -> BTree {
    let path = String::from("store.btr");
    BTree::new(&path, key_size, value_size, DatumKind::Text, DatumKind::Text, Vec::new(), Vec::new())
        .unwrap()
}

#[test]
fn new_blank_file() {
    let btree = fresh_byte_engine();

    // a fresh engine starts from zero-length files
    assert!(btree.wal_file.is_new());
    assert_eq!(btree.wal_file.count(), 0);

    assert!(btree.tree_file.is_new());
    assert_eq!(btree.tree_file.count(), 0);
}

#[test]
fn new_existing_file() {
    let first = fresh_byte_engine();
    let wal_bytes = first.wal_file.data.clone();
    let tree_bytes = first.tree_file.data.clone();

    let path = String::from("store.btr");
    let btree =
        BTree::new(&path, 1, 1, DatumKind::Byte, DatumKind::Byte, wal_bytes, tree_bytes).unwrap();

    // check our file lengths from the struct
    assert_eq!(btree.tree_file.count(), 0);
    assert_eq!(btree.wal_file.count(), 0);
}

#[test]
fn insert_new_u8() {
    let mut btree = fresh_byte_engine();

    btree.insert(byte(2), byte(3)).unwrap(); // insert into a new file

    assert_eq!(btree.wal_file.count(), 1);
    assert!(btree.mem_tree.contains_key(&byte(2)));
}

#[test]
fn insert_new_str() {
    let mut btree = fresh_text_engine(15, 15);

    // insert into a new file
    btree.insert(text("Hello"), text("World")).unwrap();

    // the flag records the state at open time, so it survives the insert
    assert!(btree.wal_file.is_new());
    assert!(btree.mem_tree.contains_key(&text("Hello")));
}

#[test]
fn get_returns_an_iter() {
    // setup tree
    let mut btree = fresh_text_engine(15, 15);

    let _ = btree.insert(text("Hello"), text("World"));

    // get the values at the hello key
    let set_at_hello: Vec<Datum> = btree.get(&text("Hello")).unwrap();

    assert_eq!(set_at_hello, [text("World")]);
}

#[test]
fn insert_multiple() {
    let mut btree = fresh_text_engine(15, 15);

    // insert into a new file; the freshness flag was set at open time
    btree.insert(text("Hello"), text("World")).unwrap();
    assert!(btree.wal_file.is_new());

    btree.insert(text("Hello"), text("Everyone")).unwrap();
    assert!(btree.wal_file.is_new());
}

#[test]
fn reopened_log_is_not_new() {
    let mut first = fresh_text_engine(15, 15);
    first.insert(text("Hello"), text("World")).unwrap();

    // attaching to a log that already holds bytes reports not-new
    let wal_bytes = first.wal_file.data.clone();
    let path = String::from("store.btr");
    let second = BTree::new(
        &path,
        15,
        15,
        DatumKind::Text,
        DatumKind::Text,
        wal_bytes,
        Vec::new(),
    )
    .unwrap();
    assert!(!second.wal_file.is_new());
    assert!(second.tree_file.is_new());
}

#[test]
fn duplicate_key_accumulates_values() {
    let mut btree = fresh_text_engine(15, 15);

    btree.insert(text("Hello"), text("World")).unwrap();
    btree.insert(text("Hello"), text("Everyone")).unwrap();

    // both values are kept, ascending, not a single overwritten one
    let values = btree.get(&text("Hello")).unwrap();
    assert_eq!(values, [text("Everyone"), text("World")]);
}

#[test]
fn get_of_absent_key_is_none() {
    let mut btree = fresh_text_engine(15, 15);
    btree.insert(text("Hello"), text("World")).unwrap();
    assert!(btree.get(&text("Goodbye")).is_none());
}

#[test]
fn replay_rebuilds_index_from_wal() {
    let mut first = fresh_text_engine(16, 16);
    first.insert(text("apple"), text("red")).unwrap();
    first.insert(text("banana"), text("yellow")).unwrap();
    first.insert(text("apple"), text("green")).unwrap();

    // reopen from the log alone; the store's old content is not consulted
    let wal_bytes = first.wal_file.data.clone();
    let path = String::from("store.btr");
    let second = BTree::new(
        &path,
        16,
        16,
        DatumKind::Text,
        DatumKind::Text,
        wal_bytes,
        Vec::new(),
    )
    .unwrap();

    assert_eq!(second.wal_file.count(), 3);
    assert_eq!(
        second.get(&text("apple")).unwrap(),
        [text("green"), text("red")]
    );
    assert_eq!(second.get(&text("banana")).unwrap(), [text("yellow")]);
}

#[test]
fn oversized_value_is_an_encoding_error() {
    let mut btree = fresh_text_engine(15, 15);
    // 4 length bytes plus 16 text bytes exceed the declared width of 15
    let r = btree.insert(text("Hello"), text("AValueFarTooWide"));
    assert_eq!(r, Err(KvError::Encoding));
    // the engine is unchanged: nothing became visible
    assert_eq!(btree.wal_file.count(), 0);
    assert!(!btree.mem_tree.contains_key(&text("Hello")));
}

#[test]
fn wrong_kind_is_an_encoding_error() {
    let mut btree = fresh_text_engine(15, 15);
    let r = btree.insert(byte(1), text("World"));
    assert_eq!(r, Err(KvError::Encoding));
}

#[test]
fn ragged_wal_is_a_corruption_error() {
    // three bytes cannot be whole records of width two
    let path = String::from("store.btr");
    let r = BTree::new(
        &path,
        1,
        1,
        DatumKind::Byte,
        DatumKind::Byte,
        vec![1u8, 2u8, 3u8],
        Vec::new(),
    );
    assert_eq!(r.err(), Some(KvError::Corruption));
}

#[test]
fn undecodable_store_is_a_corruption_error() {
    // a record whose length prefix runs past the declared width
    let mut bad = vec![0u8; 30];
    bad[0] = 200;
    let path = String::from("store.btr");
    let r = BTree::new(
        &path,
        15,
        15,
        DatumKind::Text,
        DatumKind::Text,
        Vec::new(),
        bad,
    );
    assert_eq!(r.err(), Some(KvError::Corruption));
}

#[test]
fn threshold_triggers_exactly_one_compaction() {
    let mut btree = fresh_text_engine(16, 16);

    for i in 0..1000u32 {
        let key = format!("k{:04}", i);
        btree.insert(text(&key), text("v")).unwrap();
        // at or below the threshold nothing has been compacted
        assert!(btree.new_file.is_none());
    }

    // the 1001st insert pushes the count past the threshold
    btree.insert(text("k1000"), text("v")).unwrap();
    let new_file = btree.new_file.as_ref().unwrap();
    assert_eq!(new_file.count(), 1001);
}

#[test]
fn lookup_after_compaction_still_succeeds() {
    let mut btree = fresh_text_engine(16, 16);
    for i in 0..1001u32 {
        let key = format!("k{:04}", i);
        btree.insert(text(&key), text("v")).unwrap();
    }
    assert!(btree.new_file.is_some());
    // a key inserted before the compaction still answers from memory
    assert_eq!(btree.get(&text("k0000")).unwrap(), [text("v")]);
    assert_eq!(btree.get(&text("k1000")).unwrap(), [text("v")]);
}

#[test]
fn compaction_merges_disk_and_memory_in_order() {
    // an on-disk store with keys [1, 3, 5]
    let tree_bytes = vec![1u8, 30u8, 3u8, 30u8, 5u8, 30u8];
    let path = String::from("store.btr");
    let mut btree = BTree::new(
        &path,
        1,
        1,
        DatumKind::Byte,
        DatumKind::Byte,
        Vec::new(),
        tree_bytes,
    )
    .unwrap();

    // an in-memory index with keys [2, 3, 4]; key 3 is a full tie
    btree.insert(byte(2), byte(30)).unwrap();
    btree.insert(byte(3), byte(30)).unwrap();
    btree.insert(byte(4), byte(30)).unwrap();

    btree.compact().unwrap();

    let merged = btree.new_file.as_ref().unwrap().entries();
    let keys: Vec<Datum> = merged.iter().map(|r| r.key.duplicate()).collect();
    assert_eq!(keys, [byte(1), byte(2), byte(3), byte(3), byte(4), byte(5)]);

    // the log, the index and the old store are untouched
    assert_eq!(btree.wal_file.count(), 3);
    assert_eq!(btree.tree_file.count(), 3);
    assert_eq!(btree.get(&byte(3)).unwrap(), [byte(30)]);
}
