use btree_storage::btree::BTree;
use btree_storage::error::Error;
use btree_storage::page::KEY_SIZE;

fn insert(t: &mut BTree, k: &[u8], v: &[u8]) {
    t.insert(&k.to_vec(), &v.to_vec()).expect("insert must succeed");
}

fn search(t: &BTree, k: &[u8]) -> Result<Vec<u8>, Error> {
    t.search(&k.to_vec())
}

#[test]
fn insert_search_delete_scenario() {
    let mut t = BTree::new();
    insert(&mut t, b"apple", b"1");
    insert(&mut t, b"banana", b"2");
    insert(&mut t, b"cherry", b"3");
    assert_eq!(search(&t, b"banana").unwrap(), b"2".to_vec());
    t.delete(&b"banana".to_vec()).expect("delete must succeed");
    assert_eq!(search(&t, b"banana").unwrap_err(), Error::NotFound);
    assert_eq!(search(&t, b"apple").unwrap(), b"1".to_vec());
    assert_eq!(search(&t, b"cherry").unwrap(), b"3".to_vec());
}

#[test]
fn search_on_empty_tree_is_not_found() {
    let t = BTree::new();
    assert_eq!(search(&t, b"nothing").unwrap_err(), Error::NotFound);
}

#[test]
fn delete_absent_key_is_not_found() {
    let mut t = BTree::new();
    insert(&mut t, b"apple", b"1");
    assert_eq!(t.delete(&b"pear".to_vec()).unwrap_err(), Error::NotFound);
    assert_eq!(search(&t, b"apple").unwrap(), b"1".to_vec());
}

#[test]
fn insert_replaces_existing_value() {
    let mut t = BTree::new();
    insert(&mut t, b"apple", b"1");
    insert(&mut t, b"apple", b"9");
    assert_eq!(search(&t, b"apple").unwrap(), b"9".to_vec());
}

#[test]
fn oversized_key_is_rejected_and_tree_unchanged() {
    let mut t = BTree::new();
    insert(&mut t, b"apple", b"1");
    let long = vec![7u8; KEY_SIZE + 1];
    assert_eq!(t.insert(&long, &b"x".to_vec()).unwrap_err(), Error::KeyTooLong);
    assert_eq!(search(&t, b"apple").unwrap(), b"1".to_vec());
    assert_eq!(search(&t, &long).unwrap_err(), Error::NotFound);
}

#[test]
fn oversized_value_is_rejected() {
    let mut t = BTree::new();
    let long = vec![7u8; 17];
    assert_eq!(t.insert(&b"k".to_vec(), &long).unwrap_err(), Error::ValueTooLong);
}

#[test]
fn zero_edged_key_is_rejected() {
    let mut t = BTree::new();
    assert_eq!(t.insert(&vec![0u8, 65], &b"v".to_vec()).unwrap_err(), Error::EncodingError);
    assert_eq!(t.insert(&vec![65u8, 0], &b"v".to_vec()).unwrap_err(), Error::EncodingError);
    assert_eq!(t.insert(&b"k".to_vec(), &vec![0u8, 66]).unwrap_err(), Error::EncodingError);
}

#[test]
fn split_keeps_every_pair_reachable() {
    let mut t = BTree::new();
    for i in 0..300u32 {
        let k = format!("key{:04}", i);
        let v = format!("val{:04}", i);
        insert(&mut t, k.as_bytes(), v.as_bytes());
    }
    for i in 0..300u32 {
        let k = format!("key{:04}", i);
        let v = format!("val{:04}", i);
        assert_eq!(search(&t, k.as_bytes()).unwrap(), v.as_bytes().to_vec());
    }
}

#[test]
fn delete_with_merges_keeps_other_pairs() {
    let mut t = BTree::new();
    for i in 0..300u32 {
        let k = format!("key{:04}", i);
        let v = format!("val{:04}", i);
        insert(&mut t, k.as_bytes(), v.as_bytes());
    }
    for i in 0..300u32 {
        if i % 3 != 0 {
            let k = format!("key{:04}", i);
            t.delete(&k.as_bytes().to_vec()).expect("delete must succeed");
        }
    }
    for i in 0..300u32 {
        let k = format!("key{:04}", i);
        let r = search(&t, k.as_bytes());
        if i % 3 == 0 {
            let v = format!("val{:04}", i);
            assert_eq!(r.unwrap(), v.as_bytes().to_vec());
        } else {
            assert_eq!(r.unwrap_err(), Error::NotFound);
        }
    }
}

#[test]
fn borrow_from_sibling_keeps_all_pairs() {
    let mut t = BTree::new();
    // 128 ascending keys split the root leaf into two halves of 64.
    for i in 0..128u32 {
        let k = format!("key{:04}", i);
        let v = format!("val{:04}", i);
        insert(&mut t, k.as_bytes(), v.as_bytes());
    }
    // Two more keys land in the upper half, putting it above the minimum.
    insert(&mut t, b"key0200", b"val0200");
    insert(&mut t, b"key0201", b"val0201");
    // Underfilling the lower half forces it to borrow from its sibling.
    t.delete(&b"key0000".to_vec()).expect("delete must succeed");
    assert_eq!(search(&t, b"key0000").unwrap_err(), Error::NotFound);
    for i in 1..128u32 {
        let k = format!("key{:04}", i);
        let v = format!("val{:04}", i);
        assert_eq!(search(&t, k.as_bytes()).unwrap(), v.as_bytes().to_vec());
    }
    assert_eq!(search(&t, b"key0200").unwrap(), b"val0200".to_vec());
    assert_eq!(search(&t, b"key0201").unwrap(), b"val0201".to_vec());
}

#[test]
fn root_collapse_after_merge() {
    let mut t = BTree::new();
    // 128 ascending keys split the root leaf into two halves of 64.
    for i in 0..128u32 {
        let k = format!("key{:04}", i);
        let v = format!("val{:04}", i);
        insert(&mut t, k.as_bytes(), v.as_bytes());
    }
    // Underfilling the lower half merges the halves and collapses the root.
    t.delete(&b"key0000".to_vec()).expect("delete must succeed");
    assert_eq!(search(&t, b"key0000").unwrap_err(), Error::NotFound);
    for i in 1..128u32 {
        let k = format!("key{:04}", i);
        let v = format!("val{:04}", i);
        assert_eq!(search(&t, k.as_bytes()).unwrap(), v.as_bytes().to_vec());
    }
}

#[test]
fn non_utf8_key_or_value_is_rejected() {
    let mut t = BTree::new();
    insert(&mut t, b"apple", b"1");
    assert_eq!(t.insert(&vec![0xFFu8], &b"v".to_vec()).unwrap_err(), Error::EncodingError);
    assert_eq!(t.insert(&b"k".to_vec(), &vec![0x80u8]).unwrap_err(), Error::EncodingError);
    assert_eq!(search(&t, b"apple").unwrap(), b"1".to_vec());
}

#[test]
fn multibyte_utf8_keys_round_trip_through_the_tree() {
    let mut t = BTree::new();
    insert(&mut t, "clé".as_bytes(), "valeur".as_bytes());
    insert(&mut t, "日本".as_bytes(), "語".as_bytes());
    assert_eq!(search(&t, "clé".as_bytes()).unwrap(), "valeur".as_bytes().to_vec());
    assert_eq!(search(&t, "日本".as_bytes()).unwrap(), "語".as_bytes().to_vec());
}
