use kv::entry::EntryPos;
use kv::index::btree::BTree;
use kv::index::Indexer;

#[test]
fn test_btree_put() {
    let mut btree = BTree::new();

    let key1 = "".as_bytes().to_vec();
    let pos1 = EntryPos { file_id: 1, offset: 10 };
    assert!(btree.put(key1, pos1));

    let key2 = "key2".as_bytes().to_vec();
    let pos2 = EntryPos { file_id: 2, offset: 20 };
    assert!(btree.put(key2, pos2));
}

#[test]
fn test_btree_get() {
    let mut btree = BTree::new();

    let key1 = "key1".as_bytes().to_vec();
    let pos1 = EntryPos { file_id: 1, offset: 10 };
    btree.put(key1.clone(), pos1);

    let key2 = "key2".as_bytes().to_vec();
    let pos2 = EntryPos { file_id: 2, offset: 20 };
    btree.put(key2.clone(), pos2);

    let get_res1 = btree.get(key1);
    assert!(get_res1.is_some());
    println!("{:?}", get_res1);
    let get_res1 = get_res1.unwrap();
    assert_eq!(get_res1.file_id, 1);
    assert_eq!(get_res1.offset, 10);

    let get_res2 = btree.get(key2);
    assert!(get_res2.is_some());
    println!("{:?}", get_res2);
    let get_res2 = get_res2.unwrap();
    assert_eq!(get_res2.file_id, 2);
    assert_eq!(get_res2.offset, 20);
}

#[test]
fn test_btree_del() {
    let mut btree = BTree::new();

    let key1 = "key1".as_bytes().to_vec();
    let pos1 = EntryPos { file_id: 1, offset: 10 };
    btree.put(key1.clone(), pos1);

    let key2 = "key2".as_bytes().to_vec();
    let pos2 = EntryPos { file_id: 2, offset: 20 };
    btree.put(key2.clone(), pos2);

    let del_res1 = btree.del(key1);
    assert!(del_res1);

    let get_res2 = btree.del(key2);
    assert!(get_res2);

    let key = "not_exist".as_bytes().to_vec();
    let del_res3 = btree.del(key);
    assert!(!del_res3);
}

#[test]
fn btree_put_replaces_position() {
    let mut btree = BTree::new();
    assert!(btree.put(b"k".to_vec(), EntryPos { file_id: 0, offset: 0 }));
    assert!(btree.put(b"k".to_vec(), EntryPos { file_id: 3, offset: 7 }));
    assert_eq!(btree.get(b"k".to_vec()), Some(EntryPos { file_id: 3, offset: 7 }));
}

#[test]
fn btree_keeps_keys_apart_in_any_order() {
    let mut btree = BTree::new();
    let keys: [&[u8]; 6] = [b"m", b"a", b"zz", b"ab", b"", b"z"];
    for (i, k) in keys.iter().enumerate() {
        assert!(btree.put(k.to_vec(), EntryPos { file_id: i as u64, offset: 0 }));
    }
    for (i, k) in keys.iter().enumerate() {
        assert_eq!(btree.get(k.to_vec()), Some(EntryPos { file_id: i as u64, offset: 0 }));
    }
    assert_eq!(btree.get(b"b".to_vec()), None);
    assert!(btree.del(b"ab".to_vec()));
    assert_eq!(btree.get(b"ab".to_vec()), None);
    assert_eq!(btree.get(b"a".to_vec()), Some(EntryPos { file_id: 1, offset: 0 }));
    assert!(!btree.del(b"ab".to_vec()));
}
