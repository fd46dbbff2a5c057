use kv::entry::Entry;
use kv::entry::EntryType;
use kv::err::ErrCode;

#[test]
fn encode_lays_out_lengths_key_value_and_tag() {
    let entry = Entry { key: b"ab".to_vec(), val: b"xyz".to_vec(), typ: EntryType::Normal };
    assert_eq!(entry.encode(), vec![2, 3, b'a', b'b', b'x', b'y', b'z', 1]);
    let deleted = Entry { key: b"k".to_vec(), val: Vec::new(), typ: EntryType::Deleted };
    assert_eq!(deleted.encode(), vec![1, 0, b'k', 2]);
}

#[test]
fn decode_of_encode_gives_the_entry_back() {
    let key = vec![7u8; 255];
    let val: Vec<u8> = (0..=254u8).collect();
    let entry = Entry { key: key.clone(), val: val.clone(), typ: EntryType::Normal };
    let bytes = entry.encode();
    assert_eq!(bytes.len(), 3 + 255 + 255);
    let back = Entry::decode(&bytes).unwrap();
    assert_eq!(back.key, key);
    assert_eq!(back.val, val);
    assert_eq!(back.typ, EntryType::Normal);
}

#[test]
fn decode_ignores_trailing_bytes() {
    let back = Entry::decode(&[1, 1, b'k', b'v', 2, 9, 9]).unwrap();
    assert_eq!(back.key, b"k".to_vec());
    assert_eq!(back.val, b"v".to_vec());
    assert_eq!(back.typ, EntryType::Deleted);
}

#[test]
fn decode_rejects_short_and_unknown_records() {
    assert_eq!(Entry::decode(&[]).err().unwrap().code, ErrCode::DecodeEntryFailed);
    assert_eq!(Entry::decode(&[1]).err().unwrap().code, ErrCode::DecodeEntryFailed);
    assert_eq!(Entry::decode(&[2, 1, b'a', b'b', b'c']).err().unwrap().code, ErrCode::DecodeEntryFailed);
    assert_eq!(Entry::decode(&[1, 1, b'a', b'b', 3]).err().unwrap().code, ErrCode::DecodeEntryFailed);
}
