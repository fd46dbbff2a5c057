use kv::db::Engine;
use kv::entry::data_file::DataFileConfig;
use kv::entry::EntryPos;
use kv::entry::EntryType;
use kv::err::ErrCode;
use kv::fio::mem_io::MemIo;

fn engine(size: u64, sync: bool) -> Engine<MemIo> {
    let config = DataFileConfig {
        data_path_dir: String::from("data"),
        data_file_size: size,
        write_sync_strategy: sync,
    };
    Engine::new(config).unwrap()
}

#[test]
fn new_engine_starts_with_segment_zero() {
    let e = engine(64, false);
    assert_eq!(e.active_file_id(), 0);
    assert_eq!(e.active_file_offset(), 0);
    assert!(!e.is_sealed(0));
}

#[test]
fn put_then_get_returns_value() {
    let mut e = engine(1024, true);
    e.put(b"key", b"value").unwrap();
    let got = e.get(b"key").unwrap();
    assert_eq!(got.key, b"key".to_vec());
    assert_eq!(got.val, b"value".to_vec());
    assert_eq!(got.typ, EntryType::Normal);
    assert_eq!(e.active_file_offset(), 3 + 3 + 5);
}

#[test]
fn empty_key_is_rejected() {
    let mut e = engine(1024, false);
    assert_eq!(e.put(b"", b"v").err().unwrap().code, ErrCode::EmptyKeyError);
    assert_eq!(e.get(b"").err().unwrap().code, ErrCode::EmptyKeyError);
    e.put(b"a", b"b").unwrap();
    assert_eq!(e.put(b"", b"").err().unwrap().code, ErrCode::EmptyKeyError);
    assert_eq!(e.get(b"").err().unwrap().code, ErrCode::EmptyKeyError);
    assert_eq!(e.active_file_offset(), 5);
}

#[test]
fn overwrite_returns_later_value() {
    let mut e = engine(1024, false);
    e.put(b"k", b"first").unwrap();
    e.put(b"k", b"second").unwrap();
    assert_eq!(e.get(b"k").unwrap().val, b"second".to_vec());
    // Both records stay in the log.
    assert_eq!(e.active_file_offset(), (3 + 1 + 5) + (3 + 1 + 6));
    assert_eq!(e.position(b"k"), Some(EntryPos { file_id: 0, offset: 9 }));
}

#[test]
fn missing_key_is_not_found() {
    let mut e = engine(1024, false);
    assert_eq!(e.get(b"nope").err().unwrap().code, ErrCode::KeyNotFoundError);
    e.put(b"yes", b"1").unwrap();
    assert_eq!(e.get(b"nope").err().unwrap().code, ErrCode::KeyNotFoundError);
    assert_eq!(e.position(b"nope"), None);
}

#[test]
fn too_long_key_or_value_is_rejected() {
    let mut e = engine(4096, false);
    let long = vec![1u8; 256];
    assert_eq!(e.put(&long, b"v").err().unwrap().code, ErrCode::EntryTooLarge);
    assert_eq!(e.put(b"k", &long).err().unwrap().code, ErrCode::EntryTooLarge);
    assert_eq!(e.active_file_offset(), 0);
    let max = vec![2u8; 255];
    e.put(&max, &max).unwrap();
    assert_eq!(e.get(&max).unwrap().val, max);
}

#[test]
fn scenario_two_records_over_sixty_four_bytes() {
    let mut e = engine(64, false);
    let v1 = b"0123456789abcdefghijklmnopqrstuv";
    let v2 = b"ABCDEFGHIJKLMNOPQRSTUVWXYZ012345";
    e.put(b"alpha", v1).unwrap();
    assert_eq!(e.position(b"alpha"), Some(EntryPos { file_id: 0, offset: 0 }));
    assert_eq!(e.active_file_offset(), 40);

    e.put(b"bravo", v2).unwrap();
    assert!(e.is_sealed(0));
    assert_eq!(e.active_file_id(), 1);
    assert_eq!(e.position(b"bravo"), Some(EntryPos { file_id: 1, offset: 0 }));
    assert_eq!(e.active_file_offset(), 40);

    assert_eq!(e.get(b"alpha").unwrap().val, v1.to_vec());
    assert_eq!(e.get(b"bravo").unwrap().val, v2.to_vec());
}

#[test]
fn rotation_happens_only_past_the_limit() {
    let mut e = engine(20, false);
    // Exactly fills the segment: 3 + 7 + 10 = 20 bytes.
    e.put(b"exactly", b"0123456789").unwrap();
    assert_eq!(e.active_file_id(), 0);
    assert_eq!(e.active_file_offset(), 20);
    // One more byte of record does not fit.
    e.put(b"a", b"").unwrap();
    assert_eq!(e.active_file_id(), 1);
    assert!(e.is_sealed(0));
    assert_eq!(e.position(b"a"), Some(EntryPos { file_id: 1, offset: 0 }));
    e.put(b"b", b"").unwrap();
    assert_eq!(e.position(b"b"), Some(EntryPos { file_id: 1, offset: 4 }));
    e.put(b"exactly", b"").unwrap();
    assert_eq!(e.active_file_id(), 1);
    assert_eq!(e.get(b"exactly").unwrap().val, Vec::<u8>::new());
}

#[test]
fn record_larger_than_segment_still_goes_to_a_new_segment() {
    let mut e = engine(4, false);
    e.put(b"key", b"value").unwrap();
    assert_eq!(e.active_file_id(), 1);
    assert!(e.is_sealed(0));
    assert_eq!(e.position(b"key"), Some(EntryPos { file_id: 1, offset: 0 }));
    e.put(b"k2", b"v").unwrap();
    assert_eq!(e.active_file_id(), 2);
    assert!(e.is_sealed(1));
    assert_eq!(e.get(b"key").unwrap().val, b"value".to_vec());
    assert_eq!(e.get(b"k2").unwrap().val, b"v".to_vec());
}
