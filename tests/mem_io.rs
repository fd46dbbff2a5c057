use kv::fio::mem_io::MemIo;
use kv::fio::IoManager;

#[test]
fn mem_io_appends_and_reads_at_offsets() {
    let mut io = MemIo::open("dir", 5).unwrap();
    assert_eq!(io.len(), 0);
    assert_eq!(io.write(b"key1").unwrap(), 4);
    assert_eq!(io.write(b"key_abcd").unwrap(), 8);
    assert_eq!(io.len(), 12);
    assert_eq!(io.read(4, 8).unwrap(), b"key_abcd".to_vec());
    assert_eq!(io.read(0, 4).unwrap(), b"key1".to_vec());
    assert!(io.sync().is_ok());
    assert_eq!(io.len(), 12);
}

#[test]
fn mem_io_read_past_end_fails() {
    let mut io = MemIo::open("dir", 0).unwrap();
    io.write(b"abc").unwrap();
    assert_eq!(io.read(1, 3).err().unwrap().code, kv::err::ErrCode::ReadDataFileFailed);
    assert_eq!(io.read(4, 0).err().unwrap().code, kv::err::ErrCode::ReadDataFileFailed);
    assert_eq!(io.read(u64::MAX, 2).err().unwrap().code, kv::err::ErrCode::ReadDataFileFailed);
    assert_eq!(io.read(3, 0).unwrap(), Vec::<u8>::new());
    assert_eq!(io.read(1, 2).unwrap(), b"bc".to_vec());
}

#[test]
fn data_file_tracks_offset_and_reads_back() {
    let mut f = kv::entry::data_file::DataFile::<MemIo>::new("dir", 7).unwrap();
    assert_eq!(f.id(), 7);
    assert_eq!(f.offset(), 0);
    assert_eq!(f.write(b"key1").unwrap(), 4);
    assert_eq!(f.write(b"key_abcd").unwrap(), 8);
    assert_eq!(f.offset(), 12);
    assert!(f.sync().is_ok());
    assert_eq!(f.offset(), 12);
    assert_eq!(f.read(4, 8).unwrap(), b"key_abcd".to_vec());
    assert_eq!(f.read(10, 3).err().unwrap().code, kv::err::ErrCode::ReadDataFileFailed);
}
