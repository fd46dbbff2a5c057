//! Records of the log and their byte layout.
//!
//! A record is written as `[key_len][val_len][key][val][tag]`: one byte for
//! each length, the key and value bytes, and one byte for its type
//! (`1` for a normal record, `2` for a deleted one). A reader that knows only
//! where a record starts can recover its exact extent from these bytes.
use vstd::prelude::*;
use vstd::slice::slice_subrange;
use vstd::slice::slice_to_vec;

use crate::err::ErrCode;
use crate::err::Error;
use crate::err::Result;

pub mod data_file;

verus! {

/// The largest key or value that a one-byte length field can describe.
pub const MAX_FIELD_LEN: usize = 255;

/// Where a record lies: the segment that holds it and its byte offset there.
#[derive(Debug, Clone, Copy, PartialEq, Eq, Structural)]
pub struct EntryPos {
    pub file_id: u64,
    pub offset: u64,
}

/// The type of a record.
#[derive(Debug, Clone, Copy, PartialEq, Eq, Structural)]
pub enum EntryType {
    /// A key and its value.
    Normal,
    /// A marker that the key was deleted.
    Deleted,
}

/// The byte that stands for a record type in the layout.
pub open spec fn tag_of(typ: EntryType) -> u8 {
    match typ {
        EntryType::Normal => 1,
        EntryType::Deleted => 2,
    }
}

/// The number of bytes that a record with these field lengths takes.
pub open spec fn encoded_len(key_len: int, val_len: int) -> int {
    3 + key_len + val_len
}

/// The bytes of a record whose key and value are at most `MAX_FIELD_LEN` long.
pub open spec fn spec_encode(key: Seq<u8>, val: Seq<u8>, typ: EntryType) -> Seq<u8> {
    seq![key.len() as u8, val.len() as u8] + key + val + seq![tag_of(typ)]
}

/// The record that starts at the front of `b`, if the bytes there form one.
/// Bytes after the record are ignored.
pub open spec fn spec_decode(b: Seq<u8>) -> Option<(Seq<u8>, Seq<u8>, EntryType)> {
    if b.len() < 2 {
        None
    } else {
        let k = b[0] as int;
        let v = b[1] as int;
        if b.len() < encoded_len(k, v) {
            None
        } else if b[2 + k + v] == 1 {
            Some((b.subrange(2, 2 + k), b.subrange(2 + k, 2 + k + v), EntryType::Normal))
        } else if b[2 + k + v] == 2 {
            Some((b.subrange(2, 2 + k), b.subrange(2 + k, 2 + k + v), EntryType::Deleted))
        } else {
            None
        }
    }
}

/// Decoding the bytes of a record gives the record back, for every key and value
/// that the length fields can describe.
pub proof fn lemma_round_trip(key: Seq<u8>, val: Seq<u8>, typ: EntryType)
    requires
        key.len() <= MAX_FIELD_LEN,
        val.len() <= MAX_FIELD_LEN,
    ensures
        spec_decode(spec_encode(key, val, typ)) == Some((key, val, typ)),
        spec_encode(key, val, typ).len() == encoded_len(key.len() as int, val.len() as int),
{
    let b = spec_encode(key, val, typ);
    let k = key.len() as int;
    let v = val.len() as int;
    assert(b[0] as int == k);
    assert(b[1] as int == v);
    assert(b.subrange(2, 2 + k) =~= key);
    assert(b.subrange(2 + k, 2 + k + v) =~= val);
    assert(b[2 + k + v] == tag_of(typ));
}

/// A record of the log.
pub struct Entry {
    pub key: Vec<u8>,
    pub val: Vec<u8>,
    pub typ: EntryType,
}

impl Entry {
    /// Whether the length fields of the layout can describe this record.
    pub open spec fn wf(&self) -> bool {
        &&& self.key@.len() <= MAX_FIELD_LEN
        &&& self.val@.len() <= MAX_FIELD_LEN
    }

    /// The bytes of this record.
    pub fn encode(&self) -> (r: Vec<u8>)
        requires
            self.wf(),
        ensures
            r@ == spec_encode(self.key@, self.val@, self.typ),
    {
        let mut encoded: Vec<u8> = Vec::new();
        encoded.push(self.key.len() as u8);
        encoded.push(self.val.len() as u8);
        let mut key = slice_to_vec(self.key.as_slice());
        encoded.append(&mut key);
        let mut val = slice_to_vec(self.val.as_slice());
        encoded.append(&mut val);
        let tag: u8 = match self.typ {
            EntryType::Normal => 1,
            EntryType::Deleted => 2,
        };
        encoded.push(tag);
        assert(encoded@ =~= spec_encode(self.key@, self.val@, self.typ));
        encoded
    }

    /// The record that starts at the front of `encoded`; bytes after it are ignored.
    /// Fails when the bytes are fewer than the lengths say or the type byte is unknown.
    pub fn decode(encoded: &[u8]) -> (r: Result<Entry>)
        ensures
            match r {
                Ok(e) => spec_decode(encoded@) == Some((e.key@, e.val@, e.typ)) && e.wf(),
                Err(e) => spec_decode(encoded@) is None && e.code == ErrCode::DecodeEntryFailed,
            },
    {
        if encoded.len() < 2 {
            return Err(Error::new(ErrCode::DecodeEntryFailed, "Entry is shorter than its header"));
        }
        let key_len = encoded[0] as usize;
        let val_len = encoded[1] as usize;
        let end = 2 + key_len + val_len;
        if encoded.len() <= end {
            return Err(Error::new(ErrCode::DecodeEntryFailed, "Entry is shorter than its lengths"));
        }
        let typ = if encoded[end] == 1 {
            EntryType::Normal
        } else if encoded[end] == 2 {
            EntryType::Deleted
        } else {
            return Err(Error::new(ErrCode::DecodeEntryFailed, "Invalid entry type"));
        };
        let key = slice_to_vec(slice_subrange(encoded, 2, 2 + key_len));
        let val = slice_to_vec(slice_subrange(encoded, 2 + key_len, end));
        Ok(Entry { key, val, typ })
    }
}

} // verus!
