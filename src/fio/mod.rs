//! The byte channel under a segment: append, read at an offset, flush.
use vstd::prelude::*;

use crate::err::ErrCode;
use crate::err::Result;

pub mod mem_io;

verus! {

/// A channel of bytes that only grows at its end.
///
/// Implementations are chosen when a storage engine is built: a file on disk,
/// or the in-memory channel of this crate.
pub trait IoManager: Sized {
    /// The bytes that the channel holds.
    spec fn contents(&self) -> Seq<u8>;

    /// How many bytes at the front of the channel a flush has made durable.
    spec fn synced_len(&self) -> nat;

    /// Opens the channel of segment `id` under the directory `dir`.
    /// A channel that opens holds no bytes.
    fn open(dir: &str, id: u64) -> (r: Result<Self>)
        ensures
            match r {
                Ok(m) => m.contents() == Seq::<u8>::empty() && m.synced_len() == 0,
                Err(e) => e.code == ErrCode::OpenDataFileFailed,
            },
    ;

    /// The `len` bytes that start at `offset`; a range past the end of the
    /// channel fails.
    fn read(&self, offset: u64, len: usize) -> (r: Result<Vec<u8>>)
        ensures
            match r {
                Ok(b) => {
                    &&& offset + len <= self.contents().len()
                    &&& b@ == self.contents().subrange(offset as int, offset + len)
                },
                Err(e) => e.code == ErrCode::ReadDataFileFailed,
            },
    ;

    /// Appends all of `buf` at the end of the channel and returns how many bytes
    /// that was. On failure nothing is appended.
    fn write(&mut self, buf: &[u8]) -> (r: Result<u64>)
        ensures
            match r {
                Ok(n) => {
                    &&& n == buf@.len()
                    &&& final(self).contents() == old(self).contents() + buf@
                },
                Err(e) => {
                    &&& final(self).contents() == old(self).contents()
                    &&& e.code == ErrCode::WriteDataFileFailed
                },
            },
            final(self).synced_len() == old(self).synced_len(),
    ;

    /// Makes the bytes written so far durable. What the channel holds does not
    /// change.
    fn sync(&mut self) -> (r: Result<()>)
        requires
            old(self).synced_len() <= old(self).contents().len(),
        ensures
            final(self).contents() == old(self).contents(),
            match r {
                Ok(_) => final(self).synced_len() == old(self).contents().len(),
                Err(e) => {
                    &&& final(self).synced_len() == old(self).synced_len()
                    &&& e.code == ErrCode::SyncDataFileFailed
                },
            },
    ;
}

} // verus!
