//! A byte channel held in memory.
use vstd::prelude::*;
use vstd::slice::slice_subrange;
use vstd::slice::slice_to_vec;

use super::IoManager;
use crate::err::ErrCode;
use crate::err::Error;
use crate::err::Result;

verus! {

/// A byte channel held in memory: nothing survives the process, and no
/// operation fails but a read past the end.
pub struct MemIo {
    data: Vec<u8>,
    synced: Ghost<nat>,
}

impl MemIo {
    /// The number of bytes held.
    pub fn len(&self) -> (r: usize)
        ensures
            r == self.contents().len(),
    {
        self.data.len()
    }
}

impl IoManager for MemIo {
    closed spec fn contents(&self) -> Seq<u8> {
        self.data@
    }

    closed spec fn synced_len(&self) -> nat {
        self.synced@
    }

    fn open(_dir: &str, _id: u64) -> (r: Result<MemIo>)
        ensures
            r is Ok,
    {
        Ok(MemIo { data: Vec::new(), synced: Ghost(0) })
    }

    fn read(&self, offset: u64, len: usize) -> (r: Result<Vec<u8>>)
        ensures
            r is Ok <==> offset + len <= self.contents().len(),
    {
        let held = self.data.len();
        if offset > held as u64 || len > held - offset as usize {
            return Err(Error::new(ErrCode::ReadDataFileFailed, "Read past the end of the channel"));
        }
        let start = offset as usize;
        let bytes = slice_subrange(self.data.as_slice(), start, start + len);
        Ok(slice_to_vec(bytes))
    }

    fn write(&mut self, buf: &[u8]) -> (r: Result<u64>)
        ensures
            r is Ok,
    {
        let mut more = slice_to_vec(buf);
        self.data.append(&mut more);
        Ok(buf.len() as u64)
    }

    fn sync(&mut self) -> (r: Result<()>)
        ensures
            r is Ok,
    {
        self.synced = Ghost(self.data@.len());
        Ok(())
    }
}

} // verus!
