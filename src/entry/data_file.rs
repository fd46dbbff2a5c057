//! Segments: the files of the log.
use vstd::prelude::*;

use crate::err::ErrCode;
use crate::err::Error;
use crate::err::Result;
use crate::fio::IoManager;

verus! {

/// One segment of the log: an id that never changes, the byte channel that
/// holds its records, and the offset at which the next record will be written.
pub struct DataFile<M: IoManager> {
    id: u64,
    offset: u64,
    io_manager: M,
}

impl<M: IoManager> DataFile<M> {
    /// The segment's id.
    pub closed spec fn spec_id(&self) -> u64 {
        self.id
    }

    /// The bytes that the segment holds.
    pub closed spec fn contents(&self) -> Seq<u8> {
        self.io_manager.contents()
    }

    /// How many bytes at the front of the segment a flush has made durable.
    pub closed spec fn synced_len(&self) -> nat {
        self.io_manager.synced_len()
    }

    /// The writing offset is the end of what the segment holds, and the durable
    /// bytes are a part of it.
    pub closed spec fn wf(&self) -> bool {
        &&& self.offset as int == self.io_manager.contents().len()
        &&& self.io_manager.synced_len() <= self.io_manager.contents().len()
    }

    /// The durable bytes of a well-formed segment are a part of what it holds.
    pub proof fn lemma_synced_within(&self)
        requires
            self.wf(),
        ensures
            self.synced_len() <= self.contents().len(),
    {
    }

    /// Opens segment `id` under the directory `dir`; a new segment is empty.
    pub fn new(dir: &str, id: u64) -> (r: Result<Self>)
        ensures
            match r {
                Ok(f) => {
                    &&& f.wf()
                    &&& f.spec_id() == id
                    &&& f.contents() == Seq::<u8>::empty()
                    &&& f.synced_len() == 0
                },
                Err(e) => e.code == ErrCode::OpenDataFileFailed,
            },
    {
        let io_manager = M::open(dir, id)?;
        Ok(DataFile { id, offset: 0, io_manager })
    }

    /// The segment's id.
    pub fn id(&self) -> (r: u64)
        ensures
            r == self.spec_id(),
    {
        self.id
    }

    /// The offset at which the next record will be written.
    pub fn offset(&self) -> (r: u64)
        requires
            self.wf(),
        ensures
            r == self.contents().len(),
    {
        self.offset
    }

    /// Appends `data` to the segment and returns how many bytes were written.
    /// The writing offset moves by that many bytes; on failure nothing changes.
    pub fn write(&mut self, data: &[u8]) -> (r: Result<u64>)
        requires
            old(self).wf(),
        ensures
            final(self).wf(),
            final(self).spec_id() == old(self).spec_id(),
            final(self).synced_len() == old(self).synced_len(),
            match r {
                Ok(n) => {
                    &&& n == data@.len()
                    &&& final(self).contents() == old(self).contents() + data@
                },
                Err(e) => {
                    &&& final(self).contents() == old(self).contents()
                    &&& e.code == ErrCode::WriteDataFileFailed
                },
            },
    {
        if data.len() as u64 > u64::MAX - self.offset {
            return Err(Error::new(ErrCode::WriteDataFileFailed, "Data file would outgrow its offset"));
        }
        let size = self.io_manager.write(data)?;
        self.offset = self.offset + size;
        Ok(size)
    }

    /// The `len` bytes of the segment that start at `offset`; a range past the
    /// end of the segment fails.
    pub fn read(&self, offset: u64, len: usize) -> (r: Result<Vec<u8>>)
        ensures
            match r {
                Ok(b) => {
                    &&& offset + len <= self.contents().len()
                    &&& b@ == self.contents().subrange(offset as int, offset + len)
                },
                Err(e) => e.code == ErrCode::ReadDataFileFailed,
            },
    {
        self.io_manager.read(offset, len)
    }

    /// Makes what the segment holds durable; its id, bytes and writing offset
    /// do not change.
    pub fn sync(&mut self) -> (r: Result<()>)
        requires
            old(self).wf(),
        ensures
            final(self).wf(),
            final(self).spec_id() == old(self).spec_id(),
            final(self).contents() == old(self).contents(),
            match r {
                Ok(_) => final(self).synced_len() == old(self).contents().len(),
                Err(e) => {
                    &&& final(self).synced_len() == old(self).synced_len()
                    &&& e.code == ErrCode::SyncDataFileFailed
                },
            },
    {
        self.io_manager.sync()
    }
}

/// Configuration of a storage engine, fixed when it is built.
pub struct DataFileConfig {
    /// The directory that holds the segments.
    pub data_path_dir: String,
    /// The size in bytes past which a segment is sealed and a new one begun.
    pub data_file_size: u64,
    /// Whether every write is made durable before it returns.
    pub write_sync_strategy: bool,
}

} // verus!
