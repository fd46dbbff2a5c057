use vstd::prelude::*;

verus! {

/// What went wrong, as a code that callers can match on.
#[derive(Debug, Clone, Copy, PartialEq, Eq, Structural)]
pub enum ErrCode {
    /// A lock for shared reading could not be taken.
    AcquireReadLockFailed,
    /// A lock for exclusive writing could not be taken.
    AcquireWriteLockFailed,
    /// The key is empty.
    EmptyKeyError,
    /// The key or the value is longer than a length byte can describe.
    EntryTooLarge,
    /// The key is not stored, or its record lies in no known segment.
    KeyNotFoundError,
    /// The index refused an update after the record was appended.
    IndexUpdateFailed,
    /// A segment could not be opened.
    OpenDataFileFailed,
    /// A segment could not be read.
    ReadDataFileFailed,
    /// A segment could not be flushed to durable storage.
    SyncDataFileFailed,
    /// A segment could not be written.
    WriteDataFileFailed,
    /// Bytes that should hold a record do not form one.
    DecodeEntryFailed,
}

impl ErrCode {
    /// Failures of the storage underneath: opening, reading, writing or flushing a segment.
    pub open spec fn is_persistence(self) -> bool {
        ||| self == ErrCode::OpenDataFileFailed
        ||| self == ErrCode::ReadDataFileFailed
        ||| self == ErrCode::SyncDataFileFailed
        ||| self == ErrCode::WriteDataFileFailed
    }

    /// The description of each code.
    pub open spec fn spec_message(self) -> Seq<char> {
        match self {
            ErrCode::AcquireReadLockFailed => "Failed to acquire read lock"@,
            ErrCode::AcquireWriteLockFailed => "Failed to acquire write lock"@,
            ErrCode::EmptyKeyError => "The key is empty"@,
            ErrCode::EntryTooLarge => "The key or value is too long"@,
            ErrCode::KeyNotFoundError => "The key is not found"@,
            ErrCode::IndexUpdateFailed => "Failed to update the index"@,
            ErrCode::OpenDataFileFailed => "Failed to open data file"@,
            ErrCode::ReadDataFileFailed => "Failed to read data file"@,
            ErrCode::SyncDataFileFailed => "Failed to sync data file"@,
            ErrCode::WriteDataFileFailed => "Failed to write file"@,
            ErrCode::DecodeEntryFailed => "Failed to decode an entry"@,
        }
    }

    /// A description of the code for people.
    pub fn message(&self) -> (r: String)
        ensures
            r@ == self.spec_message(),
    {
        let text: &str = match self {
            ErrCode::AcquireReadLockFailed => "Failed to acquire read lock",
            ErrCode::AcquireWriteLockFailed => "Failed to acquire write lock",
            ErrCode::EmptyKeyError => "The key is empty",
            ErrCode::EntryTooLarge => "The key or value is too long",
            ErrCode::KeyNotFoundError => "The key is not found",
            ErrCode::IndexUpdateFailed => "Failed to update the index",
            ErrCode::OpenDataFileFailed => "Failed to open data file",
            ErrCode::ReadDataFileFailed => "Failed to read data file",
            ErrCode::SyncDataFileFailed => "Failed to sync data file",
            ErrCode::WriteDataFileFailed => "Failed to write file",
            ErrCode::DecodeEntryFailed => "Failed to decode an entry",
        };
        text.to_owned()
    }
}

/// An error: its code and a message for people.
#[derive(Debug)]
pub struct Error {
    pub code: ErrCode,
    pub msg: String,
}

impl Error {
    /// An error with the given code and message.
    pub fn new(code: ErrCode, msg: &str) -> (r: Error)
        ensures
            r.code == code,
            r.msg@ == msg@,
    {
        Error { code, msg: msg.to_owned() }
    }
}

pub type Result<T> = core::result::Result<T, Error>;

} // verus!
