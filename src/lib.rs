//! A log-structured, append-only key-value storage engine in the Bitcask style.
//!
//! Every write is appended to the active segment; an in-memory index maps each
//! key to the location of its newest record.
pub mod db;
pub mod entry;
pub mod err;
pub mod fio;
pub mod index;
