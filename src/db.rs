//! The storage engine: `put` and `get` over segments and an index.
use std::collections::HashMap;

use vstd::prelude::*;
use vstd::slice::slice_to_vec;

use crate::entry::data_file::DataFile;
use crate::entry::data_file::DataFileConfig;
use crate::entry::lemma_round_trip;
use crate::entry::spec_encode;
use crate::entry::Entry;
use crate::entry::EntryPos;
use crate::entry::EntryType;
use crate::entry::MAX_FIELD_LEN;
use crate::err::ErrCode;
use crate::err::Error;
use crate::err::Result;
use crate::fio::IoManager;
use crate::index::btree::BTree;
use crate::index::Indexer;

verus! {

broadcast use vstd::std_specs::hash::group_hash_axioms;

/// Whether `seg` holds, at `offset`, the normal record of `key` and `val`.
pub open spec fn record_at(seg: Seq<u8>, offset: int, key: Seq<u8>, val: Seq<u8>) -> bool {
    let enc = spec_encode(key, val, EntryType::Normal);
    &&& 0 <= offset
    &&& offset + enc.len() <= seg.len()
    &&& seg.subrange(offset, offset + enc.len()) == enc
}

/// What `get` answers for `key` from the stored values `m` when reading the
/// storage does not fail: the value, or the code of the error.
pub open spec fn lookup(m: Map<Seq<u8>, Seq<u8>>, key: Seq<u8>) -> core::result::Result<
    Seq<u8>,
    ErrCode,
> {
    if key.len() == 0 {
        Err(ErrCode::EmptyKeyError)
    } else if !m.contains_key(key) {
        Err(ErrCode::KeyNotFoundError)
    } else {
        Ok(m[key])
    }
}

/// The stored values after the successful `put`s of `puts`, in order, on an
/// engine that held `m`.
pub open spec fn apply_puts(m: Map<Seq<u8>, Seq<u8>>, puts: Seq<(Seq<u8>, Seq<u8>)>) -> Map<
    Seq<u8>,
    Seq<u8>,
>
    decreases puts.len(),
{
    if puts.len() == 0 {
        m
    } else {
        apply_puts(m, puts.drop_last()).insert(puts.last().0, puts.last().1)
    }
}

/// After `put(key, value)` succeeds, `get(key)` answers `value`: a successful
/// `put` inserts the pair into the stored values.
pub proof fn lemma_put_then_get(m: Map<Seq<u8>, Seq<u8>>, key: Seq<u8>, value: Seq<u8>)
    requires
        key.len() > 0,
    ensures
        lookup(apply_puts(m, seq![(key, value)]), key) == Ok::<Seq<u8>, ErrCode>(value),
{
    assert(seq![(key, value)].drop_last() =~= Seq::<(Seq<u8>, Seq<u8>)>::empty());
}

/// `get` of the empty key fails with `EmptyKeyError` whatever is stored; `put`
/// of the empty key fails so too, by its own contract.
pub proof fn lemma_empty_key_rejected(m: Map<Seq<u8>, Seq<u8>>)
    ensures
        lookup(m, Seq::<u8>::empty()) == Err::<Seq<u8>, ErrCode>(ErrCode::EmptyKeyError),
{
}

/// A second `put` of a key replaces the first: `get` answers the later value.
pub proof fn lemma_overwrite(m: Map<Seq<u8>, Seq<u8>>, key: Seq<u8>, v1: Seq<u8>, v2: Seq<u8>)
    requires
        key.len() > 0,
    ensures
        lookup(apply_puts(m, seq![(key, v1), (key, v2)]), key) == Ok::<Seq<u8>, ErrCode>(v2),
{
    assert(seq![(key, v1), (key, v2)].drop_last() =~= seq![(key, v1)]);
}

/// On a new engine, after any sequence of successful `put`s, `get` of a
/// non-empty key that none of them wrote fails with `KeyNotFoundError`.
pub proof fn lemma_missing_key(puts: Seq<(Seq<u8>, Seq<u8>)>, key: Seq<u8>)
    requires
        key.len() > 0,
        forall|i: int| 0 <= i < puts.len() ==> (#[trigger] puts[i]).0 != key,
    ensures
        lookup(apply_puts(Map::empty(), puts), key) == Err::<Seq<u8>, ErrCode>(
            ErrCode::KeyNotFoundError,
        ),
    decreases puts.len(),
{
    if puts.len() > 0 {
        let rest = puts.drop_last();
        assert forall|i: int| 0 <= i < rest.len() implies (#[trigger] rest[i]).0 != key by {
            assert(rest[i] == puts[i]);
        }
        lemma_missing_key(rest, key);
        assert(puts.last() == puts[puts.len() - 1]);
    }
}

/// The storage engine: an active segment that takes writes, the sealed segments
/// by id, and the index from each key to its newest record.
pub struct Engine<M: IoManager> {
    config: DataFileConfig,
    active_data_file: DataFile<M>,
    older_data_files: HashMap<u64, DataFile<M>>,
    indices: BTree,
    kv: Ghost<Map<Seq<u8>, Seq<u8>>>,
}

impl<M: IoManager> View for Engine<M> {
    type V = Map<Seq<u8>, Seq<u8>>;

    /// The value of each key, as `get` reads it.
    closed spec fn view(&self) -> Map<Seq<u8>, Seq<u8>> {
        self.kv@
    }
}

impl<M: IoManager> Engine<M> {
    /// The id of the active segment.
    pub closed spec fn active_id(&self) -> u64 {
        self.active_data_file.spec_id()
    }

    /// The number of bytes in the active segment: where its next record goes.
    pub closed spec fn active_len(&self) -> nat {
        self.active_data_file.contents().len()
    }

    /// The ids of the sealed segments.
    pub closed spec fn sealed_ids(&self) -> Set<u64> {
        self.older_data_files@.dom()
    }

    /// Whether a segment with this id exists, active or sealed.
    pub open spec fn has_segment(&self, id: u64) -> bool {
        id == self.active_id() || self.sealed_ids().contains(id)
    }

    /// The bytes of the segment with this id.
    pub closed spec fn segment(&self, id: u64) -> Seq<u8> {
        if id == self.active_data_file.spec_id() {
            self.active_data_file.contents()
        } else {
            self.older_data_files@[id].contents()
        }
    }

    /// How many bytes at the front of the segment with this id are durable.
    pub closed spec fn durable_len(&self, id: u64) -> nat {
        if id == self.active_data_file.spec_id() {
            self.active_data_file.synced_len()
        } else {
            self.older_data_files@[id].synced_len()
        }
    }

    /// Where the index places the newest record of each key.
    pub closed spec fn locations(&self) -> Map<Seq<u8>, EntryPos> {
        self.indices.entries()
    }

    /// The size in bytes past which the active segment is sealed.
    pub closed spec fn max_size(&self) -> u64 {
        self.config.data_file_size
    }

    /// Whether every `put` flushes the active segment before it returns.
    pub closed spec fn sync_each_write(&self) -> bool {
        self.config.write_sync_strategy
    }

    closed spec fn files_wf(&self) -> bool {
        &&& self.active_data_file.wf()
        &&& forall|id: u64|
            #[trigger] self.older_data_files@.contains_key(id) ==> {
                &&& self.older_data_files@[id].wf()
                &&& self.older_data_files@[id].spec_id() == id
                &&& id < self.active_data_file.spec_id()
                &&& self.older_data_files@[id].synced_len()
                    == self.older_data_files@[id].contents().len()
            }
    }

    /// The engine's invariant: every key of the view is indexed, and the record
    /// that the index points to holds the key and its value.
    pub closed spec fn wf(&self) -> bool {
        &&& self.files_wf()
        &&& self.indices.inv()
        &&& self.indices.entries().dom() == self.kv@.dom()
        &&& forall|k: Seq<u8>| #[trigger]
            self.kv@.contains_key(k) ==> {
                let p = self.indices.entries()[k];
                &&& 0 < k.len() <= MAX_FIELD_LEN
                &&& self.kv@[k].len() <= MAX_FIELD_LEN
                &&& self.has_segment(p.file_id)
                &&& record_at(self.segment(p.file_id), p.offset as int, k, self.kv@[k])
            }
    }

    /// Every segment of `old` is still there, and holds what it held, perhaps
    /// followed by more; sealed segments stay sealed and keep their bytes; the
    /// active id never goes down.
    pub open spec fn grows_from(&self, old: &Self) -> bool {
        &&& old.active_id() <= self.active_id()
        &&& old.sealed_ids().subset_of(self.sealed_ids())
        &&& forall|id: u64| #[trigger]
            old.has_segment(id) ==> {
                &&& self.has_segment(id)
                &&& old.segment(id).len() <= self.segment(id).len()
                &&& self.segment(id).subrange(0, old.segment(id).len() as int) == old.segment(id)
            }
        &&& forall|id: u64| #[trigger]
            old.sealed_ids().contains(id) ==> self.segment(id) == old.segment(id)
    }

    /// The active segment of `old` was flushed and sealed with its bytes as they
    /// were, and the segment with the next id is now the active one.
    pub open spec fn sealed_into(&self, old: &Self) -> bool {
        &&& self.active_id() == old.active_id() + 1
        &&& self.sealed_ids() == old.sealed_ids().insert(old.active_id())
        &&& self.segment(old.active_id()) == old.segment(old.active_id())
        &&& self.durable_len(old.active_id()) == old.active_len()
    }

    /// Where the record `enc` goes when it is appended to `old`, and what that
    /// does to the segments: when it does not fit under the size limit, the
    /// active segment is sealed and the record opens the next one at offset 0;
    /// otherwise it follows the bytes of the active segment.
    pub open spec fn placed(&self, old: &Self, enc: Seq<u8>, pos: EntryPos) -> bool {
        if old.active_len() + enc.len() > old.max_size() {
            &&& self.sealed_into(old)
            &&& self.segment(self.active_id()) == enc
            &&& self.active_len() == enc.len()
            &&& pos == EntryPos { file_id: self.active_id(), offset: 0 }
        } else {
            &&& self.active_id() == old.active_id()
            &&& self.sealed_ids() == old.sealed_ids()
            &&& self.segment(self.active_id()) == old.segment(old.active_id()) + enc
            &&& self.active_len() == old.active_len() + enc.len()
            &&& pos == EntryPos { file_id: old.active_id(), offset: old.active_len() as u64 }
        }
    }

    /// No byte of a record was appended to `old`: the active segment is as it
    /// was, or it was sealed and the new active segment is empty.
    pub open spec fn kept_segments(&self, old: &Self) -> bool {
        ||| {
            &&& self.active_id() == old.active_id()
            &&& self.sealed_ids() == old.sealed_ids()
            &&& self.segment(self.active_id()) == old.segment(old.active_id())
            &&& self.active_len() == old.active_len()
        }
        ||| self.sealed_into(old) && self.active_len() == 0
    }

    /// `key` now maps to `value`, its record placed as `placed` says, and
    /// every other key keeps its location.
    pub open spec fn stored(&self, old: &Self, key: Seq<u8>, value: Seq<u8>) -> bool {
        &&& self@ == old@.insert(key, value)
        &&& self.locations().dom() == old.locations().dom().insert(key)
        &&& forall|k: Seq<u8>| #[trigger]
            old.locations().contains_key(k) && k != key ==> self.locations()[k]
                == old.locations()[k]
        &&& self.placed(old, spec_encode(key, value, EntryType::Normal), self.locations()[key])
    }

    /// Nothing is stored: values and locations are as they were, and no byte of
    /// a record was appended.
    pub open spec fn not_stored(&self, old: &Self) -> bool {
        &&& self@ == old@
        &&& self.locations() == old.locations()
        &&& self.kept_segments(old)
    }

    /// A new engine over `config`: segment 0 is opened as the active segment,
    /// and nothing is stored yet.
    pub fn new(config: DataFileConfig) -> (r: Result<Self>)
        ensures
            match r {
                Ok(e) => {
                    &&& e.wf()
                    &&& e@ == Map::<Seq<u8>, Seq<u8>>::empty()
                    &&& e.active_id() == 0
                    &&& e.active_len() == 0
                    &&& e.sealed_ids() == Set::<u64>::empty()
                    &&& e.max_size() == config.data_file_size
                    &&& e.sync_each_write() == config.write_sync_strategy
                },
                Err(e) => e.code == ErrCode::OpenDataFileFailed,
            },
    {
        let active_data_file = DataFile::new(config.data_path_dir.as_str(), 0)?;
        let older_data_files: HashMap<u64, DataFile<M>> = HashMap::new();
        let e = Engine {
            config,
            active_data_file,
            older_data_files,
            indices: BTree::new(),
            kv: Ghost(Map::empty()),
        };
        assert(e.indices.entries().dom() =~= e.kv@.dom());
        Ok(e)
    }

    /// Stores `value` under `key`: the record is appended to the active
    /// segment (sealing it first when the record would take it past the size
    /// limit), the index is pointed at it, and, when the engine flushes every
    /// write, the active segment is flushed.
    ///
    /// Fails on an empty key, on a key or value longer than one length byte can
    /// describe, and when the storage fails. Only a failed final flush leaves
    /// the new value stored.
    pub fn put(&mut self, key: &[u8], value: &[u8]) -> (r: Result<()>)
        requires
            old(self).wf(),
        ensures
            final(self).wf(),
            final(self).grows_from(old(self)),
            final(self).max_size() == old(self).max_size(),
            final(self).sync_each_write() == old(self).sync_each_write(),
            match r {
                Ok(_) => {
                    &&& key@.len() > 0
                    &&& key@.len() <= MAX_FIELD_LEN
                    &&& value@.len() <= MAX_FIELD_LEN
                    &&& final(self).stored(old(self), key@, value@)
                    &&& final(self).sync_each_write() ==> final(self).durable_len(
                        final(self).active_id(),
                    ) == final(self).active_len()
                },
                Err(e) => if key@.len() == 0 {
                    e.code == ErrCode::EmptyKeyError && *final(self) == *old(self)
                } else if key@.len() > MAX_FIELD_LEN || value@.len() > MAX_FIELD_LEN {
                    e.code == ErrCode::EntryTooLarge && *final(self) == *old(self)
                } else if e.code == ErrCode::SyncDataFileFailed {
                    final(self).not_stored(old(self)) || final(self).stored(old(self), key@, value@)
                } else {
                    e.code.is_persistence() && final(self).not_stored(old(self))
                },
            },
    {
        proof {
            self.lemma_grows_refl();
        }
        if key.len() == 0 {
            return Err(Error::new(ErrCode::EmptyKeyError, "Key should not be empty"));
        }
        if key.len() > MAX_FIELD_LEN || value.len() > MAX_FIELD_LEN {
            return Err(Error::new(ErrCode::EntryTooLarge, "Key or value is too long for an entry"));
        }
        let entry = Entry { key: slice_to_vec(key), val: slice_to_vec(value), typ: EntryType::Normal };
        let ghost pre = *self;
        let appended = self.append_entry(&entry);
        proof {
            self.lemma_records_kept(&pre);
        }
        let key_position = match appended {
            Ok(p) => p,
            Err(e) => {
                return Err(e);
            },
        };
        let ghost mid = *self;
        if !self.indices.put(slice_to_vec(key), key_position) {
            return Err(Error::new(ErrCode::IndexUpdateFailed, "Failed to update in-memory index"));
        }
        self.kv = Ghost(self.kv@.insert(key@, value@));
        proof {
            lemma_round_trip(key@, value@, EntryType::Normal);
            assert(self.indices.entries().dom() =~= self.kv@.dom());
            assert forall|k: Seq<u8>| #[trigger] self.kv@.contains_key(k) implies {
                let p = self.indices.entries()[k];
                &&& 0 < k.len() <= MAX_FIELD_LEN
                &&& self.kv@[k].len() <= MAX_FIELD_LEN
                &&& self.has_segment(p.file_id)
                &&& record_at(self.segment(p.file_id), p.offset as int, k, self.kv@[k])
            } by {
                if k != key@ {
                    assert(mid.kv@.contains_key(k));
                }
            }
            assert(self.locations().dom() =~= pre.locations().dom().insert(key@));
            assert(self.stored(&pre, key@, value@));
        }
        if self.config.write_sync_strategy {
            let ghost before = *self;
            let synced = self.active_data_file.sync();
            proof {
                Self::lemma_grows_same(self, &before);
                Self::lemma_grows_trans(&pre, &before, self);
                if before.active_id() != pre.active_id() {
                    assert(self.durable_len(pre.active_id()) == before.durable_len(pre.active_id()));
                }
                assert(self.segment(self.active_id()) == before.segment(before.active_id()));
                assert(self.stored(&pre, key@, value@));
                assert forall|k: Seq<u8>| #[trigger] self.kv@.contains_key(k) implies {
                    let p = self.indices.entries()[k];
                    &&& self.has_segment(p.file_id)
                    &&& record_at(self.segment(p.file_id), p.offset as int, k, self.kv@[k])
                } by {
                    let p = self.indices.entries()[k];
                    assert(before.has_segment(p.file_id));
                    assert(self.segment(p.file_id) == before.segment(p.file_id));
                }
            }
            if let Err(e) = synced {
                return Err(e);
            }
        }
        Ok(())
    }

    /// The record stored under `key`.
    ///
    /// Fails on an empty key, on a key that is not stored, and when reading the
    /// storage fails.
    pub fn get(&self, key: &[u8]) -> (r: Result<Entry>)
        requires
            self.wf(),
        ensures
            match r {
                Ok(e) => {
                    &&& lookup(self@, key@) == Ok::<Seq<u8>, ErrCode>(e.val@)
                    &&& e.key@ == key@
                    &&& e.typ == EntryType::Normal
                },
                Err(e) => match lookup(self@, key@) {
                    Ok(_) => e.code == ErrCode::ReadDataFileFailed,
                    Err(c) => e.code == c,
                },
            },
    {
        if key.len() == 0 {
            return Err(Error::new(ErrCode::EmptyKeyError, "Key should not be empty"));
        }
        let pos = match self.indices.get(slice_to_vec(key)) {
            Some(p) => p,
            None => {
                return Err(Error::new(ErrCode::KeyNotFoundError, "Key not found"));
            },
        };
        let file = if pos.file_id == self.active_data_file.id() {
            &self.active_data_file
        } else {
            match self.older_data_files.get(&pos.file_id) {
                Some(f) => f,
                None => {
                    return Err(Error::new(ErrCode::KeyNotFoundError, "Data file not found"));
                },
            }
        };
        let ghost val = self.kv@[key@];
        let ghost enc = spec_encode(key@, val, EntryType::Normal);
        proof {
            lemma_round_trip(key@, val, EntryType::Normal);
            assert(file.contents() == self.segment(pos.file_id));
            assert(file.contents().subrange(pos.offset as int, pos.offset + enc.len()) == enc);
            assert(file.contents()[pos.offset as int] == enc[0]);
            assert(file.contents()[pos.offset + 1] == enc[1]);
        }
        let header = file.read(pos.offset, 2)?;
        let total = 3 + header[0] as usize + header[1] as usize;
        let data = file.read(pos.offset, total)?;
        proof {
            assert(data@ =~= enc);
        }
        Entry::decode(data.as_slice())
    }

    /// The id of the active segment.
    pub fn active_file_id(&self) -> (r: u64)
        ensures
            r == self.active_id(),
    {
        self.active_data_file.id()
    }

    /// The offset at which the next record goes in the active segment.
    pub fn active_file_offset(&self) -> (r: u64)
        requires
            self.wf(),
        ensures
            r == self.active_len(),
    {
        self.active_data_file.offset()
    }

    /// Whether the segment `id` is sealed.
    pub fn is_sealed(&self, id: u64) -> (r: bool)
        ensures
            r == self.sealed_ids().contains(id),
    {
        self.older_data_files.contains_key(&id)
    }

    /// Where the newest record of `key` lies, if `key` is stored.
    pub fn position(&self, key: &[u8]) -> (r: Option<EntryPos>)
        requires
            self.wf(),
        ensures
            match r {
                Some(p) => self.locations().contains_key(key@) && self.locations()[key@] == p,
                None => !self.locations().contains_key(key@),
            },
    {
        self.indices.get(slice_to_vec(key))
    }

    /// Appends the bytes of `entry` to the active segment, sealing it first and
    /// opening the next one when the record would take it past the size limit.
    fn append_entry(&mut self, entry: &Entry) -> (r: Result<EntryPos>)
        requires
            old(self).wf(),
            entry.wf(),
        ensures
            final(self).files_wf(),
            final(self).grows_from(old(self)),
            final(self).indices == old(self).indices,
            final(self).kv == old(self).kv,
            final(self).config == old(self).config,
            match r {
                Ok(pos) => {
                    let enc = spec_encode(entry.key@, entry.val@, entry.typ);
                    &&& final(self).placed(old(self), enc, pos)
                    &&& final(self).segment(pos.file_id).subrange(
                        pos.offset as int,
                        pos.offset + enc.len(),
                    ) == enc
                },
                Err(e) => e.code.is_persistence() && final(self).kept_segments(old(self)),
            },
    {
        let encoded_entry = entry.encode();
        let len = encoded_entry.len() as u64;
        proof {
            lemma_round_trip(entry.key@, entry.val@, entry.typ);
            self.lemma_grows_refl();
        }
        let max = self.config.data_file_size;
        let offset = self.active_data_file.offset();
        if offset > max || len > max - offset {
            let synced = self.active_data_file.sync();
            proof {
                Self::lemma_grows_same(self, old(self));
            }
            if let Err(e) = synced {
                return Err(e);
            }
            let id = self.active_data_file.id();
            if id == u64::MAX {
                return Err(Error::new(ErrCode::OpenDataFileFailed, "No data file id is left"));
            }
            let mut new_file = DataFile::new(self.config.data_path_dir.as_str(), id + 1)?;
            std::mem::swap(&mut self.active_data_file, &mut new_file);
            self.older_data_files.insert(id, new_file);
            proof {
                let pre = old(self);
                assert(self.sealed_ids() =~= pre.sealed_ids().insert(id));
                assert forall|i: u64| #[trigger] pre.has_segment(i) implies {
                    &&& self.has_segment(i)
                    &&& pre.segment(i).len() <= self.segment(i).len()
                    &&& self.segment(i).subrange(0, pre.segment(i).len() as int) == pre.segment(i)
                } by {
                    assert(self.segment(i) == pre.segment(i));
                    assert(self.segment(i).subrange(0, pre.segment(i).len() as int) =~= pre.segment(i));
                }
                assert forall|i: u64| #[trigger]
                    pre.sealed_ids().contains(i) implies self.segment(i) == pre.segment(i) by {
                    assert(i < id);
                }
                assert(self.sealed_into(pre));
            }
        }
        let ghost mid = *self;
        let write_offset = self.active_data_file.offset();
        let written = self.active_data_file.write(encoded_entry.as_slice());
        proof {
            assert forall|i: u64| #[trigger] mid.has_segment(i) implies {
                &&& self.has_segment(i)
                &&& mid.segment(i).len() <= self.segment(i).len()
                &&& self.segment(i).subrange(0, mid.segment(i).len() as int) == mid.segment(i)
            } by {
                if i == mid.active_id() {
                    assert(self.segment(i).subrange(0, mid.segment(i).len() as int) =~= mid.segment(i));
                } else {
                    assert(self.segment(i) == mid.segment(i));
                    assert(self.segment(i).subrange(0, mid.segment(i).len() as int) =~= mid.segment(i));
                }
            }
            Self::lemma_grows_trans(old(self), &mid, self);
            if mid.active_id() != old(self).active_id() {
                assert(self.durable_len(old(self).active_id()) == mid.durable_len(old(self).active_id()));
                assert(self.segment(old(self).active_id()) == mid.segment(old(self).active_id()));
            }
        }
        match written {
            Ok(_) => {},
            Err(e) => {
                return Err(e);
            },
        }
        proof {
            let enc = encoded_entry@;
            let o = write_offset as int;
            assert(self.segment(self.active_id()).subrange(o, o + enc.len()) =~= enc);
            if mid.active_id() != old(self).active_id() {
                assert(self.segment(self.active_id()) =~= enc);
            }
        }
        Ok(EntryPos { file_id: self.active_data_file.id(), offset: write_offset })
    }

    proof fn lemma_grows_same(new: &Self, old: &Self)
        requires
            new.active_data_file.spec_id() == old.active_data_file.spec_id(),
            new.active_data_file.contents() == old.active_data_file.contents(),
            new.older_data_files == old.older_data_files,
        ensures
            new.grows_from(old),
            new.kept_segments(old),
    {
        old.lemma_grows_refl();
    }

    proof fn lemma_grows_refl(&self)
        ensures
            self.grows_from(self),
    {
        assert forall|i: u64| #[trigger] self.has_segment(i) implies self.segment(i).subrange(
            0,
            self.segment(i).len() as int,
        ) == self.segment(i) by {
            assert(self.segment(i).subrange(0, self.segment(i).len() as int) =~= self.segment(i));
        }
    }

    /// Growth composes over a sequence of operations: a segment that was sealed
    /// stays sealed and keeps its bytes, and every other segment only grows.
    pub proof fn lemma_grows_trans(a: &Self, b: &Self, c: &Self)
        requires
            b.grows_from(a),
            c.grows_from(b),
        ensures
            c.grows_from(a),
    {
        assert forall|i: u64| #[trigger] a.has_segment(i) implies {
            &&& c.has_segment(i)
            &&& a.segment(i).len() <= c.segment(i).len()
            &&& c.segment(i).subrange(0, a.segment(i).len() as int) == a.segment(i)
        } by {
            assert(b.has_segment(i));
            let n = a.segment(i).len() as int;
            assert(c.segment(i).subrange(0, n) =~= c.segment(i).subrange(0, b.segment(i).len() as int).subrange(0, n));
        }
        assert forall|i: u64| #[trigger]
            a.sealed_ids().contains(i) implies c.segment(i) == a.segment(i) by {
            assert(b.sealed_ids().contains(i));
        }
    }

    /// Every stored key is located in a segment that exists, active or sealed,
    /// and that segment holds its record; so keys of a sealed segment stay
    /// readable.
    pub proof fn lemma_stored_keys_located(&self)
        requires
            self.wf(),
        ensures
            self.locations().dom() == self@.dom(),
            forall|k: Seq<u8>| #[trigger]
                self@.contains_key(k) ==> {
                    let p = self.locations()[k];
                    &&& self.has_segment(p.file_id)
                    &&& record_at(self.segment(p.file_id), p.offset as int, k, self@[k])
                },
    {
    }

    /// Every sealed id lies below the active id, and every sealed segment was
    /// made durable whole before it was sealed.
    pub proof fn lemma_sealed_segments(&self)
        requires
            self.wf(),
        ensures
            forall|id: u64| #[trigger]
                self.sealed_ids().contains(id) ==> {
                    &&& id < self.active_id()
                    &&& self.durable_len(id) == self.segment(id).len()
                },
            self.active_len() == self.segment(self.active_id()).len(),
            self.durable_len(self.active_id()) <= self.active_len(),
    {
        self.active_data_file.lemma_synced_within();
    }

    proof fn lemma_records_kept(&self, old: &Self)
        requires
            old.wf(),
            self.files_wf(),
            self.grows_from(old),
            self.indices == old.indices,
            self.kv == old.kv,
        ensures
            self.wf(),
    {
        assert forall|k: Seq<u8>| #[trigger] self.kv@.contains_key(k) implies {
            let p = self.indices.entries()[k];
            &&& 0 < k.len() <= MAX_FIELD_LEN
            &&& self.kv@[k].len() <= MAX_FIELD_LEN
            &&& self.has_segment(p.file_id)
            &&& record_at(self.segment(p.file_id), p.offset as int, k, self.kv@[k])
        } by {
            let p = old.indices.entries()[k];
            assert(old.has_segment(p.file_id));
            let s0 = old.segment(p.file_id);
            let s1 = self.segment(p.file_id);
            let enc = spec_encode(k, old.kv@[k], EntryType::Normal);
            let o = p.offset as int;
            assert(s1.subrange(0, s0.len() as int) == s0);
            assert(s1.subrange(o, o + enc.len()) =~= s0.subrange(o, o + enc.len()));
        }
    }
}

} // verus!
