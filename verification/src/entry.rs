//! The stored record (a value, a tombstone flag and a cached fingerprint of
//! the key) and the error kinds of the storage operations.

use vstd::prelude::*;
use crate::hash::key_hash;

verus! {

/// The mathematical value of a stored entry.
pub ghost struct EntryModel {
    pub key: Seq<char>,
    pub hashed_key: u64,
    pub value: Seq<u8>,
    pub deleted: bool,
}

/// One stored record: the key, the key's fingerprint under the canonical
/// hash, the value bytes, and the tombstone flag.  An entry is never erased
/// by a delete; the flag is flipped instead.
#[derive(Debug)]
pub struct CacheItem {
    pub key: String,
    pub hashed_key: u64,
    pub value: Vec<u8>,
    pub deleted: bool,
}

impl View for CacheItem {
    type V = EntryModel;

    open spec fn view(&self) -> EntryModel {
        EntryModel {
            key: self.key@,
            hashed_key: self.hashed_key,
            value: self.value@,
            deleted: self.deleted,
        }
    }
}

/// The fingerprint invariant: an entry's cached hash is the canonical hash
/// of its own key.
pub open spec fn entry_wf(e: EntryModel) -> bool {
    e.hashed_key == key_hash(e.key)
}

/// The entry that an insert of `key` with `value` stores: live, fingerprinted.
pub open spec fn pushed_entry(key: Seq<char>, value: Seq<u8>) -> EntryModel {
    EntryModel { key: key, hashed_key: key_hash(key), value: value, deleted: false }
}

/// The entry after a successful delete: the same record, tombstoned.
pub open spec fn tombstoned(e: EntryModel) -> EntryModel {
    EntryModel { deleted: true, ..e }
}

/// The error kinds of the storage operations, returned as values.
#[derive(Debug, PartialEq, Eq, Structural)]
pub enum PartitionOperationError {
    PushError,
    PopError,
    ReadError,
    CacheItemNotFound,
}

/// The one fatal condition: a snapshot that cannot be parsed back.  The
/// caller decides whether to abort or to start the partition empty.
#[derive(Debug, PartialEq, Eq, Structural)]
pub enum SnapshotError {
    Corrupt,
}

} // verus!
