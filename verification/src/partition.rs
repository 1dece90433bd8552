//! One shard of the store: an exclusively owned mapping from key to entry,
//! with tombstone-based deletion.  The shard is modelled as a mathematical
//! map from the key to the entry's value.

use vstd::prelude::*;
use vstd::pervasive::VecAdditionalExecFns;
use crate::entry::{
    entry_wf, pushed_entry, tombstoned, CacheItem, EntryModel, PartitionOperationError,
};
use crate::hash::key_hasher;

verus! {

/// The mapping that a sequence of entries represents: later entries shadow
/// earlier ones with the same key (with unique keys nothing is shadowed).
pub open spec fn map_of(s: Seq<CacheItem>) -> Map<Seq<char>, EntryModel>
    decreases s.len(),
{
    if s.len() == 0 {
        Map::<Seq<char>, EntryModel>::empty()
    } else {
        map_of(s.drop_last()).insert(s.last()@.key, s.last()@)
    }
}

/// No two entries of the sequence share a key.
pub open spec fn unique_keys(s: Seq<CacheItem>) -> bool {
    forall|i: int, j: int| 0 <= i < j < s.len() ==> s[i]@.key != s[j]@.key
}

/// A key is in the represented map exactly when some entry holds it.
pub proof fn lemma_map_of_contains(s: Seq<CacheItem>, k: Seq<char>)
    ensures
        map_of(s).contains_key(k) <==> exists|i: int| 0 <= i < s.len() && s[i]@.key == k,
    decreases s.len(),
{
    if s.len() > 0 {
        let s0 = s.drop_last();
        lemma_map_of_contains(s0, k);
        if s.last()@.key == k {
            assert(s[s.len() - 1]@.key == k);
        } else {
            if map_of(s0).contains_key(k) {
                let i = choose|i: int| 0 <= i < s0.len() && s0[i]@.key == k;
                assert(s[i]@.key == k);
            }
            if exists|i: int| 0 <= i < s.len() && s[i]@.key == k {
                let i = choose|i: int| 0 <= i < s.len() && s[i]@.key == k;
                assert(i < s.len() - 1);
                assert(s0[i]@.key == k);
            }
        }
    }
}

/// With unique keys, the entry at any index is what the map stores for its key.
pub proof fn lemma_map_of_get(s: Seq<CacheItem>, i: int)
    requires
        unique_keys(s),
        0 <= i < s.len(),
    ensures
        map_of(s).contains_key(s[i]@.key),
        map_of(s)[s[i]@.key] == s[i]@,
    decreases s.len(),
{
    let s0 = s.drop_last();
    if i < s.len() - 1 {
        lemma_map_of_get(s0, i);
        assert(s0[i] == s[i]);
        assert(s.last()@.key != s[i]@.key);
    }
}

/// With unique keys, the map has exactly one element per entry.
pub proof fn lemma_map_of_len(s: Seq<CacheItem>)
    requires
        unique_keys(s),
    ensures
        map_of(s).dom().finite(),
        map_of(s).dom().len() == s.len(),
    decreases s.len(),
{
    if s.len() > 0 {
        let s0 = s.drop_last();
        lemma_map_of_len(s0);
        lemma_map_of_contains(s0, s.last()@.key);
        assert forall|i: int| 0 <= i < s0.len() implies s0[i]@.key != s.last()@.key by {
            assert(s0[i] == s[i]);
        }
        assert(!map_of(s0).contains_key(s.last()@.key));
        assert(map_of(s).dom() =~= map_of(s0).dom().insert(s.last()@.key));
    }
}

/// Appending an entry inserts it into the represented map.
pub proof fn lemma_map_of_push(s: Seq<CacheItem>, e: CacheItem)
    ensures
        map_of(s.push(e)) == map_of(s).insert(e@.key, e@),
{
    assert(s.push(e).drop_last() =~= s);
    assert(s.push(e).last() == e);
}

/// Overwriting the entry that holds a key updates the map at that key.
pub proof fn lemma_map_of_update(s: Seq<CacheItem>, i: int, e: CacheItem)
    requires
        unique_keys(s),
        0 <= i < s.len(),
        e@.key == s[i]@.key,
    ensures
        map_of(s.update(i, e)) == map_of(s).insert(e@.key, e@),
    decreases s.len(),
{
    let t = s.update(i, e);
    let s0 = s.drop_last();
    if i == s.len() - 1 {
        assert(t.drop_last() =~= s0);
        assert(t.last() == e);
        assert(map_of(s0).insert(e@.key, e@) =~= map_of(s0).insert(
            s.last()@.key,
            s.last()@,
        ).insert(e@.key, e@));
    } else {
        assert(t.drop_last() =~= s0.update(i, e));
        assert(t.last() == s.last());
        lemma_map_of_update(s0, i, e);
        assert(s0[i] == s[i]);
        assert(s.last()@.key != e@.key);
        assert(map_of(s0).insert(e@.key, e@).insert(s.last()@.key, s.last()@) =~= map_of(
            s0,
        ).insert(s.last()@.key, s.last()@).insert(e@.key, e@));
    }
}

/// What a read returns, as a function of the shard's map and the key:
/// the live entry, `ReadError` for a tombstoned one, `CacheItemNotFound`
/// when the key has no entry at all.
pub open spec fn read_spec(m: Map<Seq<char>, EntryModel>, k: Seq<char>) -> Result<
    EntryModel,
    PartitionOperationError,
> {
    if !m.contains_key(k) {
        Err(PartitionOperationError::CacheItemNotFound)
    } else if m[k].deleted {
        Err(PartitionOperationError::ReadError)
    } else {
        Ok(m[k])
    }
}

/// Whether a delete of `k` succeeds on the map `m`: only a live entry can be
/// tombstoned; an absent or already tombstoned key is rejected.
pub open spec fn can_pop(m: Map<Seq<char>, EntryModel>, k: Seq<char>) -> bool {
    m.contains_key(k) && !m[k].deleted
}

/// One shard.  `entries` is reached only through the shard's own operations;
/// `partition_number` is its stable 0-based identity; `persisted` records
/// whether a snapshot was successfully restored at startup.
pub struct Partition {
    pub entries: Vec<CacheItem>,
    pub partition_number: u8,
    pub partition_path: String,
    pub persisted: bool,
}

impl View for Partition {
    type V = Map<Seq<char>, EntryModel>;

    open spec fn view(&self) -> Map<Seq<char>, EntryModel> {
        map_of(self.entries@)
    }
}

impl Partition {
    /// Well-formedness: entry keys are unique and every entry carries the
    /// fingerprint of its own key.
    pub open spec fn wf(self) -> bool {
        &&& unique_keys(self.entries@)
        &&& forall|i: int| 0 <= i < self.entries@.len() ==> entry_wf(self.entries@[i]@)
    }

    /// The fields a storage operation never touches.
    pub open spec fn same_identity(self, other: Partition) -> bool {
        &&& self.partition_number == other.partition_number
        &&& self.partition_path == other.partition_path
        &&& self.persisted == other.persisted
    }

    /// A fresh, empty shard.
    pub fn new(partition_number: u8, partition_path: String) -> (r: Partition)
        ensures
            r.wf(),
            r@ == Map::<Seq<char>, EntryModel>::empty(),
            r.entries@.len() == 0,
            r.partition_number == partition_number,
            r.partition_path@ == partition_path@,
            !r.persisted,
    {
        Partition {
            entries: Vec::new(),
            partition_number,
            partition_path,
            persisted: false,
        }
    }

    /// The index of the entry that holds `key`, if any.
    fn find(&self, key: &String) -> (r: Option<usize>)
        ensures
            match r {
                Some(i) => i < self.entries@.len() && self.entries@[i as int]@.key == key@,
                None => forall|i: int|
                    0 <= i < self.entries@.len() ==> self.entries@[i]@.key != key@,
            },
    {
        let n = self.entries.len();
        let mut i: usize = 0;
        while i < n
            invariant
                n == self.entries@.len(),
                i <= n,
                forall|j: int| 0 <= j < i ==> self.entries@[j]@.key != key@,
            decreases n - i,
        {
            if self.entries[i].key == *key {
                return Some(i);
            }
            i = i + 1;
        }
        None
    }

    /// Insert: always succeeds, replacing any prior entry (live or
    /// tombstoned) for the key with a fresh live one, and returns it.
    pub fn push(&mut self, key: String, value: Vec<u8>) -> (r: Result<
        &CacheItem,
        PartitionOperationError,
    >)
        requires
            old(self).wf(),
        ensures
            final(self).wf(),
            final(self)@ == old(self)@.insert(key@, pushed_entry(key@, value@)),
            old(self).same_identity(*final(self)),
            final(self).entries@.len() == if old(self)@.contains_key(key@) {
                old(self).entries@.len() as int
            } else {
                old(self).entries@.len() + 1 as int
            },
            r matches Ok(e) && e@ == pushed_entry(key@, value@),
    {
        let hashed_key = key_hasher(&key);
        let item = CacheItem { key, hashed_key, value, deleted: false };
        proof {
            lemma_map_of_contains(self.entries@, item@.key);
        }
        match self.find(&item.key) {
            Some(i) => {
                proof {
                    lemma_map_of_update(self.entries@, i as int, item);
                }
                let ghost pre = self.entries@;
                self.entries.set(i, item);
                proof {
                    assert forall|a: int, b: int|
                        0 <= a < b < self.entries@.len() implies self.entries@[a]@.key
                        != self.entries@[b]@.key by {
                        assert(pre[a]@.key == self.entries@[a]@.key);
                        assert(pre[b]@.key == self.entries@[b]@.key);
                    }
                }
                Ok(&self.entries[i])
            },
            None => {
                proof {
                    lemma_map_of_push(self.entries@, item);
                }
                let ghost pre = self.entries@;
                let n = self.entries.len();
                self.entries.push(item);
                proof {
                    assert forall|a: int, b: int|
                        0 <= a < b < self.entries@.len() implies self.entries@[a]@.key
                        != self.entries@[b]@.key by {
                        if b < pre.len() {
                            assert(pre[a] == self.entries@[a]);
                            assert(pre[b] == self.entries@[b]);
                        } else {
                            assert(pre[a] == self.entries@[a]);
                        }
                    }
                }
                Ok(&self.entries[n])
            },
        }
    }

    /// Delete: flips the tombstone flag of a live entry and returns the
    /// now-tombstoned entry.  An absent key and an already tombstoned key
    /// both fail with `CacheItemNotFound`; nothing is erased either way.
    pub fn pop(&mut self, key: String) -> (r: Result<&CacheItem, PartitionOperationError>)
        requires
            old(self).wf(),
        ensures
            final(self).wf(),
            old(self).same_identity(*final(self)),
            final(self).entries@.len() == old(self).entries@.len(),
            can_pop(old(self)@, key@) ==> {
                &&& final(self)@ == old(self)@.insert(key@, tombstoned(old(self)@[key@]))
                &&& r matches Ok(e) && e@ == tombstoned(old(self)@[key@])
            },
            !can_pop(old(self)@, key@) ==> {
                &&& *final(self) == *old(self)
                &&& r matches Err(e) && e == PartitionOperationError::CacheItemNotFound
            },
    {
        proof {
            lemma_map_of_contains(self.entries@, key@);
        }
        match self.find(&key) {
            Some(i) => {
                proof {
                    lemma_map_of_get(self.entries@, i as int);
                }
                if self.entries[i].deleted {
                    Err(PartitionOperationError::CacheItemNotFound)
                } else {
                    let e = &self.entries[i];
                    let item = CacheItem {
                        key: e.key.clone(),
                        hashed_key: e.hashed_key,
                        value: clone_bytes(&e.value),
                        deleted: true,
                    };
                    proof {
                        assert(item@ == tombstoned(self.entries@[i as int]@));
                        lemma_map_of_update(self.entries@, i as int, item);
                    }
                    let ghost pre = self.entries@;
                    self.entries.set(i, item);
                    proof {
                        assert forall|a: int, b: int|
                            0 <= a < b < self.entries@.len() implies self.entries@[a]@.key
                            != self.entries@[b]@.key by {
                            assert(pre[a]@.key == self.entries@[a]@.key);
                            assert(pre[b]@.key == self.entries@[b]@.key);
                        }
                    }
                    Ok(&self.entries[i])
                }
            },
            None => Err(PartitionOperationError::CacheItemNotFound),
        }
    }

    /// Read: the live entry for the key; `ReadError` for a tombstoned one;
    /// `CacheItemNotFound` when no entry exists.  The shard is untouched, so
    /// what a read returns is a pure function of the shard's map and the key.
    pub fn read(&self, key: String) -> (r: Result<&CacheItem, PartitionOperationError>)
        requires
            self.wf(),
        ensures
            match r {
                Ok(e) => read_spec(self@, key@) == Ok::<EntryModel, PartitionOperationError>(e@),
                Err(e) => read_spec(self@, key@) == Err::<EntryModel, PartitionOperationError>(e),
            },
    {
        proof {
            lemma_map_of_contains(self.entries@, key@);
        }
        match self.find(&key) {
            Some(i) => {
                proof {
                    lemma_map_of_get(self.entries@, i as int);
                }
                if self.entries[i].deleted {
                    Err(PartitionOperationError::ReadError)
                } else {
                    Ok(&self.entries[i])
                }
            },
            None => Err(PartitionOperationError::CacheItemNotFound),
        }
    }

    /// The number of entries in the shard, tombstoned ones included.
    pub fn count_entries(&self) -> (r: usize)
        requires
            self.wf(),
        ensures
            r == self.entries@.len(),
            r == self@.dom().len(),
    {
        proof {
            lemma_map_of_len(self.entries@);
        }
        self.entries.len()
    }

    /// All keys of the shard, live or tombstoned, in storage order.
    pub fn keys(&self) -> (r: Vec<String>)
        requires
            self.wf(),
        ensures
            r@.len() == self.entries@.len(),
            forall|i: int| 0 <= i < r@.len() ==> r@[i]@ == self.entries@[i]@.key,
            forall|k: Seq<char>|
                self@.contains_key(k) <==> exists|i: int| 0 <= i < r@.len() && r@[i]@ == k,
    {
        let n = self.entries.len();
        let mut r: Vec<String> = Vec::new();
        let mut i: usize = 0;
        while i < n
            invariant
                n == self.entries@.len(),
                i <= n,
                r@.len() == i,
                forall|j: int| 0 <= j < i ==> r@[j]@ == self.entries@[j]@.key,
            decreases n - i,
        {
            r.push(self.entries[i].key.clone());
            i = i + 1;
        }
        proof {
            assert forall|k: Seq<char>| self@.contains_key(k) <==> exists|i: int|
                0 <= i < r@.len() && r@[i]@ == k by {
                lemma_map_of_contains(self.entries@, k);
                if exists|i: int| 0 <= i < self.entries@.len() && self.entries@[i]@.key == k {
                    let i = choose|i: int|
                        0 <= i < self.entries@.len() && self.entries@[i]@.key == k;
                    assert(r@[i]@ == k);
                }
                if exists|i: int| 0 <= i < r@.len() && r@[i]@ == k {
                    let i = choose|i: int| 0 <= i < r@.len() && r@[i]@ == k;
                    assert(self.entries@[i]@.key == k);
                }
            }
        }
        r
    }

    /// Remove every entry, live and tombstoned, unconditionally.
    pub fn delete_all(&mut self)
        ensures
            final(self).wf(),
            final(self)@ == Map::<Seq<char>, EntryModel>::empty(),
            final(self).entries@.len() == 0,
            old(self).same_identity(*final(self)),
    {
        self.entries.clear();
    }

    /// Whether a snapshot was successfully restored into this shard.
    pub fn is_persisted(&self) -> (r: bool)
        ensures
            r == self.persisted,
    {
        self.persisted
    }
}

/// Reading an untouched key twice returns identical results both times:
/// what a read returns is a pure function of the shard's map and the key,
/// and a read leaves the shard untouched.
pub proof fn lemma_read_idempotent(
    m: Map<Seq<char>, EntryModel>,
    k: Seq<char>,
    r1: Result<EntryModel, PartitionOperationError>,
    r2: Result<EntryModel, PartitionOperationError>,
)
    requires
        r1 == read_spec(m, k),
        r2 == read_spec(m, k),
    ensures
        r1 == r2,
{
}

/// Delete semantics: after a successful delete the key still has an entry
/// and reads as `ReadError`, never `CacheItemNotFound`, and a second delete
/// of the same key is rejected.
pub proof fn lemma_delete_semantics(m: Map<Seq<char>, EntryModel>, k: Seq<char>)
    requires
        can_pop(m, k),
    ensures
        read_spec(m.insert(k, tombstoned(m[k])), k) == Err::<EntryModel, PartitionOperationError>(
            PartitionOperationError::ReadError,
        ),
        !can_pop(m.insert(k, tombstoned(m[k])), k),
{
}

/// Insert overwrite: inserting a key that already has an entry, live or
/// tombstoned, makes it read back live with the new value, and the entry
/// count does not grow (the entry is replaced, not duplicated).
pub proof fn lemma_insert_overwrite(m: Map<Seq<char>, EntryModel>, k: Seq<char>, v: Seq<u8>)
    requires
        m.dom().finite(),
    ensures
        read_spec(m.insert(k, pushed_entry(k, v)), k) == Ok::<EntryModel, PartitionOperationError>(
            pushed_entry(k, v),
        ),
        m.contains_key(k) ==> m.insert(k, pushed_entry(k, v)).dom().len() == m.dom().len(),
{
    if m.contains_key(k) {
        assert(m.insert(k, pushed_entry(k, v)).dom() =~= m.dom());
    }
}

/// A copy of a byte vector.
pub fn clone_bytes(v: &Vec<u8>) -> (r: Vec<u8>)
    ensures
        r@ == v@,
{
    let n = v.len();
    let mut r: Vec<u8> = Vec::new();
    let mut i: usize = 0;
    while i < n
        invariant
            n == v@.len(),
            i <= n,
            r@ == v@.take(i as int),
        decreases n - i,
    {
        r.push(v[i]);
        proof {
            assert(r@ =~= v@.take(i as int + 1));
        }
        i = i + 1;
    }
    proof {
        assert(v@.take(n as int) =~= v@);
    }
    r
}

} // verus!
