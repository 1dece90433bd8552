//! The database router: a fixed, ordered set of partitions created at
//! construction, a deterministic shard index for every key, and the
//! aggregate operations that fan out across all partitions.

use vstd::prelude::*;
use crate::entry::{pushed_entry, tombstoned, CacheItem, EntryModel, PartitionOperationError};
use crate::hash::{key_hasher, route};
use crate::entry::SnapshotError;
use crate::json::{dec_digits, u64_to_dec};
use crate::partition::{can_pop, read_spec, Partition};
use crate::snapshot::{lemma_partition_roundtrip, models, snapshot_json, sp_snapshot};

verus! {

/// The number of entries over a sequence of partitions, tombstoned ones
/// included.
pub open spec fn count_of(parts: Seq<Partition>) -> nat
    decreases parts.len(),
{
    if parts.len() == 0 {
        0
    } else {
        count_of(parts.drop_last()) + parts.last().entries@.len()
    }
}

/// The keys of a sequence of entries, in storage order.
pub open spec fn keys_seq(es: Seq<CacheItem>) -> Seq<Seq<char>> {
    es.map_values(|e: CacheItem| e@.key)
}

/// The keys over a sequence of partitions, partition by partition.
pub open spec fn keys_of(parts: Seq<Partition>) -> Seq<Seq<char>>
    decreases parts.len(),
{
    if parts.len() == 0 {
        Seq::<Seq<char>>::empty()
    } else {
        keys_of(parts.drop_last()) + keys_seq(parts.last().entries@)
    }
}

pub open spec fn strings_views(s: Seq<String>) -> Seq<Seq<char>> {
    s.map_values(|x: String| x@)
}

/// The snapshot path of partition `i` under the base path `base`.
pub open spec fn partition_path_spec(base: Seq<char>, i: nat) -> Seq<char> {
    base + "/partition_"@ + dec_digits(i)
}

/// A prefix never counts more entries than the whole.
proof fn lemma_count_prefix_monotone(parts: Seq<Partition>, a: int, b: int)
    requires
        0 <= a <= b <= parts.len(),
    ensures
        count_of(parts.take(a)) <= count_of(parts.take(b)),
    decreases b - a,
{
    if a < b {
        lemma_count_prefix_monotone(parts, a, b - 1);
        assert(parts.take(b).drop_last() =~= parts.take(b - 1));
    }
}

/// The database: the partition set, the base path snapshots live under, and
/// the fixed partition count.
pub struct Database {
    pub partitions: Vec<Partition>,
    pub path_file: String,
    pub partition_number: u8,
}

impl Database {
    /// Well-formedness: a positive, fixed partition count; one well-formed
    /// partition per index, numbered by its position.
    pub open spec fn wf(self) -> bool {
        &&& self.partition_number > 0
        &&& self.partitions@.len() == self.partition_number as int
        &&& forall|i: int| 0 <= i < self.partitions@.len() ==> (#[trigger] self.partitions@[i]).wf()
        &&& forall|i: int|
            0 <= i < self.partitions@.len() ==> (#[trigger] self.partitions@[i]).partition_number
                == i as u8
    }

    /// The map a key's owning partition holds.
    pub open spec fn routed(self, key: Seq<char>) -> Map<Seq<char>, EntryModel> {
        self.partitions@[route(key, self.partition_number)]@
    }

    /// Creates `partition_number` empty partitions, each with its own
    /// snapshot path derived from the base path and its index.  Snapshots
    /// are restored separately, shard by shard, by `load_partition`.
    pub fn new(partition_number: u8, path_file: String) -> (r: Database)
        requires
            partition_number > 0,
        ensures
            r.wf(),
            r.partition_number == partition_number,
            r.path_file@ == path_file@,
            forall|i: int|
                0 <= i < r.partitions@.len() ==> (#[trigger] r.partitions@[i])@ == Map::<
                    Seq<char>,
                    EntryModel,
                >::empty(),
            forall|i: int|
                0 <= i < r.partitions@.len() ==> (#[trigger] r.partitions@[i]).entries@.len() == 0,
            forall|i: int|
                0 <= i < r.partitions@.len() ==> !(#[trigger] r.partitions@[i]).persisted,
            forall|i: int|
                0 <= i < r.partitions@.len() ==> (#[trigger] r.partitions@[i]).partition_path@
                    == partition_path_spec(path_file@, i as nat),
            count_of(r.partitions@) == 0,
    {
        let mut partitions: Vec<Partition> = Vec::new();
        let mut i: u8 = 0;
        while i < partition_number
            invariant
                i <= partition_number,
                partitions@.len() == i as int,
                forall|j: int|
                    0 <= j < i as int ==> (#[trigger] partitions@[j])@ == Map::<
                        Seq<char>,
                        EntryModel,
                    >::empty(),
                forall|j: int| 0 <= j < i as int ==> (#[trigger] partitions@[j]).wf(),
                forall|j: int|
                    0 <= j < i as int ==> (#[trigger] partitions@[j]).entries@.len() == 0,
                forall|j: int| 0 <= j < i as int ==> !(#[trigger] partitions@[j]).persisted,
                forall|j: int|
                    0 <= j < i as int ==> (#[trigger] partitions@[j]).partition_number == j as u8,
                forall|j: int|
                    0 <= j < i as int ==> (#[trigger] partitions@[j]).partition_path@
                        == partition_path_spec(path_file@, j as nat),
                count_of(partitions@) == 0,
            decreases partition_number - i,
        {
            let mut partition_path = path_file.clone();
            partition_path.append("/partition_");
            let dec = u64_to_dec(i as u64);
            partition_path.append(dec.as_str());
            let ghost pre = partitions@;
            partitions.push(Partition::new(i, partition_path));
            proof {
                assert(partitions@.drop_last() =~= pre);
            }
            i = i + 1;
        }
        Database { partitions, path_file, partition_number }
    }

    /// The number of entries across all partitions, tombstoned ones
    /// included.
    pub fn count_entries(&self) -> (r: usize)
        requires
            self.wf(),
            count_of(self.partitions@) <= usize::MAX,
        ensures
            r == count_of(self.partitions@),
    {
        let n = self.partitions.len();
        let mut acc: usize = 0;
        let mut i: usize = 0;
        while i < n
            invariant
                self.wf(),
                count_of(self.partitions@) <= usize::MAX,
                n == self.partitions@.len(),
                i <= n,
                acc == count_of(self.partitions@.take(i as int)),
            decreases n - i,
        {
            proof {
                assert(self.partitions@.take(i as int + 1).drop_last() =~= self.partitions@.take(
                    i as int,
                ));
                assert(self.partitions@.take(i as int + 1).last() == self.partitions@[i as int]);
                lemma_count_prefix_monotone(self.partitions@, i as int + 1, n as int);
                assert(self.partitions@.take(n as int) =~= self.partitions@);
            }
            acc = acc + self.partitions[i].count_entries();
            i = i + 1;
        }
        proof {
            assert(self.partitions@.take(n as int) =~= self.partitions@);
        }
        acc
    }

    /// Removes every entry of every partition.  No cross-partition atomicity
    /// is claimed: partitions are cleared one by one, in order.
    pub fn delete_all(&mut self)
        requires
            old(self).wf(),
        ensures
            final(self).wf(),
            final(self).partition_number == old(self).partition_number,
            final(self).path_file == old(self).path_file,
            forall|i: int|
                0 <= i < final(self).partitions@.len() ==> (#[trigger] final(self).partitions@[i])@ == Map::<Seq<char>, EntryModel>::empty(),
            forall|i: int|
                0 <= i < final(self).partitions@.len() ==> (#[trigger] final(self).partitions@[i]).entries@.len() == 0,
            final(self).partitions@.len() == old(self).partitions@.len(),
            count_of(final(self).partitions@) == 0,
    {
        let n = self.partitions.len();
        let mut i: usize = 0;
        while i < n
            invariant
                n == self.partitions@.len(),
                i <= n,
                self.partition_number == old(self).partition_number,
                self.path_file == old(self).path_file,
                self.partitions@.len() == old(self).partitions@.len(),
                forall|j: int|
                    0 <= j < self.partitions@.len() ==> (#[trigger] self.partitions@[j]).wf(),
                forall|j: int|
                    0 <= j < self.partitions@.len()
                        ==> (#[trigger] self.partitions@[j]).partition_number == old(self).partitions@[j].partition_number,
                forall|j: int|
                    0 <= j < i as int ==> (#[trigger] self.partitions@[j])@ == Map::<
                        Seq<char>,
                        EntryModel,
                    >::empty(),
                forall|j: int|
                    0 <= j < i as int ==> (#[trigger] self.partitions@[j]).entries@.len() == 0,
            decreases n - i,
        {
            self.partitions[i].delete_all();
            i = i + 1;
        }
        proof {
            lemma_count_zero(self.partitions@);
        }
    }

    /// All keys of the store, live or tombstoned, partition by partition.
    pub fn keys(&self) -> (r: Vec<String>)
        requires
            self.wf(),
        ensures
            strings_views(r@) == keys_of(self.partitions@),
    {
        let n = self.partitions.len();
        let mut r: Vec<String> = Vec::new();
        let mut i: usize = 0;
        while i < n
            invariant
                self.wf(),
                n == self.partitions@.len(),
                i <= n,
                strings_views(r@) == keys_of(self.partitions@.take(i as int)),
            decreases n - i,
        {
            let mut ks = self.partitions[i].keys();
            let ghost pre = r@;
            let ghost kv = ks@;
            r.append(&mut ks);
            proof {
                assert(self.partitions@.take(i as int + 1).drop_last() =~= self.partitions@.take(
                    i as int,
                ));
                assert(self.partitions@.take(i as int + 1).last() == self.partitions@[i as int]);
                let es = self.partitions@[i as int].entries@;
                assert forall|k: int| 0 <= k < kv.len() implies strings_views(kv)[k] == keys_seq(
                    es,
                )[k] by {
                    assert(strings_views(kv)[k] == kv[k]@);
                    assert(keys_seq(es)[k] == es[k]@.key);
                }
                assert(strings_views(kv) =~= keys_seq(es));
                assert(strings_views(pre + kv) =~= strings_views(pre) + strings_views(kv));
            }
            i = i + 1;
        }
        proof {
            assert(self.partitions@.take(n as int) =~= self.partitions@);
        }
        r
    }

    /// Insert: routes the key, then stores a fresh live entry in the owning
    /// partition, replacing any prior entry for that key.  All other
    /// partitions are untouched.
    pub fn push(&mut self, key: String, value: Vec<u8>) -> (r: Result<
        &CacheItem,
        PartitionOperationError,
    >)
        requires
            old(self).wf(),
        ensures
            final(self).wf(),
            final(self).partition_number == old(self).partition_number,
            final(self).path_file == old(self).path_file,
            final(self).partitions@.len() == old(self).partitions@.len(),
            final(self).partitions@[route(key@, old(self).partition_number)]@ == old(self).routed(
                key@,
            ).insert(key@, pushed_entry(key@, value@)),
            forall|j: int|
                0 <= j < old(self).partitions@.len() && j != route(key@, old(self).partition_number)
                    ==> final(self).partitions@[j] == old(self).partitions@[j],
            r matches Ok(e) && e@ == pushed_entry(key@, value@),
    {
        let index = self.get_partition_index(&key);
        self.partitions[index].push(key, value)
    }

    /// Delete: routes the key, then tombstones the live entry in the owning
    /// partition; an absent or already tombstoned key fails with
    /// `CacheItemNotFound`.
    pub fn pop(&mut self, key: String) -> (r: Result<&CacheItem, PartitionOperationError>)
        requires
            old(self).wf(),
        ensures
            final(self).wf(),
            final(self).partition_number == old(self).partition_number,
            final(self).path_file == old(self).path_file,
            final(self).partitions@.len() == old(self).partitions@.len(),
            forall|j: int|
                0 <= j < old(self).partitions@.len() && j != route(key@, old(self).partition_number)
                    ==> final(self).partitions@[j] == old(self).partitions@[j],
            can_pop(old(self).routed(key@), key@) ==> {
                &&& final(self).partitions@[route(key@, old(self).partition_number)]@ == old(self).routed(key@).insert(key@, tombstoned(old(self).routed(key@)[key@]))
                &&& r matches Ok(e) && e@ == tombstoned(old(self).routed(key@)[key@])
            },
            !can_pop(old(self).routed(key@), key@) ==> {
                &&& final(self).partitions@ =~= old(self).partitions@
                &&& r matches Err(e) && e == PartitionOperationError::CacheItemNotFound
            },
    {
        let index = self.get_partition_index(&key);
        self.partitions[index].pop(key)
    }

    /// Read: routes the key and reads the owning partition; the result is a
    /// pure function of that partition's map and the key.
    pub fn read(&self, key: String) -> (r: Result<&CacheItem, PartitionOperationError>)
        requires
            self.wf(),
        ensures
            match r {
                Ok(e) => read_spec(self.routed(key@), key@) == Ok::<
                    EntryModel,
                    PartitionOperationError,
                >(e@),
                Err(e) => read_spec(self.routed(key@), key@) == Err::<
                    EntryModel,
                    PartitionOperationError,
                >(e),
            },
    {
        let index = self.get_partition_index(&key);
        self.partitions[index].read(key)
    }

    /// The shard index that owns `key`: the canonical hash reduced modulo
    /// the partition count.  Identical on the write path and the read path.
    fn get_partition_index(&self, key: &String) -> (r: usize)
        requires
            self.wf(),
        ensures
            r as int == route(key@, self.partition_number),
            r < self.partitions@.len(),
    {
        let hash = key_hasher(key);
        let result = (hash % (self.partition_number as u64)) as usize;
        result
    }
}

/// Partitions with no entries count no entries.
proof fn lemma_count_zero(parts: Seq<Partition>)
    requires
        forall|j: int| 0 <= j < parts.len() ==> (#[trigger] parts[j]).entries@.len() == 0,
    ensures
        count_of(parts) == 0,
    decreases parts.len(),
{
    if parts.len() > 0 {
        lemma_count_zero(parts.drop_last());
    }
}

impl Database {
    /// Renders every partition's snapshot text, in partition order.  Writing
    /// each to its partition's path is the caller's part; write failures are
    /// reported there and fail nothing here.
    pub fn persist(&self) -> (r: Vec<String>)
        requires
            self.wf(),
        ensures
            r@.len() == self.partitions@.len(),
            forall|i: int|
                0 <= i < r@.len() ==> (#[trigger] r@[i])@ == snapshot_json(
                    models(self.partitions@[i].entries@),
                ),
    {
        let n = self.partitions.len();
        let mut r: Vec<String> = Vec::new();
        let mut i: usize = 0;
        while i < n
            invariant
                self.wf(),
                n == self.partitions@.len(),
                i <= n,
                r@.len() == i,
                forall|j: int|
                    0 <= j < i as int ==> (#[trigger] r@[j])@ == snapshot_json(
                        models(self.partitions@[j].entries@),
                    ),
            decreases n - i,
        {
            r.push(self.partitions[i].persist());
            i = i + 1;
        }
        r
    }

    /// The snapshot path of each partition, in partition order.
    pub fn partition_paths(&self) -> (r: Vec<String>)
        requires
            self.wf(),
        ensures
            r@.len() == self.partitions@.len(),
            forall|i: int|
                0 <= i < r@.len() ==> (#[trigger] r@[i])@ == self.partitions@[i].partition_path@,
    {
        let n = self.partitions.len();
        let mut r: Vec<String> = Vec::new();
        let mut i: usize = 0;
        while i < n
            invariant
                self.wf(),
                n == self.partitions@.len(),
                i <= n,
                r@.len() == i,
                forall|j: int|
                    0 <= j < i as int ==> (#[trigger] r@[j])@
                        == self.partitions@[j].partition_path@,
            decreases n - i,
        {
            r.push(self.partitions[i].partition_path.clone());
            i = i + 1;
        }
        r
    }

    /// Restores one partition from snapshot text; corrupt text is rejected
    /// whole and the database is unchanged.
    pub fn load_partition(&mut self, index: usize, text: &str) -> (r: Result<(), SnapshotError>)
        requires
            old(self).wf(),
            index < old(self).partitions@.len(),
        ensures
            final(self).wf(),
            final(self).partition_number == old(self).partition_number,
            final(self).path_file == old(self).path_file,
            final(self).partitions@.len() == old(self).partitions@.len(),
            forall|j: int|
                0 <= j < old(self).partitions@.len() && j != index ==> final(self).partitions@[j]
                    == old(self).partitions@[j],
            match sp_snapshot(text@) {
                Some(es) => {
                    &&& r is Ok
                    &&& models(final(self).partitions@[index as int].entries@) == es
                    &&& final(self).partitions@[index as int].persisted
                },
                None => {
                    &&& r matches Err(e) && e == SnapshotError::Corrupt
                    &&& final(self).partitions@ =~= old(self).partitions@
                },
            },
    {
        self.partitions[index].load_data(text)
    }
}

/// Round trip at the database level: for every partition of a well-formed
/// database, reading back its rendered snapshot restores exactly that
/// partition's entries, live and tombstoned alike.
pub proof fn lemma_database_roundtrip(db: Database)
    requires
        db.wf(),
    ensures
        forall|i: int|
            0 <= i < db.partitions@.len() ==> sp_snapshot(
                snapshot_json(models((#[trigger] db.partitions@[i]).entries@)),
            ) == Some(models(db.partitions@[i].entries@)),
{
    assert forall|i: int| 0 <= i < db.partitions@.len() implies sp_snapshot(
        snapshot_json(models((#[trigger] db.partitions@[i]).entries@)),
    ) == Some(models(db.partitions@[i].entries@)) by {
        lemma_partition_roundtrip(db.partitions@[i]);
    }
}

} // verus!
