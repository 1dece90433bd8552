//! The canonical key hash (64-bit FNV-1a over the key's characters) and the
//! routing function that assigns every key to a partition.

use vstd::prelude::*;

verus! {

/// Offset basis of the 64-bit FNV-1a hash.
pub const FNV_OFFSET_BASIS: u64 = 0xcbf29ce484222325;

/// Prime of the 64-bit FNV-1a hash.
pub const FNV_PRIME: u64 = 0x100000001b3;

/// One FNV-1a round: xor the next character in, then multiply by the prime,
/// keeping the low 64 bits.
pub open spec fn fnv_step(h: u64, c: char) -> u64 {
    (((h ^ (c as u64)) * FNV_PRIME) % 0x10000000000000000) as u64
}

/// FNV-1a folded over `s`, starting from the state `h`.
pub open spec fn fnv1a_from(h: u64, s: Seq<char>) -> u64
    decreases s.len(),
{
    if s.len() == 0 {
        h
    } else {
        fnv1a_from(fnv_step(h, s[0]), s.drop_first())
    }
}

/// The canonical content hash of a key.  The same function fingerprints
/// stored entries and routes keys to partitions, so persisted data records
/// its origin shard deterministically.
pub open spec fn key_hash(s: Seq<char>) -> u64 {
    fnv1a_from(FNV_OFFSET_BASIS, s)
}

/// The partition that owns a key: its hash reduced modulo the partition count.
pub open spec fn route(key: Seq<char>, partition_number: u8) -> int
    recommends
        partition_number > 0,
{
    key_hash(key) as int % (partition_number as int)
}

/// The shard index of a key is always a valid partition index.
pub proof fn lemma_route_in_bounds(key: Seq<char>, partition_number: u8)
    requires
        partition_number > 0,
    ensures
        0 <= route(key, partition_number) < partition_number as int,
{
}

/// Routing is a pure function of the key and the partition count: any two
/// keys whose hashes agree modulo the partition count are owned by the same
/// partition.
pub proof fn lemma_route_same_partition(k1: Seq<char>, k2: Seq<char>, partition_number: u8)
    requires
        partition_number > 0,
        key_hash(k1) as int % (partition_number as int) == key_hash(k2) as int % (
        partition_number as int),
    ensures
        route(k1, partition_number) == route(k2, partition_number),
{
}

fn fnv_mix(h: u64, c: char) -> (r: u64)
    ensures
        r == fnv_step(h, c),
{
    let x: u64 = h ^ (c as u64);
    let wide: u128 = (x as u128) * (FNV_PRIME as u128);
    (wide % 0x10000000000000000u128) as u64
}

/// The canonical key hash, computed one character at a time.
pub fn key_hasher(key: &String) -> (r: u64)
    ensures
        r == key_hash(key@),
{
    let s: &str = key.as_str();
    let n: usize = s.unicode_len();
    let mut h: u64 = FNV_OFFSET_BASIS;
    let mut i: usize = 0;
    proof {
        assert(s@.skip(0) =~= s@);
    }
    while i < n
        invariant
            n == s@.len(),
            i <= n,
            s@ == key@,
            fnv1a_from(h, s@.skip(i as int)) == key_hash(key@),
        decreases n - i,
    {
        let c = s.get_char(i);
        proof {
            assert(s@.skip(i as int)[0] == s@[i as int]);
            assert(s@.skip(i as int).drop_first() =~= s@.skip(i as int + 1));
        }
        h = fnv_mix(h, c);
        i = i + 1;
    }
    proof {
        assert(s@.skip(n as int) =~= Seq::<char>::empty());
    }
    h
}

} // verus!
