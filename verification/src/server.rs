//! Dispatch of parsed commands against the database, and the exact response
//! text each one renders.  The connection loop around this is plain I/O and
//! lives with the caller.

use vstd::prelude::*;
use crate::commands::Command;
use crate::database::{keys_of, keys_seq, Database};
use crate::entry::{pushed_entry, tombstoned};
use crate::hash::route;
use crate::json::{dec_digits, json_bytes, json_string};
use crate::partition::{can_pop, clone_bytes, read_spec, Partition};
use crate::response::{
    detail_json, details_body, json_strings, CommandResponse, ErrorResponse, KeysResponse,
    PartitionDetail, PartitionsDetailsResponse, ValueResponse,
};

verus! {

/// The response for a key with value bytes.
pub open spec fn value_json(k: Seq<char>, v: Seq<u8>) -> Seq<char> {
    "{\"key\":"@ + json_string(k) + ",\"value\":"@ + json_bytes(v) + "}"@
}

/// The response for a numbered status with a message.
pub open spec fn error_json(code: nat, msg: Seq<char>) -> Seq<char> {
    "{\"code\":"@ + dec_digits(code) + ",\"message\":"@ + json_string(msg) + "}"@
}

/// One partition's detail text: its number and its keys.
pub open spec fn part_detail_json(p: Partition) -> Seq<char> {
    "{\"partition\":"@ + dec_digits(p.partition_number as nat) + ",\"keys\":"@ + json_strings(
        keys_seq(p.entries@),
    ) + "}"@
}

pub open spec fn parts_details_body(parts: Seq<Partition>) -> Seq<char>
    decreases parts.len(),
{
    if parts.len() == 0 {
        Seq::<char>::empty()
    } else if parts.len() == 1 {
        part_detail_json(parts[0])
    } else {
        part_detail_json(parts[0]) + ","@ + parts_details_body(parts.drop_first())
    }
}

/// The whole details response over the partition set.
pub open spec fn partitions_details_json(parts: Seq<Partition>) -> Seq<char> {
    "{\"partitions\":["@ + parts_details_body(parts) + "]}"@
}

/// Details whose fields mirror the partitions render the same text.
proof fn lemma_details_match(ds: Seq<PartitionDetail>, parts: Seq<Partition>)
    requires
        ds.len() == parts.len(),
        forall|j: int|
            0 <= j < ds.len() ==> (#[trigger] ds[j]).partition == parts[j].partition_number
                && ds[j].keys@.map_values(|x: String| x@) == keys_seq(parts[j].entries@),
    ensures
        details_body(ds) == parts_details_body(parts),
    decreases ds.len(),
{
    if ds.len() > 0 {
        assert(detail_json(ds[0]) == part_detail_json(parts[0]));
        if ds.len() > 1 {
            assert forall|j: int|
                0 <= j < ds.drop_first().len() implies (#[trigger] ds.drop_first()[j]).partition
                == parts.drop_first()[j].partition_number && ds.drop_first()[j].keys@.map_values(
                |x: String| x@,
            ) == keys_seq(parts.drop_first()[j].entries@) by {
                assert(ds.drop_first()[j] == ds[j + 1]);
                assert(parts.drop_first()[j] == parts[j + 1]);
            }
            lemma_details_match(ds.drop_first(), parts.drop_first());
        }
    }
}

/// Performs one command against the database and renders its response text.
/// The storage outcome and the text are both pinned exactly, branch by
/// branch.
pub fn handle_request(command: Command, db: &mut Database) -> (r: String)
    requires
        old(db).wf(),
    ensures
        final(db).wf(),
        final(db).partition_number == old(db).partition_number,
        final(db).path_file == old(db).path_file,
        final(db).partitions@.len() == old(db).partitions@.len(),
        match command {
            Command::Pop(key) => {
                let idx = route(key@, old(db).partition_number);
                let m = old(db).routed(key@);
                &&& (forall|j: int|
                    0 <= j < old(db).partitions@.len() && j != idx ==> final(db).partitions@[j]
                        == old(db).partitions@[j])
                &&& (can_pop(m, key@) ==> final(db).partitions@[idx]@ == m.insert(
                    key@,
                    tombstoned(m[key@]),
                ) && r@ == value_json(key@, m[key@].value))
                &&& (!can_pop(m, key@) ==> final(db).partitions@ =~= old(db).partitions@ && r@
                    == error_json(0, "Key not found"@))
            },
            Command::Push(key, value) => {
                let idx = route(key@, old(db).partition_number);
                &&& (forall|j: int|
                    0 <= j < old(db).partitions@.len() && j != idx ==> final(db).partitions@[j]
                        == old(db).partitions@[j])
                &&& final(db).partitions@[idx]@ == old(db).routed(key@).insert(
                    key@,
                    pushed_entry(key@, value@),
                )
                &&& r@ == value_json(key@, value@)
            },
            Command::Read(key) => {
                &&& final(db).partitions@ =~= old(db).partitions@
                &&& match read_spec(old(db).routed(key@), key@) {
                    Ok(e) => r@ == value_json(key@, e.value),
                    Err(_) => r@ == error_json(0, "Key not found"@),
                }
            },
            Command::Keys => final(db).partitions@ =~= old(db).partitions@ && r@ == "{\"keys\":"@
                + json_strings(keys_of(old(db).partitions@)) + "}"@,
            Command::PartitionsDetails => final(db).partitions@ =~= old(db).partitions@ && r@
                == partitions_details_json(old(db).partitions@),
            Command::Clear => (forall|i: int|
                0 <= i < final(db).partitions@.len() ==> (#[trigger] final(db).partitions@[i]).entries@.len()
                    == 0) && r@ == error_json(0, "Database cleared"@),
            Command::Quit => final(db).partitions@ =~= old(db).partitions@ && r@ == error_json(
                0,
                "Quitting"@,
            ),
        },
{
    match command {
        Command::Pop(key) => {
            match db.pop(key.clone()) {
                Ok(cache_item) => {
                    let value = clone_bytes(&cache_item.value);
                    let resp = ValueResponse { key, value };
                    resp.to_json()
                },
                Err(_) => {
                    ErrorResponse { code: 0, message: String::from_str("Key not found") }.to_json()
                },
            }
        },
        Command::Push(key, value) => {
            let response_value = clone_bytes(&value);
            match db.push(key.clone(), value) {
                Ok(_) => ValueResponse { key, value: response_value }.to_json(),
                Err(_) => ErrorResponse {
                    code: 0,
                    message: String::from_str("Error pushing value"),
                }.to_json(),
            }
        },
        Command::Read(key) => {
            match db.read(key.clone()) {
                Ok(cache_item) => {
                    let value = clone_bytes(&cache_item.value);
                    ValueResponse { key, value }.to_json()
                },
                Err(_) => {
                    ErrorResponse { code: 0, message: String::from_str("Key not found") }.to_json()
                },
            }
        },
        Command::Keys => KeysResponse { keys: db.keys() }.to_json(),
        Command::PartitionsDetails => {
            let n = db.partitions.len();
            let mut partitions_details: Vec<PartitionDetail> = Vec::new();
            let mut i: usize = 0;
            while i < n
                invariant
                    db.wf(),
                    n == db.partitions@.len(),
                    i <= n,
                    partitions_details@.len() == i,
                    forall|j: int|
                        0 <= j < i as int ==> (#[trigger] partitions_details@[j]).partition
                            == db.partitions@[j].partition_number && partitions_details@[
                        j].keys@.map_values(|x: String| x@) == keys_seq(db.partitions@[j].entries@),
                decreases n - i,
            {
                let keys = db.partitions[i].keys();
                let pd = PartitionDetail { partition: db.partitions[i].partition_number, keys };
                proof {
                    let es = db.partitions@[i as int].entries@;
                    assert forall|k: int| 0 <= k < pd.keys@.len() implies pd.keys@.map_values(
                        |x: String| x@,
                    )[k] == keys_seq(es)[k] by {
                        assert(pd.keys@.map_values(|x: String| x@)[k] == pd.keys@[k]@);
                        assert(keys_seq(es)[k] == es[k]@.key);
                    }
                    assert(pd.keys@.map_values(|x: String| x@) =~= keys_seq(es));
                }
                partitions_details.push(pd);
                i = i + 1;
            }
            proof {
                lemma_details_match(partitions_details@, db.partitions@);
            }
            let resp = PartitionsDetailsResponse { partitions: partitions_details };
            resp.to_json()
        },
        Command::Clear => {
            db.delete_all();
            ErrorResponse { code: 0, message: String::from_str("Database cleared") }.to_json()
        },
        Command::Quit => {
            ErrorResponse { code: 0, message: String::from_str("Quitting") }.to_json()
        },
    }
}

} // verus!
