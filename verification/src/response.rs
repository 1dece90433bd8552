//! The response objects the protocol adapter renders back to clients, each
//! with its exact JSON text.

use vstd::prelude::*;
use crate::json::{
    append_bool, append_json_string, dec_digits, json_bool, json_bytes, json_string, u64_to_dec,
};
use crate::snapshot::append_bytes;

verus! {

/// A response that renders itself as JSON text.
pub trait CommandResponse {
    /// The exact text `to_json` returns.
    spec fn json_spec(&self) -> Seq<char>;

    fn to_json(&self) -> (r: String)
        ensures
            r@ == self.json_spec(),
    ;
}

/// The rendering of a string array: quoted, escaped strings between
/// brackets.
pub open spec fn strings_body(ss: Seq<Seq<char>>) -> Seq<char>
    decreases ss.len(),
{
    if ss.len() == 0 {
        Seq::<char>::empty()
    } else if ss.len() == 1 {
        json_string(ss[0])
    } else {
        json_string(ss[0]) + ","@ + strings_body(ss.drop_first())
    }
}

pub open spec fn json_strings(ss: Seq<Seq<char>>) -> Seq<char> {
    "["@ + strings_body(ss) + "]"@
}

/// Appends the strings of `v` from index `i` on, commas between them.
fn append_strings_body(out: &mut String, v: &Vec<String>, i: usize)
    requires
        i < v@.len(),
    ensures
        final(out)@ == old(out)@ + strings_body(v@.map_values(|x: String| x@).skip(i as int)),
    decreases v@.len() - i,
{
    let ghost ss = v@.map_values(|x: String| x@);
    proof {
        assert(ss.skip(i as int)[0] == v@[i as int]@);
    }
    append_json_string(out, v[i].as_str());
    if i < v.len() - 1 {
        out.append(",");
        append_strings_body(out, v, i + 1);
        proof {
            assert(ss.skip(i as int).drop_first() =~= ss.skip(i as int + 1));
            assert(out@ =~= old(out)@ + strings_body(ss.skip(i as int)));
        }
    } else {
        proof {
            assert(ss.skip(i as int).len() == 1);
            assert(out@ =~= old(out)@ + strings_body(ss.skip(i as int)));
        }
    }
}

/// Appends a whole string array, per `json_strings`.
pub fn append_strings(out: &mut String, v: &Vec<String>)
    ensures
        final(out)@ == old(out)@ + json_strings(v@.map_values(|x: String| x@)),
{
    out.append("[");
    if v.len() > 0 {
        append_strings_body(out, v, 0);
        proof {
            let ss = v@.map_values(|x: String| x@);
            assert(ss.skip(0) =~= ss);
        }
    }
    out.append("]");
    proof {
        assert(out@ =~= old(out)@ + json_strings(v@.map_values(|x: String| x@)));
    }
}

/// A key with its value bytes.
#[derive(Debug)]
pub struct ValueResponse {
    pub key: String,
    pub value: Vec<u8>,
}

impl CommandResponse for ValueResponse {
    open spec fn json_spec(&self) -> Seq<char> {
        "{\"key\":"@ + json_string(self.key@) + ",\"value\":"@ + json_bytes(self.value@) + "}"@
    }

    fn to_json(&self) -> (r: String) {
        let mut out = String::new();
        out.append("{\"key\":");
        append_json_string(&mut out, self.key.as_str());
        out.append(",\"value\":");
        append_bytes(&mut out, &self.value);
        out.append("}");
        proof {
            assert(out@ =~= self.json_spec());
        }
        out
    }
}

/// The keys of the whole store.
#[derive(Debug)]
pub struct KeysResponse {
    pub keys: Vec<String>,
}

impl CommandResponse for KeysResponse {
    open spec fn json_spec(&self) -> Seq<char> {
        "{\"keys\":"@ + json_strings(self.keys@.map_values(|x: String| x@)) + "}"@
    }

    fn to_json(&self) -> (r: String) {
        let mut out = String::new();
        out.append("{\"keys\":");
        append_strings(&mut out, &self.keys);
        out.append("}");
        proof {
            assert(out@ =~= self.json_spec());
        }
        out
    }
}

/// One partition's identity and keys.
#[derive(Debug)]
pub struct PartitionDetail {
    pub partition: u8,
    pub keys: Vec<String>,
}

/// The rendering of one partition's detail object.
pub open spec fn detail_json(d: PartitionDetail) -> Seq<char> {
    "{\"partition\":"@ + dec_digits(d.partition as nat) + ",\"keys\":"@ + json_strings(
        d.keys@.map_values(|x: String| x@),
    ) + "}"@
}

fn append_detail(out: &mut String, d: &PartitionDetail)
    ensures
        final(out)@ == old(out)@ + detail_json(*d),
{
    out.append("{\"partition\":");
    let dec = u64_to_dec(d.partition as u64);
    out.append(dec.as_str());
    out.append(",\"keys\":");
    append_strings(out, &d.keys);
    out.append("}");
    proof {
        assert(out@ =~= old(out)@ + detail_json(*d));
    }
}

/// The rendering of a detail array.
pub open spec fn details_body(ds: Seq<PartitionDetail>) -> Seq<char>
    decreases ds.len(),
{
    if ds.len() == 0 {
        Seq::<char>::empty()
    } else if ds.len() == 1 {
        detail_json(ds[0])
    } else {
        detail_json(ds[0]) + ","@ + details_body(ds.drop_first())
    }
}

fn append_details(out: &mut String, v: &Vec<PartitionDetail>, i: usize)
    requires
        i < v@.len(),
    ensures
        final(out)@ == old(out)@ + details_body(v@.skip(i as int)),
    decreases v@.len() - i,
{
    proof {
        assert(v@.skip(i as int)[0] == v@[i as int]);
    }
    append_detail(out, &v[i]);
    if i < v.len() - 1 {
        out.append(",");
        append_details(out, v, i + 1);
        proof {
            assert(v@.skip(i as int).drop_first() =~= v@.skip(i as int + 1));
            assert(out@ =~= old(out)@ + details_body(v@.skip(i as int)));
        }
    } else {
        proof {
            assert(v@.skip(i as int).len() == 1);
            assert(out@ =~= old(out)@ + details_body(v@.skip(i as int)));
        }
    }
}

/// Every partition's detail.
#[derive(Debug)]
pub struct PartitionsDetailsResponse {
    pub partitions: Vec<PartitionDetail>,
}

impl CommandResponse for PartitionsDetailsResponse {
    open spec fn json_spec(&self) -> Seq<char> {
        "{\"partitions\":["@ + details_body(self.partitions@) + "]}"@
    }

    fn to_json(&self) -> (r: String) {
        let mut out = String::new();
        out.append("{\"partitions\":[");
        if self.partitions.len() > 0 {
            append_details(&mut out, &self.partitions, 0);
            proof {
                assert(self.partitions@.skip(0) =~= self.partitions@);
            }
        }
        out.append("]}");
        proof {
            assert(out@ =~= self.json_spec());
        }
        out
    }
}

/// An administrative acknowledgement.
#[derive(Debug)]
pub struct AdminCommandResponse {
    pub message: String,
    pub ok: bool,
}

impl CommandResponse for AdminCommandResponse {
    open spec fn json_spec(&self) -> Seq<char> {
        "{\"message\":"@ + json_string(self.message@) + ",\"ok\":"@ + json_bool(self.ok) + "}"@
    }

    fn to_json(&self) -> (r: String) {
        let mut out = String::new();
        out.append("{\"message\":");
        append_json_string(&mut out, self.message.as_str());
        out.append(",\"ok\":");
        append_bool(&mut out, self.ok);
        out.append("}");
        proof {
            assert(out@ =~= self.json_spec());
        }
        out
    }
}

/// A numbered status with a message.
#[derive(Debug)]
pub struct ErrorResponse {
    pub code: u8,
    pub message: String,
}

impl CommandResponse for ErrorResponse {
    open spec fn json_spec(&self) -> Seq<char> {
        "{\"code\":"@ + dec_digits(self.code as nat) + ",\"message\":"@ + json_string(
            self.message@,
        ) + "}"@
    }

    fn to_json(&self) -> (r: String) {
        let mut out = String::new();
        out.append("{\"code\":");
        let dec = u64_to_dec(self.code as u64);
        out.append(dec.as_str());
        out.append(",\"message\":");
        append_json_string(&mut out, self.message.as_str());
        out.append("}");
        proof {
            assert(out@ =~= self.json_spec());
        }
        out
    }
}

} // verus!
