//! The on-disk snapshot format: one JSON object per partition, mapping each
//! key to an object with fields `key`, `hashed_key`, `value`, `deleted`.
//! The renderer and the reader are both specified exactly, and reading is
//! proved to invert rendering.

use vstd::prelude::*;
use crate::entry::{entry_wf, CacheItem, EntryModel, SnapshotError};
use crate::hash::{key_hash, key_hasher};
use crate::partition::{unique_keys, Partition};
use crate::json::{
    append_bool, append_json_string, bytes_body, dec_digits, is_digit, json_bool, json_bytes,
    json_string, lemma_sp_bool_inverts, lemma_sp_bytes_inverts, lemma_sp_bytes_suffix,
    lemma_sp_lit_inverts, lemma_sp_string_inverts, lemma_sp_string_suffix, lemma_sp_u64_inverts,
    lemma_sp_u64_suffix, parse_bool, parse_lit, parse_string, parse_u64, sp_bool, sp_bytes,
    sp_bytes_elems, sp_lit, sp_string, sp_u64, u64_to_dec,
};

verus! {

/// The mathematical entries a sequence of stored records stands for.
pub open spec fn models(s: Seq<CacheItem>) -> Seq<EntryModel> {
    s.map_values(|e: CacheItem| e@)
}

/// No two of the entries share a key.
pub open spec fn unique_model_keys(es: Seq<EntryModel>) -> bool {
    forall|i: int, j: int| 0 <= i < j < es.len() ==> es[i].key != es[j].key
}

/// The rendering of one entry's object.
pub open spec fn entry_json(e: EntryModel) -> Seq<char> {
    "{\"key\":"@ + json_string(e.key) + ",\"hashed_key\":"@ + dec_digits(e.hashed_key as nat)
        + ",\"value\":"@ + json_bytes(e.value) + ",\"deleted\":"@ + json_bool(e.deleted) + "}"@
}

/// The rendering of one `key: object` pair.
pub open spec fn pair_json(e: EntryModel) -> Seq<char> {
    json_string(e.key) + ":"@ + entry_json(e)
}

/// The pairs of a snapshot, comma separated.
pub open spec fn entries_json(es: Seq<EntryModel>) -> Seq<char>
    decreases es.len(),
{
    if es.len() == 0 {
        Seq::<char>::empty()
    } else if es.len() == 1 {
        pair_json(es[0])
    } else {
        pair_json(es[0]) + ","@ + entries_json(es.drop_first())
    }
}

/// The whole snapshot of a partition's entries, in storage order.
pub open spec fn snapshot_json(es: Seq<EntryModel>) -> Seq<char> {
    "{"@ + entries_json(es) + "}"@
}

/// Reads one entry object.
pub open spec fn sp_entry(s: Seq<char>) -> Option<(EntryModel, Seq<char>)> {
    match sp_lit(s, "{\"key\":"@) {
        None => None,
        Some(r1) => match sp_string(r1) {
            None => None,
            Some((key, r2)) => match sp_lit(r2, ",\"hashed_key\":"@) {
                None => None,
                Some(r3) => match sp_u64(r3) {
                    None => None,
                    Some((hashed_key, r4)) => match sp_lit(r4, ",\"value\":"@) {
                        None => None,
                        Some(r5) => match sp_bytes(r5) {
                            None => None,
                            Some((value, r6)) => match sp_lit(r6, ",\"deleted\":"@) {
                                None => None,
                                Some(r7) => match sp_bool(r7) {
                                    None => None,
                                    Some((deleted, r8)) => match sp_lit(r8, "}"@) {
                                        None => None,
                                        Some(r9) => Some(
                                            (EntryModel { key, hashed_key, value, deleted }, r9),
                                        ),
                                    },
                                },
                            },
                        },
                    },
                },
            },
        },
    }
}

/// Reads one `key: object` pair.  The outer key must repeat the entry's own
/// key, and the recorded fingerprint must be the canonical hash of the key:
/// a snapshot violating either is corrupt.
pub open spec fn sp_pair(s: Seq<char>) -> Option<(EntryModel, Seq<char>)> {
    match sp_string(s) {
        None => None,
        Some((k, r1)) => match sp_lit(r1, ":"@) {
            None => None,
            Some(r2) => match sp_entry(r2) {
                None => None,
                Some((e, r3)) => if e.key == k && e.hashed_key == key_hash(e.key) {
                    Some((e, r3))
                } else {
                    None
                },
            },
        },
    }
}

/// Whatever remains after a pair is a strict suffix of the input.
pub proof fn lemma_sp_pair_suffix(s: Seq<char>)
    ensures
        sp_pair(s) matches Some(p) ==> p.1.len() < s.len(),
{
    lemma_sp_string_suffix(s);
    if let Some((k, r1)) = sp_string(s) {
        if let Some(r2) = sp_lit(r1, ":"@) {
            lemma_sp_entry_suffix(r2);
        }
    }
}

proof fn lemma_sp_entry_suffix(s: Seq<char>)
    ensures
        sp_entry(s) matches Some(p) ==> p.1.len() <= s.len(),
{
    if let Some(r1) = sp_lit(s, "{\"key\":"@) {
        lemma_sp_string_suffix(r1);
        if let Some((key, r2)) = sp_string(r1) {
            if let Some(r3) = sp_lit(r2, ",\"hashed_key\":"@) {
                lemma_sp_u64_suffix(r3);
                if let Some((h, r4)) = sp_u64(r3) {
                    if let Some(r5) = sp_lit(r4, ",\"value\":"@) {
                        lemma_sp_bytes_suffix(r5);
                    }
                }
            }
        }
    }
}

#[via_fn]
proof fn sp_entries_decreases(s: Seq<char>) {
    lemma_sp_pair_suffix(s);
}

/// Reads the pairs of a non-empty snapshot, up to and including the closing
/// brace.
pub open spec fn sp_entries(s: Seq<char>) -> Option<(Seq<EntryModel>, Seq<char>)>
    decreases s.len(),
    via sp_entries_decreases
{
    match sp_pair(s) {
        None => None,
        Some((e, r)) => if r.len() > 0 && r[0] == ',' {
            match sp_entries(r.drop_first()) {
                Some(p) => Some((seq![e] + p.0, p.1)),
                None => None,
            }
        } else if r.len() > 0 && r[0] == '}' {
            Some((seq![e], r.drop_first()))
        } else {
            None
        },
    }
}

/// Reads a whole snapshot: the braced pair list, with nothing after it, with
/// every fingerprint valid and every key unique.
pub open spec fn sp_snapshot(s: Seq<char>) -> Option<Seq<EntryModel>> {
    match sp_lit(s, "{"@) {
        None => None,
        Some(r) => if r.len() > 0 && r[0] == '}' {
            if r.len() == 1 {
                Some(Seq::<EntryModel>::empty())
            } else {
                None
            }
        } else {
            match sp_entries(r) {
                None => None,
                Some((es, r2)) => if r2.len() == 0 && unique_model_keys(es) {
                    Some(es)
                } else {
                    None
                },
            }
        },
    }
}

/// Every entry a parse accepts carries the fingerprint of its own key.
pub proof fn lemma_sp_entries_entry_wf(s: Seq<char>)
    ensures
        sp_entries(s) matches Some(p) ==> forall|i: int|
            0 <= i < p.0.len() ==> entry_wf(#[trigger] p.0[i]),
    decreases s.len(),
{
    lemma_sp_pair_suffix(s);
    if let Some((e, r)) = sp_pair(s) {
        if r.len() > 0 && r[0] == ',' {
            lemma_sp_entries_entry_wf(r.drop_first());
        }
    }
}

/// Reading one rendered entry object yields the entry back.
proof fn lemma_sp_entry_inverts(e: EntryModel, rest: Seq<char>)
    ensures
        sp_entry(entry_json(e) + rest) == Some((e, rest)),
{
    reveal_strlit(",\"hashed_key\":");
    reveal_strlit(",\"value\":");
    reveal_strlit(",\"deleted\":");
    let s = entry_json(e) + rest;
    let r9 = rest;
    let r8 = "}"@ + rest;
    let r7 = json_bool(e.deleted) + r8;
    let r6 = ",\"deleted\":"@ + r7;
    let r5 = json_bytes(e.value) + r6;
    let r4 = ",\"value\":"@ + r5;
    let r3 = dec_digits(e.hashed_key as nat) + r4;
    let r2 = ",\"hashed_key\":"@ + r3;
    let r1 = json_string(e.key) + r2;
    assert(s =~= "{\"key\":"@ + r1);
    lemma_sp_lit_inverts("{\"key\":"@, r1);
    lemma_sp_string_inverts(e.key, r2);
    lemma_sp_lit_inverts(",\"hashed_key\":"@, r3);
    assert(!is_digit(r4[0]));
    lemma_sp_u64_inverts(e.hashed_key, r4);
    lemma_sp_lit_inverts(",\"value\":"@, r5);
    assert(!is_digit(r6[0]));
    lemma_sp_bytes_inverts(e.value, r6);
    lemma_sp_lit_inverts(",\"deleted\":"@, r7);
    lemma_sp_bool_inverts(e.deleted, r8);
    lemma_sp_lit_inverts("}"@, r9);
}

/// Reading one rendered pair yields the entry back, provided its fingerprint
/// is the hash of its key (the renderer is only ever applied to such
/// entries).
proof fn lemma_sp_pair_inverts(e: EntryModel, rest: Seq<char>)
    requires
        entry_wf(e),
    ensures
        sp_pair(pair_json(e) + rest) == Some((e, rest)),
{
    let s = pair_json(e) + rest;
    let r2 = entry_json(e) + rest;
    let r1 = ":"@ + r2;
    assert(s =~= json_string(e.key) + r1);
    lemma_sp_string_inverts(e.key, r1);
    lemma_sp_lit_inverts(":"@, r2);
    lemma_sp_entry_inverts(e, rest);
}

/// Reading a rendered pair list back yields the entries in order.
proof fn lemma_sp_entries_inverts(es: Seq<EntryModel>, rest: Seq<char>)
    requires
        es.len() >= 1,
        forall|i: int| 0 <= i < es.len() ==> entry_wf(#[trigger] es[i]),
    ensures
        sp_entries(entries_json(es) + ("}"@ + rest)) == Some((es, rest)),
    decreases es.len(),
{
    reveal_strlit("}");
    reveal_strlit(",");
    let s = entries_json(es) + ("}"@ + rest);
    if es.len() == 1 {
        let after = "}"@ + rest;
        assert(s =~= pair_json(es[0]) + after);
        lemma_sp_pair_inverts(es[0], after);
        assert(after[0] == '}');
        assert(after.drop_first() =~= rest);
        assert(seq![es[0]] =~= es);
    } else {
        let es1 = es.drop_first();
        let tail = entries_json(es1) + ("}"@ + rest);
        let after = ","@ + tail;
        assert(s =~= pair_json(es[0]) + after);
        lemma_sp_pair_inverts(es[0], after);
        assert(after[0] == ',');
        assert(after.drop_first() =~= tail);
        lemma_sp_entries_inverts(es1, rest);
        assert(seq![es[0]] + es1 =~= es);
    }
}

/// Round trip: reading a rendered snapshot of well-formed, uniquely keyed
/// entries yields exactly those entries.
pub proof fn lemma_snapshot_roundtrip(es: Seq<EntryModel>)
    requires
        unique_model_keys(es),
        forall|i: int| 0 <= i < es.len() ==> entry_wf(#[trigger] es[i]),
    ensures
        sp_snapshot(snapshot_json(es)) == Some(es),
{
    reveal_strlit("{");
    reveal_strlit("}");
    let s = snapshot_json(es);
    if es.len() == 0 {
        let r = "}"@;
        assert(s =~= "{"@ + r);
        lemma_sp_lit_inverts("{"@, r);
        assert(r.len() == 1 && r[0] == '}');
        assert(es =~= Seq::<EntryModel>::empty());
    } else {
        let r = entries_json(es) + "}"@;
        assert(s =~= "{"@ + r);
        lemma_sp_lit_inverts("{"@, r);
        lemma_sp_entries_inverts(es, Seq::<char>::empty());
        assert(entries_json(es) + ("}"@ + Seq::<char>::empty()) =~= r);
        let p0 = pair_json(es[0]);
        assert(p0[0] == '"') by {
            assert(p0 =~= json_string(es[0].key) + (":"@ + entry_json(es[0])));
        }
        assert(r[0] == p0[0]) by {
            if es.len() == 1 {
                assert(entries_json(es) == p0);
            } else {
                assert(entries_json(es) == p0 + (","@ + entries_json(es.drop_first())));
            }
            assert(p0.len() > 0);
        }
        assert(r[0] != '}');
    }
}

/// Appends the rendering of the bytes of `v` from index `i` on, commas
/// between them.
fn append_bytes_body(out: &mut String, v: &Vec<u8>, i: usize)
    requires
        i < v@.len(),
    ensures
        final(out)@ == old(out)@ + bytes_body(v@.skip(i as int)),
    decreases v@.len() - i,
{
    let d = u64_to_dec(v[i] as u64);
    out.append(d.as_str());
    proof {
        assert(v@.skip(i as int)[0] == v@[i as int]);
    }
    if i < v.len() - 1 {
        out.append(",");
        let ghost mid = out@;
        append_bytes_body(out, v, i + 1);
        proof {
            reveal_strlit(",");
            assert(","@ =~= seq![',']);
            assert(v@.skip(i as int).drop_first() =~= v@.skip(i as int + 1));
            assert(out@ =~= old(out)@ + bytes_body(v@.skip(i as int)));
        }
    } else {
        proof {
            assert(v@.skip(i as int).len() == 1);
            assert(out@ =~= old(out)@ + bytes_body(v@.skip(i as int)));
        }
    }
}

/// Appends the rendering of a byte vector, per `json_bytes`.
pub fn append_bytes(out: &mut String, v: &Vec<u8>)
    ensures
        final(out)@ == old(out)@ + json_bytes(v@),
{
    out.append("[");
    if v.len() > 0 {
        append_bytes_body(out, v, 0);
        proof {
            assert(v@.skip(0) =~= v@);
        }
    }
    out.append("]");
    proof {
        reveal_strlit("[");
        reveal_strlit("]");
        assert(out@ =~= old(out)@ + json_bytes(v@));
    }
}

/// Appends one entry's object, per `entry_json`.
fn append_entry(out: &mut String, e: &CacheItem)
    ensures
        final(out)@ == old(out)@ + entry_json(e@),
{
    out.append("{\"key\":");
    append_json_string(out, e.key.as_str());
    out.append(",\"hashed_key\":");
    let d = u64_to_dec(e.hashed_key);
    out.append(d.as_str());
    out.append(",\"value\":");
    append_bytes(out, &e.value);
    out.append(",\"deleted\":");
    append_bool(out, e.deleted);
    out.append("}");
    proof {
        assert(out@ =~= old(out)@ + entry_json(e@));
    }
}

/// Appends one `key: object` pair, per `pair_json`.
fn append_pair(out: &mut String, e: &CacheItem)
    ensures
        final(out)@ == old(out)@ + pair_json(e@),
{
    append_json_string(out, e.key.as_str());
    out.append(":");
    append_entry(out, e);
    proof {
        assert(out@ =~= old(out)@ + pair_json(e@));
    }
}

/// Appends the pairs for the entries of `v` from index `i` on.
fn append_entries(out: &mut String, v: &Vec<CacheItem>, i: usize)
    requires
        i < v@.len(),
    ensures
        final(out)@ == old(out)@ + entries_json(models(v@).skip(i as int)),
    decreases v@.len() - i,
{
    proof {
        assert(models(v@).skip(i as int)[0] == v@[i as int]@);
    }
    append_pair(out, &v[i]);
    if i < v.len() - 1 {
        out.append(",");
        let ghost mid = out@;
        append_entries(out, v, i + 1);
        proof {
            assert(models(v@).skip(i as int).drop_first() =~= models(v@).skip(i as int + 1));
            assert(out@ =~= old(out)@ + entries_json(models(v@).skip(i as int)));
        }
    } else {
        proof {
            assert(models(v@).skip(i as int).len() == 1);
            assert(out@ =~= old(out)@ + entries_json(models(v@).skip(i as int)));
        }
    }
}

/// Reads a byte: a decimal no larger than 255, per `sp_byte`.
fn parse_byte(s: &str, i: usize) -> (r: Option<(u8, usize)>)
    requires
        i <= s@.len(),
    ensures
        match r {
            Some(p) => i < p.1 <= s@.len() && sp_u64(s@.skip(i as int)) == Some(
                (p.0 as u64, s@.skip(p.1 as int)),
            ),
            None => sp_u64(s@.skip(i as int)) is None || (sp_u64(s@.skip(i as int)) matches Some(q)
                && q.0 > 255),
        },
{
    match parse_u64(s, i) {
        Some(p) => if p.0 <= 255 {
            Some((p.0 as u8, p.1))
        } else {
            None
        },
        None => None,
    }
}

/// Reads the elements of a non-empty byte array, per `sp_bytes_elems`.
fn parse_bytes_elems(s: &str, i: usize) -> (r: Option<(Vec<u8>, usize)>)
    requires
        i <= s@.len(),
    ensures
        match r {
            Some(p) => i < p.1 <= s@.len() && sp_bytes_elems(s@.skip(i as int)) == Some(
                (p.0@, s@.skip(p.1 as int)),
            ),
            None => sp_bytes_elems(s@.skip(i as int)) is None,
        },
    decreases s@.len() - i,
{
    let n = s.unicode_len();
    match parse_byte(s, i) {
        None => None,
        Some((b, j)) => {
            let ghost t0 = s@.skip(i as int);
            let ghost k = crate::json::digits_prefix_len(t0);
            proof {
                assert(s@.skip(j as int).len() > 0 ==> s@.skip(j as int)[0] == s@[j as int]);
                crate::json::lemma_digits_prefix_len_bounds(t0);
                assert(t0.skip(k) == s@.skip(j as int));
            }
            if j < n && s.get_char(j) == ',' {
                proof {
                    assert(t0.skip(k).len() > 0);
                    assert(k < t0.len());
                    assert(t0.skip(k + 1) =~= t0.skip(k).drop_first());
                    assert(s@.skip(j as int).drop_first() =~= s@.skip(j as int + 1));
                    assert(t0.skip(k + 1) == s@.skip(j as int + 1));
                }
                match parse_bytes_elems(s, j + 1) {
                    None => None,
                    Some((mut v, j2)) => {
                        v.insert(0, b);
                        proof {
                            assert(v@ =~= seq![b] + v@.drop_first());
                        }
                        Some((v, j2))
                    },
                }
            } else if j < n && s.get_char(j) == ']' {
                let mut v: Vec<u8> = Vec::new();
                v.push(b);
                proof {
                    assert(v@ =~= seq![b]);
                    assert(s@.skip(j as int).drop_first() =~= s@.skip(j as int + 1));
                }
                Some((v, j + 1))
            } else {
                None
            }
        },
    }
}

/// Reads a byte array, per `sp_bytes`.
fn parse_bytes(s: &str, i: usize) -> (r: Option<(Vec<u8>, usize)>)
    requires
        i <= s@.len(),
    ensures
        match r {
            Some(p) => i < p.1 <= s@.len() && sp_bytes(s@.skip(i as int)) == Some(
                (p.0@, s@.skip(p.1 as int)),
            ),
            None => sp_bytes(s@.skip(i as int)) is None,
        },
{
    let n = s.unicode_len();
    if i >= n || s.get_char(i) != '[' {
        proof {
            if i < n {
                assert(s@.skip(i as int)[0] == s@[i as int]);
            }
        }
        return None;
    }
    proof {
        assert(s@.skip(i as int)[0] == s@[i as int]);
        assert(s@.skip(i as int).drop_first() =~= s@.skip(i as int + 1));
    }
    if i + 1 < n && s.get_char(i + 1) == ']' {
        proof {
            assert(s@.skip(i as int + 1)[0] == s@[i as int + 1]);
            assert(s@.skip(i as int + 1).drop_first() =~= s@.skip(i as int + 2));
        }
        let v: Vec<u8> = Vec::new();
        proof {
            assert(v@ =~= Seq::<u8>::empty());
        }
        return Some((v, i + 2));
    }
    proof {
        if i + 1 < n {
            assert(s@.skip(i as int + 1)[0] == s@[i as int + 1]);
        }
    }
    parse_bytes_elems(s, i + 1)
}

/// Reads one entry object, per `sp_entry`.
fn parse_entry(s: &str, i: usize) -> (r: Option<(CacheItem, usize)>)
    requires
        i <= s@.len(),
    ensures
        match r {
            Some(p) => i <= p.1 <= s@.len() && sp_entry(s@.skip(i as int)) == Some(
                (p.0@, s@.skip(p.1 as int)),
            ),
            None => sp_entry(s@.skip(i as int)) is None,
        },
{
    let j1 = match parse_lit(s, i, "{\"key\":") {
        None => {
            return None;
        },
        Some(j) => j,
    };
    let (key, j2) = match parse_string(s, j1) {
        None => {
            return None;
        },
        Some(p) => p,
    };
    let j3 = match parse_lit(s, j2, ",\"hashed_key\":") {
        None => {
            return None;
        },
        Some(j) => j,
    };
    let (hashed_key, j4) = match parse_u64(s, j3) {
        None => {
            return None;
        },
        Some(p) => p,
    };
    let j5 = match parse_lit(s, j4, ",\"value\":") {
        None => {
            return None;
        },
        Some(j) => j,
    };
    let (value, j6) = match parse_bytes(s, j5) {
        None => {
            return None;
        },
        Some(p) => p,
    };
    let j7 = match parse_lit(s, j6, ",\"deleted\":") {
        None => {
            return None;
        },
        Some(j) => j,
    };
    let (deleted, j8) = match parse_bool(s, j7) {
        None => {
            return None;
        },
        Some(p) => p,
    };
    let j9 = match parse_lit(s, j8, "}") {
        None => {
            return None;
        },
        Some(j) => j,
    };
    let item = CacheItem { key, hashed_key, value, deleted };
    Some((item, j9))
}

/// Reads one `key: object` pair, per `sp_pair`, validating that the outer
/// key repeats the entry's key and that the fingerprint is the hash of the
/// key.
fn parse_pair(s: &str, i: usize) -> (r: Option<(CacheItem, usize)>)
    requires
        i <= s@.len(),
    ensures
        match r {
            Some(p) => i < p.1 <= s@.len() && sp_pair(s@.skip(i as int)) == Some(
                (p.0@, s@.skip(p.1 as int)),
            ),
            None => sp_pair(s@.skip(i as int)) is None,
        },
{
    let (outer, j1) = match parse_string(s, i) {
        None => {
            return None;
        },
        Some(p) => p,
    };
    let j2 = match parse_lit(s, j1, ":") {
        None => {
            return None;
        },
        Some(j) => j,
    };
    let (item, j3) = match parse_entry(s, j2) {
        None => {
            return None;
        },
        Some(p) => p,
    };
    if !(item.key == outer) {
        return None;
    }
    let expected = key_hasher(&item.key);
    if item.hashed_key != expected {
        return None;
    }
    Some((item, j3))
}

/// Reads the pairs of a non-empty snapshot, per `sp_entries`.
fn parse_entries(s: &str, i: usize) -> (r: Option<(Vec<CacheItem>, usize)>)
    requires
        i <= s@.len(),
    ensures
        match r {
            Some(p) => i < p.1 <= s@.len() && (sp_entries(s@.skip(i as int)) matches Some(q)
                && models(p.0@) == q.0 && q.1 == s@.skip(p.1 as int)),
            None => sp_entries(s@.skip(i as int)) is None,
        },
    decreases s@.len() - i,
{
    let n = s.unicode_len();
    match parse_pair(s, i) {
        None => None,
        Some((item, j)) => {
            proof {
                assert(s@.skip(j as int).len() > 0 ==> s@.skip(j as int)[0] == s@[j as int]);
            }
            if j < n && s.get_char(j) == ',' {
                proof {
                    assert(s@.skip(j as int).drop_first() =~= s@.skip(j as int + 1));
                }
                match parse_entries(s, j + 1) {
                    None => None,
                    Some((mut v, j2)) => {
                        v.insert(0, item);
                        proof {
                            assert(models(v@) =~= seq![v@[0]@] + models(v@.drop_first()));
                        }
                        Some((v, j2))
                    },
                }
            } else if j < n && s.get_char(j) == '}' {
                let mut v: Vec<CacheItem> = Vec::new();
                v.push(item);
                proof {
                    assert(models(v@) =~= seq![v@[0]@]);
                    assert(s@.skip(j as int).drop_first() =~= s@.skip(j as int + 1));
                }
                Some((v, j + 1))
            } else {
                None
            }
        },
    }
}

/// No two parsed entries share a key.
fn keys_unique(v: &Vec<CacheItem>) -> (r: bool)
    ensures
        r == unique_model_keys(models(v@)),
{
    let n = v.len();
    let mut i: usize = 0;
    while i < n
        invariant
            n == v@.len(),
            i <= n,
            forall|a: int, b: int|
                0 <= a < b < n && a < i ==> models(v@)[a].key != models(v@)[b].key,
        decreases n - i,
    {
        let mut j: usize = i + 1;
        while j < n
            invariant
                i < n,
                n == v@.len(),
                i + 1 <= j <= n,
                forall|b: int| i < b < j ==> models(v@)[i as int].key != models(v@)[b].key,
            decreases n - j,
        {
            if v[i].key == v[j].key {
                proof {
                    assert(models(v@)[i as int].key == models(v@)[j as int].key);
                    assert(!unique_model_keys(models(v@)));
                }
                return false;
            }
            proof {
                assert(models(v@)[i as int].key == v@[i as int].key@);
                assert(models(v@)[j as int].key == v@[j as int].key@);
            }
            j = j + 1;
        }
        i = i + 1;
    }
    true
}

/// Reads a whole snapshot, per `sp_snapshot`.
fn parse_snapshot(s: &str) -> (r: Option<Vec<CacheItem>>)
    ensures
        match r {
            Some(v) => {
                &&& sp_snapshot(s@) == Some(models(v@))
                &&& unique_model_keys(models(v@))
                &&& forall|i: int| 0 <= i < v@.len() ==> entry_wf(#[trigger] models(v@)[i])
            },
            None => sp_snapshot(s@) is None,
        },
{
    let n = s.unicode_len();
    proof {
        assert(s@.skip(0) =~= s@);
    }
    let j = match parse_lit(s, 0, "{") {
        None => {
            return None;
        },
        Some(j) => j,
    };
    proof {
        assert(s@.skip(j as int).len() > 0 ==> s@.skip(j as int)[0] == s@[j as int]);
    }
    if j < n && s.get_char(j) == '}' {
        if j + 1 == n {
            let v: Vec<CacheItem> = Vec::new();
            proof {
                assert(models(v@) =~= Seq::<EntryModel>::empty());
            }
            return Some(v);
        }
        return None;
    }
    match parse_entries(s, j) {
        None => None,
        Some((v, j2)) => {
            if j2 == n {
                if keys_unique(&v) {
                    proof {
                        lemma_sp_entries_entry_wf(s@.skip(j as int));
                        assert(s@.skip(j2 as int).len() == 0);
                    }
                    Some(v)
                } else {
                    None
                }
            } else {
                None
            }
        },
    }
}

impl Partition {
    /// Renders this shard's full entry map as its snapshot text.  Writing it
    /// to the shard's path is the caller's part; a write failure is reported
    /// there and crashes nothing.
    pub fn persist(&self) -> (r: String)
        ensures
            r@ == snapshot_json(models(self.entries@)),
    {
        let mut out = String::new();
        out.append("{");
        if self.entries.len() > 0 {
            append_entries(&mut out, &self.entries, 0);
            proof {
                assert(models(self.entries@).skip(0) =~= models(self.entries@));
            }
        }
        out.append("}");
        proof {
            assert(out@ =~= snapshot_json(models(self.entries@)));
        }
        out
    }

    /// Restores this shard from snapshot text, replacing its entries.  Any
    /// malformed text — including a fingerprint that is not the hash of its
    /// key, or a repeated key — is rejected whole as corrupt, and the shard
    /// is left as it was; the caller decides whether to abort.  Absence of a
    /// snapshot file is not an error: the caller simply does not call this.
    pub fn load_data(&mut self, text: &str) -> (r: Result<(), SnapshotError>)
        ensures
            final(self).partition_number == old(self).partition_number,
            final(self).partition_path == old(self).partition_path,
            match sp_snapshot(text@) {
                Some(es) => {
                    &&& r is Ok
                    &&& final(self).wf()
                    &&& models(final(self).entries@) == es
                    &&& final(self).persisted
                },
                None => {
                    &&& r matches Err(e) && e == SnapshotError::Corrupt
                    &&& *final(self) == *old(self)
                },
            },
    {
        match parse_snapshot(text) {
            Some(v) => {
                proof {
                    assert forall|a: int, b: int|
                        0 <= a < b < v@.len() implies v@[a]@.key != v@[b]@.key by {
                        assert(models(v@)[a].key == v@[a]@.key);
                        assert(models(v@)[b].key == v@[b]@.key);
                    }
                    assert(unique_keys(v@));
                    assert forall|i: int| 0 <= i < v@.len() implies entry_wf(v@[i]@) by {
                        assert(models(v@)[i] == v@[i]@);
                    }
                }
                self.entries = v;
                self.persisted = true;
                Ok(())
            },
            None => Err(SnapshotError::Corrupt),
        }
    }
}

/// Two sequences of records with the same entries represent the same map.
pub proof fn lemma_map_of_models(a: Seq<CacheItem>, b: Seq<CacheItem>)
    requires
        models(a) == models(b),
    ensures
        crate::partition::map_of(a) == crate::partition::map_of(b),
    decreases a.len(),
{
    assert(a.len() == models(a).len() && b.len() == models(b).len());
    if a.len() == 0 {
        assert(crate::partition::map_of(a) =~= crate::partition::map_of(b));
    } else {
        let a0 = a.drop_last();
        let b0 = b.drop_last();
        assert forall|i: int| 0 <= i < a0.len() implies #[trigger] models(a0)[i] == models(
            b0,
        )[i] by {
            assert(models(a0)[i] == a0[i]@);
            assert(a0[i] == a[i]);
            assert(models(a)[i] == a[i]@);
            assert(models(b0)[i] == b0[i]@);
            assert(b0[i] == b[i]);
            assert(models(b)[i] == b[i]@);
            assert(models(a)[i] == models(b)[i]);
        }
        assert(models(a0) =~= models(b0));
        lemma_map_of_models(a0, b0);
        assert(a.last()@ == models(a)[a.len() - 1]);
        assert(b.last()@ == models(b)[b.len() - 1]);
        assert(a.last()@ == b.last()@);
    }
}

/// Round trip at the shard level: parsing a well-formed shard's rendered
/// snapshot restores exactly its entries, with identical key, fingerprint,
/// value, and tombstone flag.
pub proof fn lemma_partition_roundtrip(p: Partition)
    requires
        p.wf(),
    ensures
        sp_snapshot(snapshot_json(models(p.entries@))) == Some(models(p.entries@)),
{
    let ms = models(p.entries@);
    assert forall|a: int, b: int| 0 <= a < b < ms.len() implies ms[a].key != ms[b].key by {
        assert(ms[a].key == p.entries@[a]@.key);
        assert(ms[b].key == p.entries@[b]@.key);
    }
    assert forall|i: int| 0 <= i < ms.len() implies entry_wf(ms[i]) by {
        assert(ms[i] == p.entries@[i]@);
    }
    lemma_snapshot_roundtrip(ms);
}

} // verus!
