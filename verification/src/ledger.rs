//! The ledger read back as a narrative, and its final accounting.
//!
//! Every event renders as one line; the store roots the ledger last
//! recorded must equal the live roots, and each store whose live root the
//! ledger cannot account for is reported as unexplained.

use vstd::prelude::*;
use crate::json::{str_eq, str_lt, chars_lt, chars_of, string_of, strings_of, string_views, Json, JsonV, elems_view,
    lemma_elems_view_len, lemma_chars_lt_total, lemma_chars_lt_irrefl, fields_view, lemma_fields_view_len};
use crate::json_text::{int_text, json_text, to_json_text, push_int};
use crate::capability::cat;
use crate::trace::{EventRow, EventV, opt_chars};
use crate::authority::{has_prefix, starts_with, join_comma};
use crate::promote::Tree;
use crate::snapshot::{StoreSpec, StoreKind};

verus! {

/// A store whose live root moved outside the ledger.
#[derive(Debug)]
pub struct DriftReport {
    pub store: String,
    pub expected_root: String,
    pub observed_root: String,
    pub between: (i64, i64),
    pub attribution: String,
    pub event_id: String,
}

/// What a step boundary produced: the new manifest and span, the drift
/// attributed first, and whether it re-manifested from a parent.
#[derive(Debug)]
pub struct StepOutcome {
    pub manifest: String,
    pub span: String,
    pub drift: Vec<DriftReport>,
    pub remanifest: bool,
}

/// The enforcement mode a manifest declares. `Observed` omits `authority`
/// (the conservative default); `Brokered` seals
/// `authority: {"mode":"brokered"}`, which promotion enforces fail-closed.
#[derive(Debug, Clone, Copy, PartialEq, Eq, Structural)]
pub enum AuthorityMode {
    Observed,
    Brokered,
}

/// One ledger event, rendered.
#[derive(Debug)]
pub struct LedgerLine {
    pub offset: i64,
    pub at: String,
    pub span: String,
    pub kind: String,
    pub line: String,
}

/// The ledger's narrative and its final accounting.
#[derive(Debug)]
pub struct Explanation {
    pub lines: Vec<LedgerLine>,
    /// Store roots whose live value the ledger cannot account for.
    /// Non-empty means the substrate failed its own thesis.
    pub unexplained: Vec<String>,
}

// ---------------------------------------------------------------------
// Rendering pieces
// ---------------------------------------------------------------------

/// `s`, or `?` when absent.
pub open spec fn qm(o: Option<Seq<char>>) -> Seq<char> {
    match o {
        Some(s) => s,
        None => "?"@,
    }
}

/// A root hash shortened for display: without its `sha256:` prefix, at
/// most twelve characters.
pub open spec fn short_of(h: Seq<char>) -> Seq<char> {
    let t = if has_prefix(h, "sha256:"@) {
        h.skip(7)
    } else {
        h
    };
    if t.len() <= 12 {
        t
    } else {
        t.take(12)
    }
}

/// Shorten a root hash for display.
pub fn short(hash: &str) -> (r: String)
    ensures
        r@ == short_of(hash@),
{
    let cs = chars_of(hash);
    let start: usize = if starts_with(hash, "sha256:") {
        proof { reveal_strlit("sha256:"); }
        7
    } else {
        0
    };
    let mut out: Vec<char> = Vec::new();
    let mut i: usize = start;
    while i < cs.len() && i - start < 12
        invariant
            start <= i <= cs.len(),
            start <= cs.len(),
            i - start <= 12,
            cs@ == hash@,
            out@ == cs@.subrange(start as int, i as int),
        decreases cs.len() - i,
    {
        out.push(cs[i]);
        i += 1;
        assert(out@ =~= cs@.subrange(start as int, i as int));
    }
    let ghost t = cs@.skip(start as int);
    assert(start == 7 ==> t =~= hash@.skip(7));
    assert(start == 0 ==> t =~= hash@);
    proof {
        if t.len() <= 12 {
            assert(out@ =~= t);
        } else {
            assert(out@ =~= t.take(12));
        }
    }
    string_of(&out)
}

/// The element at `i` of an array (`Null` otherwise), as JSON indexing.
pub open spec fn idx(v: JsonV, i: int) -> JsonV {
    match v {
        JsonV::Array(a) => if 0 <= i < a.len() {
            a[i]
        } else {
            JsonV::Null
        },
        _ => JsonV::Null,
    }
}

/// The array at `key`, or nothing.
pub open spec fn list_at(v: JsonV, key: Seq<char>) -> Seq<JsonV> {
    match v.at(key).as_array() {
        Some(a) => a,
        None => Seq::empty(),
    }
}

/// `store=short(root)` for each entry.
pub open spec fn root_parts(entries: Seq<JsonV>, store_key: Seq<char>, root_key: Seq<char>) -> Seq<Seq<char>>
    decreases entries.len(),
{
    if entries.len() == 0 {
        Seq::empty()
    } else {
        let e = entries.last();
        root_parts(entries.drop_last(), store_key, root_key).push(qm(e.str_at(store_key)) + "="@ + short_of(qm(e.str_at(root_key))))
    }
}

/// The name of an operation in a summary.
pub open spec fn op_name(o: JsonV) -> Seq<char> {
    qm(o.str_at("op"@))
}

/// How many operations carry `name`.
pub open spec fn op_count(ops: Seq<JsonV>, name: Seq<char>) -> nat
    decreases ops.len(),
{
    if ops.len() == 0 {
        0
    } else {
        op_count(ops.drop_last(), name) + if op_name(ops.last()) == name {
            1nat
        } else {
            0nat
        }
    }
}

/// Insert `x` into a strictly increasing sequence of names, once.
pub open spec fn insert_name(sorted: Seq<Seq<char>>, x: Seq<char>) -> Seq<Seq<char>>
    decreases sorted.len(),
{
    if sorted.len() == 0 {
        seq![x]
    } else if sorted[0] == x {
        sorted
    } else if chars_lt(sorted[0], x) {
        seq![sorted[0]] + insert_name(sorted.drop_first(), x)
    } else {
        seq![x] + sorted
    }
}

/// The distinct operation names, in increasing order.
pub open spec fn op_names(ops: Seq<JsonV>) -> Seq<Seq<char>>
    decreases ops.len(),
{
    if ops.len() == 0 {
        Seq::empty()
    } else {
        insert_name(op_names(ops.drop_last()), op_name(ops.last()))
    }
}

/// `count name` for each name.
pub open spec fn count_parts(names: Seq<Seq<char>>, ops: Seq<JsonV>) -> Seq<Seq<char>>
    decreases names.len(),
{
    if names.len() == 0 {
        Seq::empty()
    } else {
        count_parts(names.drop_last(), ops).push(int_text(op_count(ops, names.last()) as int) + " "@ + names.last())
    }
}

/// What an operation touched: its path, or `from→to` for a move.
pub open spec fn op_path(o: JsonV) -> Seq<char> {
    match o.str_at("path"@) {
        Some(p) => p,
        None => qm(o.str_at("from"@)) + "→"@ + qm(o.str_at("to"@)),
    }
}

pub open spec fn op_paths(ops: Seq<JsonV>) -> Seq<Seq<char>>
    decreases ops.len(),
{
    if ops.len() == 0 {
        Seq::empty()
    } else {
        op_paths(ops.drop_last()).push(op_path(ops.last()))
    }
}

/// A drift's operation summary: counts per operation name (names in
/// increasing order), the first three paths, an ellipsis beyond; empty
/// when there are no operations.
pub open spec fn ops_summary(ops: JsonV) -> Seq<char> {
    match ops.as_array() {
        Some(l) => if l.len() == 0 {
            Seq::empty()
        } else {
            join_comma(count_parts(op_names(l), l)) + " ("@ + join_comma(op_paths(l.take(if l.len() < 3 {
                l.len() as int
            } else {
                3
            }))) + (if l.len() > 3 {
                ", …"@
            } else {
                ""@
            }) + ") · "@
        },
        None => Seq::empty(),
    }
}

fn q_at(v: &Json, key: &str) -> (r: String)
    ensures
        r@ == qm(v@.str_at(key@)),
{
    match v.str_at(key) {
        Some(s) => s.to_owned(),
        None => "?".to_owned(),
    }
}

fn text_at(v: &Json, key: &str) -> (r: String)
    ensures
        r@ == json_text(v@.at(key@)),
{
    match v.get(key) {
        Some(x) => to_json_text(x),
        None => to_json_text(&Json::Null),
    }
}

fn index_of<'a>(v: &'a Json, i: usize, null: &'a Json) -> (r: &'a Json)
    requires
        null@ == JsonV::Null,
    ensures
        r@ == idx(v@, i as int),
{
    match v {
        Json::Array(a) => {
            proof { lemma_elems_view_len(a@); }
            if i < a.len() {
                &a[i]
            } else {
                null
            }
        },
        _ => null,
    }
}

fn at_or_null<'a>(v: &'a Json, key: &str, null: &'a Json) -> (r: &'a Json)
    requires
        null@ == JsonV::Null,
    ensures
        r@ == v@.at(key@),
{
    match v.get(key) {
        Some(x) => x,
        None => null,
    }
}

fn join_vec(v: &Vec<String>) -> (r: String)
    ensures
        r@ == join_comma(string_views(v@)),
{
    let ghost sv = string_views(v@);
    let mut out = String::new();
    let mut i: usize = 0;
    assert(sv.subrange(0, 0) =~= Seq::<Seq<char>>::empty());
    while i < v.len()
        invariant
            i <= v.len(),
            sv == string_views(v@),
            out@ == join_comma(sv.subrange(0, i as int)),
        decreases v.len() - i,
    {
        proof { assert(sv.subrange(0, i + 1).drop_last() =~= sv.subrange(0, i as int)); }
        if i == 0 {
            out = v[0].clone();
        } else {
            out = cat(&cat(&out, ", "), &v[i]);
        }
        i += 1;
    }
    assert(sv.subrange(0, v.len() as int) =~= sv);
    out
}

fn uint_string(n: usize) -> (r: String)
    ensures
        r@ == int_text(n as int),
{
    let mut v: Vec<char> = Vec::new();
    push_int(&mut v, n as i128);
    assert(v@ =~= int_text(n as int));
    string_of(&v)
}

fn root_parts_of(entries: &Vec<Json>, store_key: &str, root_key: &str) -> (r: Vec<String>)
    ensures
        string_views(r@) == root_parts(elems_view(entries@), store_key@, root_key@),
{
    let ghost ev = elems_view(entries@);
    proof { lemma_elems_view_len(entries@); }
    let mut out: Vec<String> = Vec::new();
    let mut i: usize = 0;
    assert(string_views(out@) =~= root_parts(ev.subrange(0, 0), store_key@, root_key@));
    while i < entries.len()
        invariant
            i <= entries.len(),
            ev == elems_view(entries@),
            ev.len() == entries.len(),
            string_views(out@) == root_parts(ev.subrange(0, i as int), store_key@, root_key@),
        decreases entries.len() - i,
    {
        proof {
            assert(ev.subrange(0, i + 1).drop_last() =~= ev.subrange(0, i as int));
            assert(ev.subrange(0, i + 1).last() == entries@[i as int]@);
        }
        let e = &entries[i];
        let part = cat(&cat(&q_at(e, store_key), "="), &short(&q_at(e, root_key)));
        let ghost before = string_views(out@);
        out.push(part);
        assert(string_views(out@) =~= before.push(part@));
        i += 1;
    }
    assert(ev.subrange(0, entries.len() as int) =~= ev);
    out
}

fn op_name_of(o: &Json) -> (r: String)
    ensures
        r@ == op_name(o@),
{
    q_at(o, "op")
}

/// Insert `x` into a strictly increasing vector of names, once.
fn insert_name_into(names: &mut Vec<String>, x: String)
    ensures
        string_views(final(names)@) == insert_name(string_views(old(names)@), x@),
{
    let ghost s0 = string_views(names@);
    let mut pos: usize = 0;
    assert(s0.skip(0) =~= s0);
    while pos < names.len() && str_lt(&names[pos], &x)
        invariant
            pos <= names.len(),
            s0 == string_views(names@),
            insert_name(s0, x@) == s0.subrange(0, pos as int) + insert_name(s0.skip(pos as int), x@),
        decreases names.len() - pos,
    {
        proof {
            let t = s0.skip(pos as int);
            assert(t[0] == names@[pos as int]@);
            assert(t[0] != x@) by {
                if t[0] == x@ {
                    lemma_chars_lt_irrefl(x@);
                }
            }
            assert(t.drop_first() =~= s0.skip(pos + 1));
            assert(s0.subrange(0, pos as int) + (seq![t[0]] + insert_name(t.drop_first(), x@))
                =~= s0.subrange(0, pos + 1) + insert_name(s0.skip(pos + 1), x@));
        }
        pos += 1;
    }
    if pos < names.len() && str_eq(&names[pos], &x) {
        proof {
            let t = s0.skip(pos as int);
            assert(t[0] == x@);
            assert(s0.subrange(0, pos as int) + t =~= s0);
        }
        return;
    }
    proof {
        let t = s0.skip(pos as int);
        if pos < names.len() {
            assert(t[0] == names@[pos as int]@);
            lemma_chars_lt_total(t[0], x@);
            assert(insert_name(t, x@) == seq![x@] + t);
        } else {
            assert(t.len() == 0);
        }
    }
    names.insert(pos, x);
    proof {
        let t = s0.skip(pos as int);
        assert(string_views(names@) =~= s0.subrange(0, pos as int) + (seq![string_views(names@)[pos as int]] + t));
    }
}

fn count_name(ops: &Vec<Json>, name: &str) -> (r: usize)
    ensures
        r == op_count(elems_view(ops@), name@),
{
    let ghost ev = elems_view(ops@);
    proof { lemma_elems_view_len(ops@); }
    let mut n: usize = 0;
    let mut i: usize = 0;
    assert(ev.subrange(0, 0) =~= Seq::<JsonV>::empty());
    while i < ops.len()
        invariant
            i <= ops.len(),
            ev == elems_view(ops@),
            ev.len() == ops.len(),
            n == op_count(ev.subrange(0, i as int), name@),
            n <= i,
        decreases ops.len() - i,
    {
        proof {
            assert(ev.subrange(0, i + 1).drop_last() =~= ev.subrange(0, i as int));
            assert(ev.subrange(0, i + 1).last() == ops@[i as int]@);
        }
        if str_eq(&op_name_of(&ops[i]), name) {
            n += 1;
        }
        i += 1;
    }
    assert(ev.subrange(0, ops.len() as int) =~= ev);
    n
}

/// Render a drift body's operation summary; empty when the drift carries
/// no operations.
pub fn summarize_ops(ops: &Json) -> (r: String)
    ensures
        r@ == ops_summary(ops@),
{
    let list = match ops.as_array() {
        Some(l) => l,
        None => return String::new(),
    };
    let ghost lv = elems_view(list@);
    proof { lemma_elems_view_len(list@); }
    if list.len() == 0 {
        return String::new();
    }
    let mut names: Vec<String> = Vec::new();
    let mut i: usize = 0;
    assert(string_views(names@) =~= op_names(lv.subrange(0, 0)));
    while i < list.len()
        invariant
            i <= list.len(),
            lv == elems_view(list@),
            lv.len() == list.len(),
            string_views(names@) == op_names(lv.subrange(0, i as int)),
        decreases list.len() - i,
    {
        proof {
            assert(lv.subrange(0, i + 1).drop_last() =~= lv.subrange(0, i as int));
            assert(lv.subrange(0, i + 1).last() == list@[i as int]@);
        }
        insert_name_into(&mut names, op_name_of(&list[i]));
        i += 1;
    }
    assert(lv.subrange(0, list.len() as int) =~= lv);
    let ghost nv = string_views(names@);
    let mut parts: Vec<String> = Vec::new();
    let mut k: usize = 0;
    assert(string_views(parts@) =~= count_parts(nv.subrange(0, 0), lv));
    while k < names.len()
        invariant
            k <= names.len(),
            nv == string_views(names@),
            lv == elems_view(list@),
            string_views(parts@) == count_parts(nv.subrange(0, k as int), lv),
        decreases names.len() - k,
    {
        proof {
            assert(nv.subrange(0, k + 1).drop_last() =~= nv.subrange(0, k as int));
            assert(nv.subrange(0, k + 1).last() == names@[k as int]@);
        }
        let c = count_name(list, &names[k]);
        let part = cat(&cat(&uint_string(c), " "), &names[k]);
        let ghost before = string_views(parts@);
        parts.push(part);
        assert(string_views(parts@) =~= before.push(part@));
        k += 1;
    }
    assert(nv.subrange(0, names.len() as int) =~= nv);
    let limit: usize = if list.len() < 3 { list.len() } else { 3 };
    let mut paths: Vec<String> = Vec::new();
    let mut j: usize = 0;
    let ghost lt = lv.take(limit as int);
    assert(string_views(paths@) =~= op_paths(lt.subrange(0, 0)));
    while j < limit
        invariant
            j <= limit,
            limit <= list.len(),
            lv == elems_view(list@),
            lt == lv.take(limit as int),
            string_views(paths@) == op_paths(lt.subrange(0, j as int)),
        decreases limit - j,
    {
        proof {
            assert(lt.subrange(0, j + 1).drop_last() =~= lt.subrange(0, j as int));
            assert(lt.subrange(0, j + 1).last() == list@[j as int]@);
        }
        let o = &list[j];
        let p = match o.str_at("path") {
            Some(p) => p.to_owned(),
            None => cat(&cat(&q_at(o, "from"), "→"), &q_at(o, "to")),
        };
        let ghost before = string_views(paths@);
        paths.push(p);
        assert(string_views(paths@) =~= before.push(p@));
        j += 1;
    }
    assert(lt.subrange(0, limit as int) =~= lt);
    let ell = if list.len() > 3 { ", …" } else { "" };
    cat(&cat(&cat(&cat(&join_vec(&parts), " ("), &join_vec(&paths)), ell), ") · ")
}

// ---------------------------------------------------------------------
// One line per event
// ---------------------------------------------------------------------

/// The ` (attenuated from p)` of a grant with a parent.
pub open spec fn grant_suffix(b: JsonV) -> Seq<char> {
    match b.str_at("parent"@) {
        Some(p) => " (attenuated from "@ + p + ")"@,
        None => ""@,
    }
}

/// Who revoked: a channel with its strength, or the broker.
pub open spec fn revoke_suffix(b: JsonV) -> Seq<char> {
    match b.str_at("channel"@) {
        Some(c) => " via "@ + c + " ("@ + qm(b.str_at("auth_strength"@)) + ")"@,
        None => " by broker (mechanical)"@,
    }
}

/// Why a call was denied: the structural reason, or the failed keys.
pub open spec fn verdict_reason(b: JsonV) -> Seq<char> {
    match b.str_at("structural"@) {
        Some(s) => s,
        None => match b.at("failed"@).as_array() {
            Some(f) => join_comma(strings_of(f)),
            None => ""@,
        },
    }
}

/// The length of the array at `key`, 0 when absent.
pub open spec fn count_at(b: JsonV, key: Seq<char>) -> int {
    match b.at(key).as_array() {
        Some(a) => a.len() as int,
        None => 0,
    }
}

/// The narrative line of one event.
pub open spec fn event_line(e: EventV) -> Seq<char> {
    let b = e.raw.at("body"@);
    let k = e.kind;
    if k == "register"@ {
        "registered "@ + qm(b.str_at("object_kind"@)) + " "@ + qm(b.str_at("object"@))
    } else if k == "intent"@ {
        "intent "@ + qm(b.str_at("intent"@)) + " captured via "@ + qm(b.str_at("channel"@)) + " ("@
            + qm(b.str_at("auth_strength"@)) + ") before offset "@ + json_text(b.at("captured_before"@))
    } else if k == "snapshot"@ {
        "manifest "@ + qm(e.manifest) + " snapshotted ["@ + join_comma(root_parts(list_at(b, "roots"@), "store"@, "root"@)) + "]"@
    } else if k == "remanifest"@ {
        "re-manifest from parent "@ + qm(b.str_at("parent"@)) + " (behavior_changed="@ + json_text(b.at("behavior_changed"@)) + ")"@
    } else if k == "tool_call"@ {
        "tool_call "@ + qm(b.str_at("tool"@)) + "."@ + qm(b.str_at("action"@)) + " ("@ + qm(b.str_at("reversibility"@)) + ")"@
    } else if k == "drift"@ {
        "DRIFT in "@ + qm(b.str_at("store"@)) + ": "@ + ops_summary(b.at("ops"@)) + short_of(qm(b.str_at("expected_root"@)))
            + " -> "@ + short_of(qm(b.str_at("observed_root"@))) + " between offsets "@ + json_text(idx(b.at("between"@), 0))
            + ".."@ + json_text(idx(b.at("between"@), 1)) + ", attributed "@ + qm(b.str_at("attribution"@))
    } else if k == "revert"@ {
        "REVERT to manifest "@ + qm(b.str_at("manifest"@)) + " ["@
            + join_comma(root_parts(list_at(b, "roots_restored"@), "store"@, "root"@)) + "]"@
    } else if k == "shred"@ {
        "shredded payload "@ + short_of(qm(b.str_at("payload_hash"@))) + " ("@ + qm(b.str_at("reason"@)) + ")"@
    } else if k == "promotion"@ {
        "PROMOTED manifest "@ + qm(b.str_at("manifest"@)) + " to trunk ["@
            + join_comma(root_parts(list_at(b, "stores"@), "store"@, "merged"@)) + "] — "@ + int_text(count_at(b, "ops"@))
            + " op(s), "@ + int_text(count_at(b, "conflicts"@)) + " conflict(s), policy "@ + qm(b.str_at("policy"@))
    } else if k == "grant"@ {
        "capability "@ + qm(b.str_at("capability"@)) + " granted"@ + grant_suffix(b)
    } else if k == "revoke"@ {
        "REVOKED capability "@ + qm(b.str_at("capability"@)) + " ("@ + qm(b.str_at("reason"@)) + ")"@ + revoke_suffix(b)
    } else if k == "verdict"@ {
        "DENY "@ + qm(b.str_at("tool"@)) + "."@ + qm(b.str_at("action"@)) + " — "@ + verdict_reason(b)
    } else if k == "escalation"@ && b.at("caveat"@) == JsonV::Str("promotion.policy"@) {
        let sample = idx(b.at("sample"@), 0);
        "PARKED promotion #"@ + json_text(b.at("promotion"@)) + " — ops ["@ + join_comma(strings_of(list_at(sample, "ops"@)))
            + "], "@ + json_text(sample.at("conflicts"@))
            + " conflict(s); resolve via `asf approve --home <H> promotions`"@
    } else if k == "escalation"@ {
        "ESCALATE #"@ + json_text(b.at("escalation"@)) + " caveat "@ + qm(b.str_at("caveat"@)) + " (batch count "@
            + json_text(b.at("count"@)) + ")"@
    } else if k == "approval"@ && b.get("promotion"@) is Some {
        "APPROVAL promotion #"@ + json_text(b.at("promotion"@)) + " "@ + qm(b.str_at("resolution"@)) + " via "@
            + qm(b.str_at("channel"@)) + " ("@ + qm(b.str_at("auth_strength"@)) + ")"@
    } else if k == "approval"@ {
        "APPROVAL #"@ + json_text(b.at("escalation"@)) + " "@ + qm(b.str_at("resolution"@)) + " ("@ + json_text(b.at("uses"@))
            + " uses) via "@ + qm(b.str_at("channel"@)) + " ("@ + qm(b.str_at("auth_strength"@)) + ")"@
    } else {
        k + " event"@
    }
}

fn strings_joined(a: &Vec<Json>) -> (r: String)
    ensures
        r@ == join_comma(strings_of(elems_view(a@))),
{
    let ghost av = elems_view(a@);
    proof { lemma_elems_view_len(a@); }
    let mut out: Vec<String> = Vec::new();
    let mut i: usize = 0;
    assert(av.skip(0) =~= av);
    assert(string_views(out@) =~= Seq::<Seq<char>>::empty());
    while i < a.len()
        invariant
            i <= a.len(),
            av == elems_view(a@),
            av.len() == a.len(),
            string_views(out@) + strings_of(av.skip(i as int)) == strings_of(av),
        decreases a.len() - i,
    {
        proof {
            assert(av.skip(i as int).drop_first() =~= av.skip(i + 1));
            assert(av.skip(i as int)[0] == a@[i as int]@);
        }
        let ghost before = string_views(out@);
        match a[i].as_str() {
            Some(x) => {
                out.push(x.to_owned());
                assert(string_views(out@) =~= before.push(x@));
                assert(before.push(x@) + strings_of(av.skip(i + 1)) =~= before + (seq![x@] + strings_of(av.skip(i + 1))));
            },
            None => {},
        }
        i += 1;
    }
    assert(av.skip(a.len() as int) =~= Seq::<JsonV>::empty());
    assert(string_views(out@) + Seq::<Seq<char>>::empty() =~= string_views(out@));
    join_vec(&out)
}

fn list_of<'a>(v: &'a Json, key: &str, empty: &'a Vec<Json>) -> (r: &'a Vec<Json>)
    requires
        empty@.len() == 0,
    ensures
        elems_view(r@) == list_at(v@, key@),
{
    proof { lemma_elems_view_len(empty@); }
    assert(elems_view(empty@) =~= Seq::<JsonV>::empty());
    match v.get(key) {
        Some(x) => match x.as_array() {
            Some(a) => a,
            None => empty,
        },
        None => empty,
    }
}

fn count_of(v: &Json, key: &str) -> (r: usize)
    ensures
        r as int == count_at(v@, key@),
{
    match v.get(key) {
        Some(x) => match x.as_array() {
            Some(a) => {
                proof { lemma_elems_view_len(a@); }
                a.len()
            },
            None => 0,
        },
        None => 0,
    }
}

/// Render one event.
#[verifier::rlimit(60)]
pub fn event_line_of(row: &EventRow) -> (r: String)
    ensures
        r@ == event_line(row.view()),
{
    let null = Json::Null;
    let empty: Vec<Json> = Vec::new();
    let b: &Json = at_or_null(&row.raw, "body", &null);
    let k: &str = row.kind.as_str();
    if str_eq(k, "register") {
        cat(&cat(&cat("registered ", &q_at(b, "object_kind")), " "), &q_at(b, "object"))
    } else if str_eq(k, "intent") {
        cat(&cat(&cat(&cat(&cat(&cat(&cat("intent ", &q_at(b, "intent")), " captured via "), &q_at(b, "channel")), " ("),
            &q_at(b, "auth_strength")), ") before offset "), &text_at(b, "captured_before"))
    } else if str_eq(k, "snapshot") {
        let man = match &row.manifest {
            Some(m) => m.clone(),
            None => "?".to_owned(),
        };
        let parts = root_parts_of(list_of(b, "roots", &empty), "store", "root");
        cat(&cat(&cat(&cat("manifest ", &man), " snapshotted ["), &join_vec(&parts)), "]")
    } else if str_eq(k, "remanifest") {
        cat(&cat(&cat(&cat("re-manifest from parent ", &q_at(b, "parent")), " (behavior_changed="), &text_at(b, "behavior_changed")), ")")
    } else if str_eq(k, "tool_call") {
        cat(&cat(&cat(&cat(&cat(&cat("tool_call ", &q_at(b, "tool")), "."), &q_at(b, "action")), " ("), &q_at(b, "reversibility")), ")")
    } else if str_eq(k, "drift") {
        let between = at_or_null(b, "between", &null);
        let head = cat(&cat(&cat(&cat(&cat("DRIFT in ", &q_at(b, "store")), ": "), &summarize_ops(at_or_null(b, "ops", &null))),
            &short(&q_at(b, "expected_root"))), " -> ");
        cat(&cat(&cat(&cat(&cat(&cat(&cat(&head, &short(&q_at(b, "observed_root"))), " between offsets "),
            &to_json_text(index_of(between, 0, &null))), ".."), &to_json_text(index_of(between, 1, &null))), ", attributed "),
            &q_at(b, "attribution"))
    } else if str_eq(k, "revert") {
        let parts = root_parts_of(list_of(b, "roots_restored", &empty), "store", "root");
        cat(&cat(&cat(&cat("REVERT to manifest ", &q_at(b, "manifest")), " ["), &join_vec(&parts)), "]")
    } else if str_eq(k, "shred") {
        cat(&cat(&cat(&cat("shredded payload ", &short(&q_at(b, "payload_hash"))), " ("), &q_at(b, "reason")), ")")
    } else if str_eq(k, "promotion") {
        let parts = root_parts_of(list_of(b, "stores", &empty), "store", "merged");
        let head = cat(&cat(&cat(&cat(&cat("PROMOTED manifest ", &q_at(b, "manifest")), " to trunk ["), &join_vec(&parts)), "] — "),
            &uint_string(count_of(b, "ops")));
        cat(&cat(&cat(&cat(&head, " op(s), "), &uint_string(count_of(b, "conflicts"))), " conflict(s), policy "), &q_at(b, "policy"))
    } else if str_eq(k, "grant") {
        let suffix = match b.str_at("parent") {
            Some(p) => cat(&cat(" (attenuated from ", p), ")"),
            None => "".to_owned(),
        };
        cat(&cat(&cat("capability ", &q_at(b, "capability")), " granted"), &suffix)
    } else if str_eq(k, "revoke") {
        let suffix = match b.str_at("channel") {
            Some(c) => cat(&cat(&cat(&cat(" via ", c), " ("), &q_at(b, "auth_strength")), ")"),
            None => " by broker (mechanical)".to_owned(),
        };
        cat(&cat(&cat(&cat(&cat("REVOKED capability ", &q_at(b, "capability")), " ("), &q_at(b, "reason")), ")"), &suffix)
    } else if str_eq(k, "verdict") {
        let reason = match b.str_at("structural") {
            Some(s) => s.to_owned(),
            None => match b.get("failed") {
                Some(f) => match f.as_array() {
                    Some(a) => strings_joined(a),
                    None => "".to_owned(),
                },
                None => "".to_owned(),
            },
        };
        cat(&cat(&cat(&cat(&cat("DENY ", &q_at(b, "tool")), "."), &q_at(b, "action")), " — "), &reason)
    } else if str_eq(k, "escalation") && crate::json::json_is_str(at_or_null(b, "caveat", &null), "promotion.policy") {
        let sample = index_of(at_or_null(b, "sample", &null), 0, &null);
        let ops = strings_joined(list_of(sample, "ops", &empty));
        cat(&cat(&cat(&cat(&cat(&cat("PARKED promotion #", &text_at(b, "promotion")), " — ops ["), &ops), "], "),
            &text_at(sample, "conflicts")), " conflict(s); resolve via `asf approve --home <H> promotions`")
    } else if str_eq(k, "escalation") {
        cat(&cat(&cat(&cat(&cat(&cat("ESCALATE #", &text_at(b, "escalation")), " caveat "), &q_at(b, "caveat")), " (batch count "),
            &text_at(b, "count")), ")")
    } else if str_eq(k, "approval") && b.get("promotion").is_some() {
        cat(&cat(&cat(&cat(&cat(&cat(&cat(&cat("APPROVAL promotion #", &text_at(b, "promotion")), " "), &q_at(b, "resolution")),
            " via "), &q_at(b, "channel")), " ("), &q_at(b, "auth_strength")), ")")
    } else if str_eq(k, "approval") {
        let head = cat(&cat(&cat(&cat(&cat("APPROVAL #", &text_at(b, "escalation")), " "), &q_at(b, "resolution")), " ("),
            &text_at(b, "uses"));
        cat(&cat(&cat(&cat(&cat(&head, " uses) via "), &q_at(b, "channel")), " ("), &q_at(b, "auth_strength")), ")")
    } else {
        cat(k, " event")
    }
}

// ---------------------------------------------------------------------
// The roots the ledger last recorded, and the final accounting
// ---------------------------------------------------------------------

/// The views of stored rows.
pub open spec fn rows_view(s: Seq<EventRow>) -> Seq<EventV> {
    s.map_values(|r: EventRow| r.view())
}

/// Record `store = root` for each entry, in order.
pub open spec fn put_roots(entries: Seq<JsonV>, store_key: Seq<char>, root_key: Seq<char>, m: Map<Seq<char>, Seq<char>>) -> Map<Seq<char>, Seq<char>>
    decreases entries.len(),
{
    if entries.len() == 0 {
        m
    } else {
        let e = entries.last();
        put_roots(entries.drop_last(), store_key, root_key, m).insert(qm(e.str_at(store_key)), qm(e.str_at(root_key)))
    }
}

/// Record a tool call's trunk roots; `branch:` roots are the agent's fork,
/// not trunk state (trunk moves at promotion).
pub open spec fn put_after(fields: Seq<(Seq<char>, JsonV)>, m: Map<Seq<char>, Seq<char>>) -> Map<Seq<char>, Seq<char>>
    decreases fields.len(),
{
    if fields.len() == 0 {
        m
    } else {
        let r = put_after(fields.drop_last(), m);
        let f = fields.last();
        if has_prefix(f.0, "branch:"@) {
            r
        } else {
            r.insert(f.0, qm(f.1.as_str()))
        }
    }
}

/// The roots after one event: snapshots, trunk roots of tool calls,
/// observed drift, reverts and promotions move them.
pub open spec fn roots_after(e: EventV, m: Map<Seq<char>, Seq<char>>) -> Map<Seq<char>, Seq<char>> {
    let b = e.raw.at("body"@);
    let k = e.kind;
    if k == "snapshot"@ {
        put_roots(list_at(b, "roots"@), "store"@, "root"@, m)
    } else if k == "tool_call"@ {
        match b.at("state_root_after"@) {
            JsonV::Object(f) => put_after(f, m),
            _ => m,
        }
    } else if k == "drift"@ {
        m.insert(qm(b.str_at("store"@)), qm(b.str_at("observed_root"@)))
    } else if k == "revert"@ {
        put_roots(list_at(b, "roots_restored"@), "store"@, "root"@, m)
    } else if k == "promotion"@ {
        put_roots(list_at(b, "stores"@), "store"@, "merged"@, m)
    } else {
        m
    }
}

/// The ledger's last word on each store's root.
pub open spec fn ledger_roots(evs: Seq<EventV>) -> Map<Seq<char>, Seq<char>>
    decreases evs.len(),
{
    if evs.len() == 0 {
        Map::empty()
    } else {
        roots_after(evs.last(), ledger_roots(evs.drop_last()))
    }
}

/// Each store whose live root the ledger cannot account for, in the order
/// the stores are given.
pub open spec fn unexplained_of(live: Seq<(Seq<char>, Seq<char>)>, roots: Map<Seq<char>, Seq<char>>) -> Seq<Seq<char>>
    decreases live.len(),
{
    if live.len() == 0 {
        Seq::empty()
    } else {
        let r = unexplained_of(live.drop_last(), roots);
        let (store, l) = live.last();
        if roots.contains_key(store) {
            if roots[store] == l {
                r
            } else {
                r.push(store + ": live root "@ + short_of(l) + " but ledger says "@ + short_of(roots[store]))
            }
        } else {
            r.push(store + ": never appears in ledger"@)
        }
    }
}

/// Nothing is unexplained exactly when the ledger's last word on every
/// live store is its live root.
pub proof fn law_unexplained_empty_iff_accounted(live: Seq<(Seq<char>, Seq<char>)>, roots: Map<Seq<char>, Seq<char>>)
    ensures
        unexplained_of(live, roots).len() == 0 <==> forall|i: int|
            0 <= i < live.len() ==> roots.contains_key((#[trigger] live[i]).0) && roots[live[i].0] == live[i].1,
    decreases live.len(),
{
    if live.len() > 0 {
        let init = live.drop_last();
        law_unexplained_empty_iff_accounted(init, roots);
        let n = live.len() - 1;
        assert(live.last() == live[n]);
        assert forall|i: int| 0 <= i < init.len() implies #[trigger] init[i] == live[i] by {}
        if forall|i: int| 0 <= i < live.len() ==> roots.contains_key((#[trigger] live[i]).0) && roots[live[i].0] == live[i].1 {
            assert(roots.contains_key(live[n].0) && roots[live[n].0] == live[n].1);
            assert forall|i: int| 0 <= i < init.len() implies roots.contains_key((#[trigger] init[i]).0) && roots[init[i].0]
                == init[i].1 by {
                assert(init[i] == live[i]);
            }
        }
        if unexplained_of(live, roots).len() == 0 {
            assert forall|i: int| 0 <= i < live.len() implies roots.contains_key((#[trigger] live[i]).0) && roots[live[i].0]
                == live[i].1 by {
                if i < n {
                    assert(init[i] == live[i]);
                }
            }
        }
    }
}

/// After a drift event, the ledger's last word on the drifted store is the
/// observed root, and on every other store it is unchanged: a later check
/// that observes the same root finds the store accounted for.
pub proof fn law_drift_event_accounts_store(evs: Seq<EventV>, e: EventV)
    requires
        e.kind == "drift"@,
    ensures
        ledger_roots(evs.push(e)) == ledger_roots(evs).insert(
            qm(e.raw.at("body"@).str_at("store"@)),
            qm(e.raw.at("body"@).str_at("observed_root"@)),
        ),
{
    reveal_strlit("drift");
    reveal_strlit("snapshot");
    reveal_strlit("tool_call");
    assert("drift"@ != "snapshot"@ && "drift"@ != "tool_call"@) by {
        assert("drift"@.len() == 5 && "snapshot"@.len() == 8 && "tool_call"@.len() == 9);
    }
    assert(evs.push(e).drop_last() =~= evs);
    assert(evs.push(e).last() == e);
    assert(ledger_roots(evs.push(e)) == roots_after(e, ledger_roots(evs)));
}

/// The tree holds exactly the map.
pub open spec fn tree_is(t: Tree, m: Map<Seq<char>, Seq<char>>) -> bool {
    t.wf() && forall|q: Seq<char>| #[trigger] t.at(q) == if m.contains_key(q) {
        Some(m[q])
    } else {
        None::<Seq<char>>
    }
}

fn put_roots_into(roots: &mut Tree, entries: &Vec<Json>, store_key: &str, root_key: &str, Ghost(m): Ghost<Map<Seq<char>, Seq<char>>>)
    requires
        tree_is(*old(roots), m),
    ensures
        tree_is(*final(roots), put_roots(elems_view(entries@), store_key@, root_key@, m)),
{
    let ghost ev = elems_view(entries@);
    proof { lemma_elems_view_len(entries@); }
    let mut i: usize = 0;
    assert(ev.subrange(0, 0) =~= Seq::<JsonV>::empty());
    while i < entries.len()
        invariant
            i <= entries.len(),
            ev == elems_view(entries@),
            ev.len() == entries.len(),
            tree_is(*roots, put_roots(ev.subrange(0, i as int), store_key@, root_key@, m)),
        decreases entries.len() - i,
    {
        proof {
            assert(ev.subrange(0, i + 1).drop_last() =~= ev.subrange(0, i as int));
            assert(ev.subrange(0, i + 1).last() == entries@[i as int]@);
        }
        let ghost before = put_roots(ev.subrange(0, i as int), store_key@, root_key@, m);
        let st = q_at(&entries[i], store_key);
        let rt = q_at(&entries[i], root_key);
        let ghost (sv, rv) = (st@, rt@);
        roots.insert(st, rt);
        proof {
            let after = before.insert(sv, rv);
            assert forall|q: Seq<char>| #[trigger] roots.at(q) == if after.contains_key(q) {
                Some(after[q])
            } else {
                None::<Seq<char>>
            } by {}
        }
        i += 1;
    }
    assert(ev.subrange(0, entries.len() as int) =~= ev);
}

fn put_after_into(roots: &mut Tree, fields: &Vec<(String, Json)>, Ghost(m): Ghost<Map<Seq<char>, Seq<char>>>)
    requires
        tree_is(*old(roots), m),
    ensures
        tree_is(*final(roots), put_after(fields_view(fields@), m)),
{
    let ghost fv = fields_view(fields@);
    proof { lemma_fields_view_len(fields@); }
    let mut i: usize = 0;
    assert(fv.subrange(0, 0) =~= Seq::<(Seq<char>, JsonV)>::empty());
    while i < fields.len()
        invariant
            i <= fields.len(),
            fv == fields_view(fields@),
            fv.len() == fields.len(),
            tree_is(*roots, put_after(fv.subrange(0, i as int), m)),
        decreases fields.len() - i,
    {
        proof {
            assert(fv.subrange(0, i + 1).drop_last() =~= fv.subrange(0, i as int));
            assert(fv.subrange(0, i + 1).last() == (fields@[i as int].0@, fields@[i as int].1@));
        }
        let ghost before = put_after(fv.subrange(0, i as int), m);
        if !starts_with(&fields[i].0, "branch:") {
            let rt = match fields[i].1.as_str() {
                Some(r) => r.to_owned(),
                None => "?".to_owned(),
            };
            let ghost (sv, rv) = (fields@[i as int].0@, rt@);
            roots.insert(fields[i].0.clone(), rt);
            proof {
                let after = before.insert(sv, rv);
                assert forall|q: Seq<char>| #[trigger] roots.at(q) == if after.contains_key(q) {
                    Some(after[q])
                } else {
                    None::<Seq<char>>
                } by {}
            }
        }
        i += 1;
    }
    assert(fv.subrange(0, fields.len() as int) =~= fv);
}

fn apply_event_roots(roots: &mut Tree, row: &EventRow, Ghost(m): Ghost<Map<Seq<char>, Seq<char>>>)
    requires
        tree_is(*old(roots), m),
    ensures
        tree_is(*final(roots), roots_after(row.view(), m)),
{
    let null = Json::Null;
    let empty: Vec<Json> = Vec::new();
    let b: &Json = at_or_null(&row.raw, "body", &null);
    let k: &str = row.kind.as_str();
    if str_eq(k, "snapshot") {
        put_roots_into(roots, list_of(b, "roots", &empty), "store", "root", Ghost(m));
    } else if str_eq(k, "tool_call") {
        match at_or_null(b, "state_root_after", &null) {
            Json::Object(f) => put_after_into(roots, f, Ghost(m)),
            _ => {},
        }
    } else if str_eq(k, "drift") {
        let st = q_at(b, "store");
        let ob = q_at(b, "observed_root");
        let ghost (sv, ov) = (st@, ob@);
        roots.insert(st, ob);
        proof {
            let after = m.insert(sv, ov);
            assert forall|q: Seq<char>| #[trigger] roots.at(q) == if after.contains_key(q) {
                Some(after[q])
            } else {
                None::<Seq<char>>
            } by {}
        }
    } else if str_eq(k, "revert") {
        put_roots_into(roots, list_of(b, "roots_restored", &empty), "store", "root", Ghost(m));
    } else if str_eq(k, "promotion") {
        put_roots_into(roots, list_of(b, "stores", &empty), "store", "merged", Ghost(m));
    }
}

/// Read the ledger back: one line per event (in storage order), then the
/// final accounting of each store's live root (`live`: store and live root,
/// in the fabric's store order) against the ledger's last word.
pub fn explain(events: &Vec<EventRow>, live: &Vec<(String, String)>) -> (r: Explanation)
    ensures
        r.lines.len() == events.len(),
        forall|i: int| 0 <= i < events.len() ==> {
            &&& (#[trigger] r.lines@[i]).offset == events@[i].offset
            &&& r.lines@[i].at@ == events@[i].at@
            &&& r.lines@[i].span@ == events@[i].span@
            &&& r.lines@[i].kind@ == events@[i].kind@
            &&& r.lines@[i].line@ == event_line(events@[i].view())
        },
        string_views(r.unexplained@) == unexplained_of(crate::evaluate::pairs_view(live@), ledger_roots(rows_view(events@))),
{
    let ghost ev = rows_view(events@);
    let mut lines: Vec<LedgerLine> = Vec::new();
    let mut roots = Tree::new();
    let mut i: usize = 0;
    proof {
        assert(ev.subrange(0, 0) =~= Seq::<EventV>::empty());
    }
    while i < events.len()
        invariant
            i <= events.len(),
            ev == rows_view(events@),
            lines.len() == i,
            tree_is(roots, ledger_roots(ev.subrange(0, i as int))),
            forall|j: int| 0 <= j < i ==> {
                &&& (#[trigger] lines@[j]).offset == events@[j].offset
                &&& lines@[j].at@ == events@[j].at@
                &&& lines@[j].span@ == events@[j].span@
                &&& lines@[j].kind@ == events@[j].kind@
                &&& lines@[j].line@ == event_line(events@[j].view())
            },
        decreases events.len() - i,
    {
        proof {
            assert(ev.subrange(0, i + 1).drop_last() =~= ev.subrange(0, i as int));
            assert(ev.subrange(0, i + 1).last() == events@[i as int].view());
        }
        let row = &events[i];
        let line = event_line_of(row);
        apply_event_roots(&mut roots, row, Ghost(ledger_roots(ev.subrange(0, i as int))));
        lines.push(LedgerLine { offset: row.offset, at: row.at.clone(), span: row.span.clone(), kind: row.kind.clone(), line });
        i += 1;
    }
    assert(ev.subrange(0, events.len() as int) =~= ev);
    let ghost rm = ledger_roots(ev);
    let ghost lv = crate::evaluate::pairs_view(live@);
    let mut unexplained: Vec<String> = Vec::new();
    let mut k: usize = 0;
    assert(string_views(unexplained@) =~= unexplained_of(lv.subrange(0, 0), rm));
    while k < live.len()
        invariant
            k <= live.len(),
            lv == crate::evaluate::pairs_view(live@),
            tree_is(roots, rm),
            string_views(unexplained@) == unexplained_of(lv.subrange(0, k as int), rm),
        decreases live.len() - k,
    {
        proof {
            assert(lv.subrange(0, k + 1).drop_last() =~= lv.subrange(0, k as int));
            assert(lv.subrange(0, k + 1).last() == (live@[k as int].0@, live@[k as int].1@));
        }
        let (store, l) = (&live[k].0, &live[k].1);
        let ghost before = string_views(unexplained@);
        match roots.get(store) {
            Some(last) => {
                if !str_eq(last, l) {
                    let msg = cat(&cat(&cat(&cat(store, ": live root "), &short(l)), " but ledger says "), &short(last));
                    unexplained.push(msg);
                    assert(string_views(unexplained@) =~= before.push(msg@));
                }
            },
            None => {
                let msg = cat(store, ": never appears in ledger");
                unexplained.push(msg);
                assert(string_views(unexplained@) =~= before.push(msg@));
            },
        }
        k += 1;
    }
    assert(lv.subrange(0, live.len() as int) =~= lv);
    Explanation { lines, unexplained }
}

// ---------------------------------------------------------------------
// Step boundary: what a new manifest says
// ---------------------------------------------------------------------

/// The name of a store kind in manifests.
pub open spec fn kind_name(k: StoreKind) -> Seq<char> {
    match k {
        StoreKind::Fs => "fs"@,
        StoreKind::Sqlite => "sqlite"@,
    }
}

/// A store's entry in a manifest's state: kind, root, store and tier.
pub open spec fn root_entry_view(spec: StoreSpec, root: Seq<char>) -> JsonV {
    JsonV::Object(seq![
        ("kind"@, JsonV::Str(kind_name(spec.kind))),
        ("root"@, JsonV::Str(root)),
        ("store"@, JsonV::Str(spec.store@)),
        ("tier"@, JsonV::Int(spec.tier as int)),
    ])
}

/// A store's entry in a manifest's state.
pub fn root_entry(spec: &StoreSpec, root: &str) -> (r: Json)
    ensures
        r@ == root_entry_view(*spec, root@),
{
    let mut f: Vec<(String, Json)> = Vec::new();
    f.push(("kind".to_owned(), Json::from_str(spec.kind.as_str())));
    f.push(("root".to_owned(), Json::from_str(root)));
    f.push(("store".to_owned(), Json::from_str(&spec.store)));
    f.push(("tier".to_owned(), Json::from_u64(spec.tier as u64)));
    proof { lemma_fields_view_len(f@); }
    assert(fields_view(f@) =~= seq![
        ("kind"@, JsonV::Str(kind_name(spec.kind))),
        ("root"@, JsonV::Str(root@)),
        ("store"@, JsonV::Str(spec.store@)),
        ("tier"@, JsonV::Int(spec.tier as int)),
    ]);
    Json::Object(f)
}

/// The body of a new manifest, fields in key order: the brokered authority
/// mode when declared, the behavior, creation time, delegate and delegator,
/// intent, parent manifest (`null` at the root), the captured store roots,
/// and the trace span with the substrate offset it starts after.
pub open spec fn manifest_body_view(
    parent: Option<Seq<char>>,
    created_at: Seq<char>,
    delegator: Seq<char>,
    delegate: Seq<char>,
    intent: Seq<char>,
    roots: Seq<JsonV>,
    brokered: bool,
    behavior: JsonV,
    span: Seq<char>,
    substrate_offset: int,
) -> Seq<(Seq<char>, JsonV)> {
    let rest = seq![
        ("behavior"@, behavior),
        ("created_at"@, JsonV::Str(created_at)),
        ("delegate"@, JsonV::Str(delegate)),
        ("delegator"@, JsonV::Str(delegator)),
        ("intent"@, JsonV::Str(intent)),
        ("parent"@, match parent {
            Some(p) => JsonV::Str(p),
            None => JsonV::Null,
        }),
        ("state"@, JsonV::Object(seq![("roots"@, JsonV::Array(roots))])),
        ("trace"@, JsonV::Object(seq![("span"@, JsonV::Str(span)), ("substrate_offset"@, JsonV::Int(substrate_offset))])),
    ];
    if brokered {
        seq![("authority"@, JsonV::Object(seq![("mode"@, JsonV::Str("brokered"@))]))] + rest
    } else {
        rest
    }
}

/// The body of the manifest a step boundary seals.
pub fn manifest_body(
    parent: &Option<String>,
    created_at: &str,
    delegator: &str,
    delegate: &str,
    intent: &str,
    roots: Vec<Json>,
    mode: AuthorityMode,
    behavior: Json,
    span: &str,
    substrate_offset: i64,
) -> (r: Vec<(String, Json)>)
    ensures
        fields_view(r@) == manifest_body_view(opt_chars(*parent), created_at@, delegator@, delegate@, intent@, elems_view(roots@),
            mode == AuthorityMode::Brokered, behavior@, span@, substrate_offset as int),
{
    let ghost rv = elems_view(roots@);
    let ghost bv = behavior@;
    let mut f: Vec<(String, Json)> = Vec::new();
    let brokered = match mode {
        AuthorityMode::Brokered => true,
        AuthorityMode::Observed => false,
    };
    if brokered {
        let mut m: Vec<(String, Json)> = Vec::new();
        m.push(("mode".to_owned(), Json::from_str("brokered")));
        proof { lemma_fields_view_len(m@); }
        assert(fields_view(m@) =~= seq![("mode"@, JsonV::Str("brokered"@))]);
        f.push(("authority".to_owned(), Json::Object(m)));
    }
    f.push(("behavior".to_owned(), behavior));
    f.push(("created_at".to_owned(), Json::from_str(created_at)));
    f.push(("delegate".to_owned(), Json::from_str(delegate)));
    f.push(("delegator".to_owned(), Json::from_str(delegator)));
    f.push(("intent".to_owned(), Json::from_str(intent)));
    let p = match parent {
        Some(x) => Json::from_str(x),
        None => Json::Null,
    };
    f.push(("parent".to_owned(), p));
    let mut st: Vec<(String, Json)> = Vec::new();
    st.push(("roots".to_owned(), Json::Array(roots)));
    proof { lemma_fields_view_len(st@); }
    assert(fields_view(st@) =~= seq![("roots"@, JsonV::Array(rv))]);
    f.push(("state".to_owned(), Json::Object(st)));
    let mut tr: Vec<(String, Json)> = Vec::new();
    tr.push(("span".to_owned(), Json::from_str(span)));
    tr.push(("substrate_offset".to_owned(), Json::from_i64(substrate_offset)));
    proof { lemma_fields_view_len(tr@); }
    assert(fields_view(tr@) =~= seq![("span"@, JsonV::Str(span@)), ("substrate_offset"@, JsonV::Int(substrate_offset as int))]);
    f.push(("trace".to_owned(), Json::Object(tr)));
    proof { lemma_fields_view_len(f@); }
    assert(fields_view(f@) =~= manifest_body_view(opt_chars(*parent), created_at@, delegator@, delegate@, intent@, rv,
        brokered, bv, span@, substrate_offset as int));
    f
}

/// Whether the behavior differs from the parent manifest's (`false` at the
/// root of a lineage).
pub fn behavior_changed(parent_manifest: Option<&Json>, behavior: &Json) -> (r: bool)
    ensures
        r == match parent_manifest {
            Some(pm) => pm@.get("behavior"@) != Some(behavior@),
            None => false,
        },
{
    match parent_manifest {
        Some(pm) => match pm.get("behavior") {
            Some(b) => !crate::json::json_eq(b, behavior),
            None => true,
        },
        None => false,
    }
}

} // verus!
