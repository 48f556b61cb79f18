//! What the fabric records around its stores: the operation summary of a
//! divergence found outside any recorded action, the bodies of the drift,
//! snapshot, re-manifest, tool-call and revert events, and which roots the
//! fabric expects next.
//!
//! A branched run captures the agent's world under `branch:` keys and
//! leaves trunk expectations alone: trunk only moves at promotion.

use vstd::prelude::*;
use crate::json::{elems_view, fields_view, lemma_elems_view_len, lemma_elems_view_push, lemma_fields_view_len, Json, JsonV};
use crate::promote::{ops_view, three_way, tree_from_object, is_diff, Op};
use crate::promotion::{object_tree, ops_json};
use crate::snapshot::{tree_object_ok, validate_tree_object, StoreKind, StoreSpec};
use crate::authority::{has_prefix, starts_with};

verus! {

// ---------------------------------------------------------------------
// The sqlite runtime
// ---------------------------------------------------------------------

/// The first mainline SQLite patch release carrying the WAL-reset
/// corruption fix (3.51.3, encoded as SQLite encodes versions). Older
/// runtimes are refused, backports included: a version number cannot
/// attest a backport's provenance.
pub const MIN_SAFE_SQLITE_VERSION: i32 = 3051003;

/// A sqlite runtime below the safe floor.
#[derive(Debug)]
pub struct UnsafeSqliteVersion {
    pub observed: i32,
    pub minimum: i32,
}

/// Refuse a sqlite runtime below the safe floor before any fabric state is
/// created or opened.
pub fn require_safe_sqlite_version(observed: i32) -> (r: Result<(), UnsafeSqliteVersion>)
    ensures
        r is Ok <==> observed >= MIN_SAFE_SQLITE_VERSION,
        r matches Err(e) ==> e.observed == observed && e.minimum == MIN_SAFE_SQLITE_VERSION,
{
    if observed < MIN_SAFE_SQLITE_VERSION {
        return Err(UnsafeSqliteVersion { observed, minimum: MIN_SAFE_SQLITE_VERSION });
    }
    Ok(())
}

// ---------------------------------------------------------------------
// Drift
// ---------------------------------------------------------------------

/// The whole-store operation an opaque store's divergence reads as.
pub open spec fn whole_store_op(store: Seq<char>) -> JsonV {
    JsonV::Object(seq![("op"@, JsonV::Str("modify"@)), ("path"@, JsonV::Str(store + " (whole store)"@))])
}

/// The operation a filesystem divergence reads as when a tree cannot be
/// loaded.
pub open spec fn unavailable_op() -> JsonV {
    JsonV::Object(seq![("op"@, JsonV::Str("modify"@)), ("path"@, JsonV::Str("(tree unavailable)"@))])
}

/// The tree object, when it was loaded and is well formed.
pub open spec fn usable_tree(o: Option<JsonV>) -> Option<JsonV> {
    match o {
        Some(t) => if tree_object_ok(t) {
            Some(t)
        } else {
            None
        },
        None => None,
    }
}

fn usable(o: Option<&Json>, root: &str) -> (r: bool)
    ensures
        r == (usable_tree(crate::json::opt_view(o)) is Some),
{
    match o {
        Some(t) => match validate_tree_object(t, root) {
            Ok(()) => true,
            Err(_) => false,
        },
        None => false,
    }
}

fn whole_store(store: &str) -> (r: Json)
    ensures
        r@ == whole_store_op(store@),
{
    let mut f: Vec<(String, Json)> = Vec::new();
    f.push(("op".to_owned(), Json::from_str("modify")));
    f.push(("path".to_owned(), Json::Str(crate::capability::cat(store, " (whole store)"))));
    proof {
        lemma_fields_view_len(f@);
        assert(fields_view(f@) =~= seq![("op"@, JsonV::Str("modify"@)), ("path"@, JsonV::Str(store@ + " (whole store)"@))]);
    }
    Json::Object(f)
}

fn unavailable() -> (r: Json)
    ensures
        r@ == unavailable_op(),
{
    let mut f: Vec<(String, Json)> = Vec::new();
    f.push(("op".to_owned(), Json::from_str("modify")));
    f.push(("path".to_owned(), Json::from_str("(tree unavailable)")));
    proof {
        lemma_fields_view_len(f@);
        assert(fields_view(f@) =~= seq![("op"@, JsonV::Str("modify"@)), ("path"@, JsonV::Str("(tree unavailable)"@))]);
    }
    Json::Object(f)
}

/// The operation-class summary of a divergence between two attested roots,
/// in the vocabulary rules and promotion previews speak. For a filesystem
/// store with both tree objects available, the changes from the expected
/// tree to the observed one (as the agent side of a merge whose base and
/// trunk are the expected tree, so no conflict can arise); an opaque store
/// reads as one whole-store `modify`.
pub fn divergence_ops(spec: &StoreSpec, expected: &str, observed: &str, expected_obj: Option<&Json>, observed_obj: Option<&Json>) -> (r: Vec<Json>)
    ensures
        match spec.kind {
            StoreKind::Sqlite => elems_view(r@) == seq![whole_store_op(spec.store@)],
            StoreKind::Fs => match (usable_tree(crate::json::opt_view(expected_obj)), usable_tree(crate::json::opt_view(observed_obj))) {
                (Some(e), Some(o)) => is_diff(object_tree(e), object_tree(o), crate::promote::diff_ops(object_tree(e), object_tree(o)))
                    && elems_view(r@) == ops_json(crate::promote::diff_ops(object_tree(e), object_tree(o))),
                _ => elems_view(r@) == seq![unavailable_op()],
            },
        },
{
    let mut out: Vec<Json> = Vec::new();
    match spec.kind {
        StoreKind::Sqlite => {
            out.push(whole_store(spec.store.as_str()));
            proof {
                lemma_elems_view_len(out@);
                assert(elems_view(out@) =~= seq![whole_store_op(spec.store@)]);
            }
            out
        },
        StoreKind::Fs => {
            if !(usable(expected_obj, expected) && usable(observed_obj, observed)) {
                out.push(unavailable());
                proof {
                    lemma_elems_view_len(out@);
                    assert(elems_view(out@) =~= seq![unavailable_op()]);
                }
                return out;
            }
            let (e, o) = match (expected_obj, observed_obj) {
                (Some(e), Some(o)) => (e, o),
                _ => {
                    return out;
                },
            };
            let et = tree_from_object(e);
            let ot = tree_from_object(o);
            proof {
                crate::promotion::lemma_tree_of_object(et, e@);
                crate::promotion::lemma_tree_of_object(ot, o@);
            }
            let m = three_way(&et, &ot, &et);
            let mut i: usize = 0;
            while i < m.ops.len()
                invariant
                    i <= m.ops@.len(),
                    elems_view(out@) == ops_json(ops_view(m.ops@)).take(i as int),
                decreases m.ops@.len() - i,
            {
                let ghost prev = out@;
                out.push(m.ops[i].to_json());
                proof {
                    lemma_elems_view_push(prev, out@.last());
                    assert(out@ =~= prev.push(out@.last()));
                    assert(ops_json(ops_view(m.ops@)).take(i + 1) =~= ops_json(ops_view(m.ops@)).take(i as int).push(
                        crate::promote::op_json(m.ops@[i as int]@)));
                }
                i += 1;
            }
            assert(ops_json(ops_view(m.ops@)).take(i as int) =~= ops_json(ops_view(m.ops@)));
            out
        },
    }
}

/// The body of a drift event: the store, the root the fabric expected and
/// the one observed, the substrate window it happened in, the attribution
/// and the operation summary.
pub open spec fn drift_json(store: Seq<char>, expected: Seq<char>, observed: Seq<char>, since: i64, head: i64, ops: Seq<JsonV>) -> JsonV {
    JsonV::Object(seq![
        ("attribution"@, JsonV::Str("human_local"@)),
        ("between"@, JsonV::Array(seq![JsonV::Int(since as int), JsonV::Int(head as int)])),
        ("expected_root"@, JsonV::Str(expected)),
        ("observed_root"@, JsonV::Str(observed)),
        ("ops"@, JsonV::Array(ops)),
        ("store"@, JsonV::Str(store)),
    ])
}

/// The attribution of a divergence found between recorded actions: with a
/// single human on the machine, it is theirs.
pub fn drift_attribution() -> (r: &'static str)
    ensures
        r@ == "human_local"@,
{
    "human_local"
}

/// The body of the drift event for one divergence.
pub fn drift_body(store: &str, expected: &str, observed: &str, since: i64, head: i64, ops: Vec<Json>) -> (r: Json)
    ensures
        r@ == drift_json(store@, expected@, observed@, since, head, elems_view(ops@)),
{
    let ghost ov = elems_view(ops@);
    let mut between: Vec<Json> = Vec::new();
    between.push(Json::from_i64(since));
    between.push(Json::from_i64(head));
    proof { lemma_elems_view_len(between@); }
    let ghost bv = elems_view(between@);
    let mut f: Vec<(String, Json)> = Vec::new();
    f.push(("attribution".to_owned(), Json::from_str(drift_attribution())));
    f.push(("between".to_owned(), Json::Array(between)));
    f.push(("expected_root".to_owned(), Json::from_str(expected)));
    f.push(("observed_root".to_owned(), Json::from_str(observed)));
    f.push(("ops".to_owned(), Json::Array(ops)));
    f.push(("store".to_owned(), Json::from_str(store)));
    proof {
        lemma_fields_view_len(f@);
        assert(bv =~= seq![JsonV::Int(since as int), JsonV::Int(head as int)]);
        assert(fields_view(f@) =~= match drift_json(store@, expected@, observed@, since, head, ov) {
            JsonV::Object(x) => x,
            _ => Seq::empty(),
        });
    }
    Json::Object(f)
}

// ---------------------------------------------------------------------
// Step boundaries
// ---------------------------------------------------------------------

/// The body of the snapshot event: the roots the manifest sealed.
pub fn snapshot_body(sealed: &Json) -> (r: Json)
    ensures
        r@ == JsonV::Object(seq![("roots"@, sealed@.at("state"@).at("roots"@))]),
{
    let roots = match sealed.get("state") {
        Some(st) => match st.get("roots") {
            Some(r) => r.deep_clone(),
            None => Json::Null,
        },
        None => Json::Null,
    };
    let mut f: Vec<(String, Json)> = Vec::new();
    f.push(("roots".to_owned(), roots));
    proof {
        lemma_fields_view_len(f@);
        assert(fields_view(f@) =~= seq![("roots"@, sealed@.at("state"@).at("roots"@))]);
    }
    Json::Object(f)
}

/// The body of the re-manifest event: the parent and whether the behavior
/// changed.
pub fn remanifest_body(parent: &str, behavior_changed: bool) -> (r: Json)
    ensures
        r@ == JsonV::Object(seq![("behavior_changed"@, JsonV::Bool(behavior_changed)), ("parent"@, JsonV::Str(parent@))]),
{
    let mut f: Vec<(String, Json)> = Vec::new();
    f.push(("behavior_changed".to_owned(), Json::Bool(behavior_changed)));
    f.push(("parent".to_owned(), Json::from_str(parent)));
    proof {
        lemma_fields_view_len(f@);
        assert(fields_view(f@) =~= seq![("behavior_changed"@, JsonV::Bool(behavior_changed)), ("parent"@, JsonV::Str(parent@))]);
    }
    Json::Object(f)
}

/// The store and root of each entry of a sealed manifest's roots that
/// names both.
pub open spec fn root_pairs(roots: Seq<JsonV>) -> Seq<(Seq<char>, Seq<char>)>
    decreases roots.len(),
{
    if roots.len() == 0 {
        Seq::empty()
    } else {
        let e = roots.last();
        match (e.str_at("store"@), e.str_at("root"@)) {
            (Some(s), Some(x)) => root_pairs(roots.drop_last()).push((s, x)),
            _ => root_pairs(roots.drop_last()),
        }
    }
}

/// The roots a sealed manifest records, as the fabric's next expectations:
/// each entry's store and root, in order.
pub fn expected_roots(sealed: &Json) -> (r: Vec<(String, String)>)
    ensures
        crate::evaluate::pairs_view(r@) == root_pairs(crate::promotion::manifest_roots(sealed@)),
{
    let empty: Vec<Json> = Vec::new();
    let items: &Vec<Json> = match sealed.get("state") {
        Some(st) => match st.get("roots") {
            Some(rs) => match rs.as_array() {
                Some(a) => a,
                None => &empty,
            },
            None => &empty,
        },
        None => &empty,
    };
    proof {
        lemma_elems_view_len(items@);
        lemma_elems_view_len(empty@);
        assert(elems_view(empty@) =~= Seq::<JsonV>::empty());
    }
    let ghost roots = crate::promotion::manifest_roots(sealed@);
    assert(elems_view(items@) == roots);
    let mut out: Vec<(String, String)> = Vec::new();
    let mut i: usize = 0;
    assert(roots.take(0) =~= Seq::<JsonV>::empty());
    assert(crate::evaluate::pairs_view(out@) =~= Seq::<(Seq<char>, Seq<char>)>::empty());
    while i < items.len()
        invariant
            i <= items@.len(),
            elems_view(items@) == roots,
            roots.len() == items@.len(),
            crate::evaluate::pairs_view(out@) == root_pairs(roots.take(i as int)),
        decreases items@.len() - i,
    {
        assert(roots.take(i + 1).drop_last() =~= roots.take(i as int));
        assert(roots.take(i + 1).last() == items@[i as int]@);
        match (items[i].str_at("store"), items[i].str_at("root")) {
            (Some(s), Some(x)) => {
                let ghost prev = out@;
                out.push((s.to_owned(), x.to_owned()));
                assert(crate::evaluate::pairs_view(out@) =~= crate::evaluate::pairs_view(prev).push((s@, x@)));
            },
            _ => {},
        }
        i += 1;
    }
    assert(roots.take(i as int) =~= roots);
    out
}

// ---------------------------------------------------------------------
// Tool calls
// ---------------------------------------------------------------------

/// The body of a tool-call event.
pub open spec fn tool_call_json(
    tool: Seq<char>,
    action: Seq<char>,
    args: JsonV,
    result: JsonV,
    summary: JsonV,
    checks: JsonV,
    reversibility: Option<Seq<char>>,
    roots_after: Seq<(Seq<char>, JsonV)>,
) -> JsonV {
    JsonV::Object(seq![
        ("action"@, JsonV::Str(action)),
        ("args"@, args),
        ("checks"@, checks),
        ("compensator"@, JsonV::Null),
        ("result"@, result),
        ("reversibility"@, JsonV::Str(match reversibility {
            Some(r) => r,
            None => "irreversible"@,
        })),
        ("state_root_after"@, JsonV::Object(roots_after)),
        ("summary"@, summary),
        ("tool"@, JsonV::Str(tool)),
    ])
}

/// The body of the tool-call event recording a call: the payload
/// references of its arguments and result, the caveat-relevant summary,
/// the broker's checks, the declared reversibility (`irreversible` when
/// undeclared) and the roots captured after it.
pub fn tool_call_body(
    tool: &str,
    action: &str,
    args: Json,
    result: Json,
    summary: Json,
    checks: Json,
    reversibility: Option<&str>,
    roots_after: &Vec<(String, String)>,
) -> (r: Json)
    ensures
        r@ == tool_call_json(tool@, action@, args@, result@, summary@, checks@, match reversibility {
            Some(x) => Some(x@),
            None => None,
        }, roots_after_fields(crate::evaluate::pairs_view(roots_after@))),
{
    let ghost av = args@;
    let ghost rv = result@;
    let ghost sv = summary@;
    let ghost cv = checks@;
    let mut roots: Vec<(String, Json)> = Vec::new();
    let ghost pv = crate::evaluate::pairs_view(roots_after@);
    let mut i: usize = 0;
    while i < roots_after.len()
        invariant
            i <= roots_after@.len(),
            pv == crate::evaluate::pairs_view(roots_after@),
            fields_view(roots@) == roots_after_fields(pv.take(i as int)),
        decreases roots_after@.len() - i,
    {
        assert(pv.take(i + 1).drop_last() =~= pv.take(i as int));
        crate::canon::insert_field(&mut roots, roots_after[i].0.clone(), Json::from_str(roots_after[i].1.as_str()));
        i += 1;
    }
    assert(pv.take(i as int) =~= pv);
    let ghost rf = fields_view(roots@);
    let rev = match reversibility {
        Some(x) => x,
        None => "irreversible",
    };
    let mut f: Vec<(String, Json)> = Vec::new();
    f.push(("action".to_owned(), Json::from_str(action)));
    f.push(("args".to_owned(), args));
    f.push(("checks".to_owned(), checks));
    f.push(("compensator".to_owned(), Json::Null));
    f.push(("result".to_owned(), result));
    f.push(("reversibility".to_owned(), Json::from_str(rev)));
    f.push(("state_root_after".to_owned(), Json::Object(roots)));
    f.push(("summary".to_owned(), summary));
    f.push(("tool".to_owned(), Json::from_str(tool)));
    proof {
        lemma_fields_view_len(f@);
        assert(fields_view(f@) =~= match tool_call_json(tool@, action@, av, rv, sv, cv, match reversibility {
            Some(x) => Some(x@),
            None => None,
        }, rf) {
            JsonV::Object(x) => x,
            _ => Seq::empty(),
        });
    }
    Json::Object(f)
}

/// The roots captured after a call, by key.
pub open spec fn roots_after_fields(p: Seq<(Seq<char>, Seq<char>)>) -> Seq<(Seq<char>, JsonV)>
    decreases p.len(),
{
    if p.len() == 0 {
        Seq::empty()
    } else {
        crate::json::fields_insert(roots_after_fields(p.drop_last()), p.last().0, JsonV::Str(p.last().1))
    }
}

/// The key a branched run records a store's root under.
pub fn branch_key(store: &str) -> (r: String)
    ensures
        r@ == "branch:"@ + store@,
{
    crate::capability::cat("branch:", store)
}

/// The trunk expectations a tool call moves: every captured root except
/// the `branch:` ones, in order.
pub open spec fn trunk_updates(p: Seq<(Seq<char>, Seq<char>)>) -> Seq<(Seq<char>, Seq<char>)> {
    p.filter(|e: (Seq<char>, Seq<char>)| !has_prefix(e.0, "branch:"@))
}

/// The expected roots a recorded call advances: the captured roots that
/// are not branch roots.
pub fn trunk_root_updates(roots_after: &Vec<(String, String)>) -> (r: Vec<(String, String)>)
    ensures
        crate::evaluate::pairs_view(r@) == trunk_updates(crate::evaluate::pairs_view(roots_after@)),
{
    let ghost pv = crate::evaluate::pairs_view(roots_after@);
    let mut out: Vec<(String, String)> = Vec::new();
    let mut i: usize = 0;
    assert(pv.take(0) =~= Seq::<(Seq<char>, Seq<char>)>::empty());
    assert(crate::evaluate::pairs_view(out@) =~= Seq::<(Seq<char>, Seq<char>)>::empty());
    while i < roots_after.len()
        invariant
            i <= roots_after@.len(),
            pv == crate::evaluate::pairs_view(roots_after@),
            crate::evaluate::pairs_view(out@) == trunk_updates(pv.take(i as int)),
        decreases roots_after@.len() - i,
    {
        assert(pv.take(i + 1).drop_last() =~= pv.take(i as int));
        proof {
            reveal(Seq::filter);
        }
        if !starts_with(roots_after[i].0.as_str(), "branch:") {
            let ghost prev = out@;
            out.push((roots_after[i].0.clone(), roots_after[i].1.clone()));
            assert(crate::evaluate::pairs_view(out@) =~= crate::evaluate::pairs_view(prev).push(pv[i as int]));
        }
        i += 1;
    }
    assert(pv.take(i as int) =~= pv);
    out
}

// ---------------------------------------------------------------------
// Revert
// ---------------------------------------------------------------------

/// The roots a revert restores, or why the manifest cannot be reverted to.
pub open spec fn revert_plan(man: JsonV) -> Result<Seq<(Seq<char>, Seq<char>)>, Seq<char>> {
    match man.at("state"@).at("roots"@).as_array() {
        None => Err("state.roots missing"@),
        Some(roots) => revert_entries(roots),
    }
}

/// Each root entry's store and root, in order; the first entry without
/// one of them refuses the revert.
pub open spec fn revert_entries(roots: Seq<JsonV>) -> Result<Seq<(Seq<char>, Seq<char>)>, Seq<char>>
    decreases roots.len(),
{
    if roots.len() == 0 {
        Ok(Seq::empty())
    } else {
        match revert_entries(roots.drop_last()) {
            Err(m) => Err(m),
            Ok(p) => {
                let e = roots.last();
                match e.str_at("store"@) {
                    None => Err("root without store"@),
                    Some(s) => match e.str_at("root"@) {
                        None => Err("root without hash"@),
                        Some(x) => Ok(p.push((s, x))),
                    },
                }
            },
        }
    }
}

proof fn lemma_revert_err_sticks(s: Seq<JsonV>, k: int)
    requires
        0 <= k <= s.len(),
        revert_entries(s.take(k)) is Err,
    ensures
        revert_entries(s) == revert_entries(s.take(k)),
    decreases s.len() - k,
{
    if k < s.len() {
        assert(s.take(k + 1).drop_last() =~= s.take(k));
        lemma_revert_err_sticks(s, k + 1);
    } else {
        assert(s.take(k) =~= s);
    }
}

/// The store roots a manifest records, each store with the root to
/// restore, or the detail of why it is malformed.
pub fn revert_roots(man: &Json) -> (r: Result<Vec<(String, String)>, String>)
    ensures
        match revert_plan(man@) {
            Ok(p) => r matches Ok(v) && crate::evaluate::pairs_view(v@) == p,
            Err(m) => r matches Err(x) && x@ == m,
        },
{
    proof {
        reveal_strlit("state");
        reveal_strlit("roots");
    }
    let items = match man.get("state") {
        Some(st) => match st.get("roots") {
            Some(rs) => rs.as_array(),
            None => None,
        },
        None => None,
    };
    let items = match items {
        Some(a) => a,
        None => return Err("state.roots missing".to_owned()),
    };
    proof { lemma_elems_view_len(items@); }
    let ghost roots = elems_view(items@);
    let mut out: Vec<(String, String)> = Vec::new();
    let mut i: usize = 0;
    assert(roots.take(0) =~= Seq::<JsonV>::empty());
    assert(crate::evaluate::pairs_view(out@) =~= Seq::<(Seq<char>, Seq<char>)>::empty());
    while i < items.len()
        invariant
            i <= items@.len(),
            roots == elems_view(items@),
            roots.len() == items@.len(),
            revert_entries(roots.take(i as int)) == Ok::<Seq<(Seq<char>, Seq<char>)>, Seq<char>>(crate::evaluate::pairs_view(out@)),
        decreases items@.len() - i,
    {
        assert(roots.take(i + 1).drop_last() =~= roots.take(i as int));
        assert(roots.take(i + 1).last() == items@[i as int]@);
        let s = match items[i].str_at("store") {
            Some(s) => s,
            None => {
                proof { lemma_revert_err_sticks(roots, i + 1); }
                return Err("root without store".to_owned());
            },
        };
        let x = match items[i].str_at("root") {
            Some(x) => x,
            None => {
                proof { lemma_revert_err_sticks(roots, i + 1); }
                return Err("root without hash".to_owned());
            },
        };
        let ghost prev = out@;
        out.push((s.to_owned(), x.to_owned()));
        assert(crate::evaluate::pairs_view(out@) =~= crate::evaluate::pairs_view(prev).push((s@, x@)));
        i += 1;
    }
    assert(roots.take(i as int) =~= roots);
    Ok(out)
}

/// A restored root in the revert event.
pub open spec fn restored_json(p: (Seq<char>, Seq<char>)) -> JsonV {
    JsonV::Object(seq![("root"@, JsonV::Str(p.1)), ("store"@, JsonV::Str(p.0))])
}

/// The body of the revert event: the manifest and the roots restored.
pub fn revert_body(manifest: &str, restored: &Vec<(String, String)>) -> (r: Json)
    ensures
        r@ == JsonV::Object(seq![
            ("manifest"@, JsonV::Str(manifest@)),
            ("roots_restored"@, JsonV::Array(crate::evaluate::pairs_view(restored@).map_values(
                |p: (Seq<char>, Seq<char>)| restored_json(p)))),
        ]),
{
    let ghost target = crate::evaluate::pairs_view(restored@).map_values(|p: (Seq<char>, Seq<char>)| restored_json(p));
    let mut items: Vec<Json> = Vec::new();
    let mut i: usize = 0;
    while i < restored.len()
        invariant
            i <= restored@.len(),
            target == crate::evaluate::pairs_view(restored@).map_values(|p: (Seq<char>, Seq<char>)| restored_json(p)),
            elems_view(items@) == target.take(i as int),
        decreases restored@.len() - i,
    {
        let mut e: Vec<(String, Json)> = Vec::new();
        e.push(("root".to_owned(), Json::from_str(restored[i].1.as_str())));
        e.push(("store".to_owned(), Json::from_str(restored[i].0.as_str())));
        proof {
            lemma_fields_view_len(e@);
            assert(fields_view(e@) =~= seq![("root"@, JsonV::Str(restored@[i as int].1@)), ("store"@, JsonV::Str(restored@[i as int].0@))]);
        }
        let ghost prev = items@;
        items.push(Json::Object(e));
        proof {
            lemma_elems_view_push(prev, items@.last());
            assert(items@ =~= prev.push(items@.last()));
            assert(target.take(i + 1) =~= target.take(i as int).push(restored_json((restored@[i as int].0@, restored@[i as int].1@))));
        }
        i += 1;
    }
    assert(target.take(i as int) =~= target);
    let ghost iv = elems_view(items@);
    let mut f: Vec<(String, Json)> = Vec::new();
    f.push(("manifest".to_owned(), Json::from_str(manifest)));
    f.push(("roots_restored".to_owned(), Json::Array(items)));
    proof {
        lemma_fields_view_len(f@);
        assert(fields_view(f@) =~= seq![("manifest"@, JsonV::Str(manifest@)), ("roots_restored"@, JsonV::Array(iv))]);
    }
    Json::Object(f)
}

} // verus!
