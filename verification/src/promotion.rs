//! Promotion planning: the per-store merge of a branch into trunk, the
//! binding of the merge candidate to the signed trace, and the bodies of
//! the events a promotion records.
//!
//! Filesystem stores merge three-way over their `fs_tree` objects; an
//! opaque sqlite store has no sub-file merge, so a branch-only change
//! installs the branch image and a change on both sides is a conflict card
//! on which trunk stands. Capturing roots, loading tree objects and writing
//! blobs are the caller's; everything decided from them is here.

use vstd::prelude::*;
use crate::json::{
    elems_view, fields_insert, fields_view, lemma_elems_view_len, lemma_elems_view_push, lemma_fields_view_len, str_eq, Json, JsonV,
};
use crate::json_text::json_text;
use crate::canon::{domain_err, hex_lower, jcs_bytes, jcs_canonical, sha256_hex, sha256_of, CanonError};
use crate::capability::cat;
use crate::promote::{
    conflicts_exact, conflicts_view, entries_at, is_diff, lemma_sorted_ext, lookup, merge_pick, ops_view, sorted_keys,
    three_way, tree_from_object, Conflict, ConflictV, Op, OpV,
};
use crate::snapshot::{
    compose_tree_object, composed_entries, fs_tree_json, pick_entry, safe_tree_path, source_entries, tree_object_ok,
    validate_tree_object, SnapError,
};
use crate::authority::BrokerError;
use crate::trace::EventV;

verus! {

// ---------------------------------------------------------------------
// Plans
// ---------------------------------------------------------------------

/// One store's merge plan.
#[derive(Debug)]
pub struct StorePlan {
    pub store: String,
    pub base: String,
    pub branch: String,
    pub trunk: String,
    /// Root to install on trunk; `None` when trunk already holds the merge
    /// result.
    pub install: Option<String>,
    /// What the agent did in this store.
    pub ops: Vec<Op>,
    /// Paths where both sides changed differently; trunk won each.
    pub conflicts: Vec<Conflict>,
    /// For a filesystem store, the canonical bytes of the merged `fs_tree`
    /// object, to be written to the content store under its address.
    pub tree_bytes: Option<Vec<u8>>,
}

/// A merge plan over every root of a manifest, in the manifest's order.
#[derive(Debug)]
pub struct MergePlan {
    pub stores: Vec<StorePlan>,
    /// The stores' operations, store by store.
    pub ops: Vec<Op>,
    /// The stores' conflicts, store by store.
    pub conflicts: Vec<Conflict>,
}

// ---------------------------------------------------------------------
// Opaque (sqlite) stores
// ---------------------------------------------------------------------

/// The root an opaque store installs: the branch image when only the agent
/// changed it; nothing when the agent changed nothing, both sides agree, or
/// both changed (trunk stands).
pub open spec fn sqlite_install(base: Seq<char>, branch: Seq<char>, trunk: Seq<char>) -> Option<Seq<char>> {
    if branch == base || branch == trunk {
        None
    } else if trunk == base {
        Some(branch)
    } else {
        None
    }
}

/// The operation an opaque store's merge records.
pub open spec fn sqlite_ops(store: Seq<char>, base: Seq<char>, branch: Seq<char>, trunk: Seq<char>) -> Seq<OpV> {
    if branch != base && branch != trunk && trunk == base {
        seq![OpV::Modify(store + " (whole store)"@)]
    } else {
        Seq::empty()
    }
}

/// The conflict card an opaque store's merge records.
pub open spec fn sqlite_conflicts(store: Seq<char>, base: Seq<char>, branch: Seq<char>, trunk: Seq<char>) -> Seq<ConflictV> {
    if branch != base && branch != trunk && trunk != base {
        seq![ConflictV {
            path: store + " (opaque sqlite, whole store)"@,
            base: Some(base),
            branch: Some(branch),
            trunk: Some(trunk),
            resolution: "trunk_wins"@,
        }]
    } else {
        Seq::empty()
    }
}

/// Plan the merge of an opaque sqlite store from its three roots.
pub fn plan_sqlite_store(store: &str, base: &str, branch: &str, trunk: &str) -> (r: StorePlan)
    ensures
        r.store@ == store@,
        r.base@ == base@,
        r.branch@ == branch@,
        r.trunk@ == trunk@,
        opt_seq(r.install) == sqlite_install(base@, branch@, trunk@),
        ops_view(r.ops@) == sqlite_ops(store@, base@, branch@, trunk@),
        conflicts_view(r.conflicts@) == sqlite_conflicts(store@, base@, branch@, trunk@),
        r.tree_bytes is None,
{
    let mut ops: Vec<Op> = Vec::new();
    let mut conflicts: Vec<Conflict> = Vec::new();
    let install = if str_eq(branch, base) || str_eq(branch, trunk) {
        None
    } else if str_eq(trunk, base) {
        ops.push(Op::Modify { path: cat(store, " (whole store)") });
        Some(branch.to_owned())
    } else {
        conflicts.push(Conflict {
            path: cat(store, " (opaque sqlite, whole store)"),
            base: Some(base.to_owned()),
            branch: Some(branch.to_owned()),
            trunk: Some(trunk.to_owned()),
            resolution: "trunk_wins",
        });
        None
    };
    proof {
        reveal_strlit("trunk_wins");
        assert(ops_view(ops@) =~= sqlite_ops(store@, base@, branch@, trunk@));
        assert(conflicts_view(conflicts@) =~= sqlite_conflicts(store@, base@, branch@, trunk@));
    }
    StorePlan {
        store: store.to_owned(),
        base: base.to_owned(),
        branch: branch.to_owned(),
        trunk: trunk.to_owned(),
        install,
        ops,
        conflicts,
        tree_bytes: None,
    }
}

/// An optional string as characters.
pub open spec fn opt_seq(o: Option<String>) -> Option<Seq<char>> {
    match o {
        Some(s) => Some(s@),
        None => None,
    }
}

// ---------------------------------------------------------------------
// Filesystem stores
// ---------------------------------------------------------------------

/// The hash an `fs_tree` object records for a path.
pub open spec fn object_at(obj: JsonV, q: Seq<char>) -> Option<Seq<char>> {
    match obj.at("entries"@).as_array() {
        Some(items) => entries_at(items, q),
        None => None,
    }
}

/// The tree an `fs_tree` object describes, as path-ordered entries.
pub open spec fn object_tree(obj: JsonV) -> Seq<(Seq<char>, Seq<char>)> {
    choose|m: Seq<(Seq<char>, Seq<char>)>| sorted_keys(m) && forall|q: Seq<char>| #[trigger] lookup(m, q) == object_at(obj, q)
}

/// The three-way merge of three `fs_tree` objects, as path-ordered
/// entries: at each path, the merge pick of the three sides.
pub open spec fn merged_tree(base: JsonV, branch: JsonV, trunk: JsonV) -> Seq<(Seq<char>, Seq<char>)> {
    choose|m: Seq<(Seq<char>, Seq<char>)>| sorted_keys(m) && forall|q: Seq<char>| #[trigger] lookup(m, q)
        == merge_pick(object_at(base, q), object_at(branch, q), object_at(trunk, q))
}

/// The entries the merged tree's metadata is taken from: trunk's, then
/// the branch's, then the base's.
pub open spec fn merge_sources(base: JsonV, branch: JsonV, trunk: JsonV) -> Seq<JsonV> {
    source_entries(seq![trunk, branch, base])
}

/// Every merged path is safe and found in a source tree.
pub open spec fn composable(base: JsonV, branch: JsonV, trunk: JsonV) -> bool {
    let m = merged_tree(base, branch, trunk);
    forall|i: int| 0 <= i < m.len() ==> safe_tree_path(#[trigger] m[i].0)
        && pick_entry(merge_sources(base, branch, trunk), m[i].0, m[i].1) is Some
}

/// The merged `fs_tree` object.
pub open spec fn composed_tree(base: JsonV, branch: JsonV, trunk: JsonV) -> JsonV {
    fs_tree_json(composed_entries(merged_tree(base, branch, trunk), merge_sources(base, branch, trunk)))
}

/// Canonical (RFC 8785) bytes of a JSON value, when it has them.
pub open spec fn jcs_of(v: JsonV) -> Option<Seq<u8>> {
    if domain_err(v, Seq::empty()) is None {
        jcs_canonical(json_text(v))
    } else {
        None
    }
}

/// The content address of some bytes.
pub open spec fn address_of(bytes: Seq<u8>) -> Seq<char> {
    "sha256:"@ + hex_lower(sha256_of(bytes))
}

/// Whether a filesystem store's merge can be planned: all three tree
/// objects are well formed, the merge composes, and its object has
/// canonical bytes.
pub open spec fn fs_plannable(base: JsonV, branch: JsonV, trunk: JsonV) -> bool {
    &&& tree_object_ok(base)
    &&& tree_object_ok(branch)
    &&& tree_object_ok(trunk)
    &&& composable(base, branch, trunk)
    &&& jcs_of(composed_tree(base, branch, trunk)) is Some
}

/// A filesystem store's plan, given its tree objects: the agent's
/// operations and the conflict cards of the three-way merge, the merged
/// object's canonical bytes, and its address installed unless trunk
/// already has it.
pub open spec fn fs_plan_ok(p: StorePlan, base: JsonV, branch: JsonV, trunk: JsonV) -> bool {
    let bytes = jcs_of(composed_tree(base, branch, trunk))->0;
    &&& is_diff(object_tree(base), object_tree(branch), ops_view(p.ops@))
    &&& ops_view(p.ops@) == crate::promote::diff_ops(object_tree(base), object_tree(branch))
    &&& conflicts_exact(conflicts_view(p.conflicts@), object_tree(base), object_tree(branch), object_tree(trunk))
    &&& p.tree_bytes matches Some(b) && b@ == bytes
    &&& opt_seq(p.install) == (if address_of(bytes) == p.trunk@ {
        None
    } else {
        Some(address_of(bytes))
    })
}

/// A tree whose lookups are an object's is that object's tree.
pub proof fn lemma_tree_of_object(t: crate::promote::Tree, obj: JsonV)
    requires
        t.wf(),
        forall|q: Seq<char>| #[trigger] t.at(q) == object_at(obj, q),
    ensures
        t@ == object_tree(obj),
{
    let m = object_tree(obj);
    assert(sorted_keys(t@) && forall|q: Seq<char>| #[trigger] lookup(t@, q) == object_at(obj, q)) by {
        assert forall|q: Seq<char>| #[trigger] lookup(t@, q) == object_at(obj, q) by {
            assert(t.at(q) == object_at(obj, q));
        }
    }
    assert(sorted_keys(m) && forall|q: Seq<char>| #[trigger] lookup(m, q) == object_at(obj, q));
    lemma_sorted_ext(t@, m);
}

proof fn lemma_merged_tree(t: crate::promote::Tree, base: JsonV, branch: JsonV, trunk: JsonV)
    requires
        t.wf(),
        forall|q: Seq<char>| #[trigger] t.at(q) == merge_pick(object_at(base, q), object_at(branch, q), object_at(trunk, q)),
    ensures
        t@ == merged_tree(base, branch, trunk),
{
    let m = merged_tree(base, branch, trunk);
    assert(sorted_keys(t@) && forall|q: Seq<char>| #[trigger] lookup(t@, q)
        == merge_pick(object_at(base, q), object_at(branch, q), object_at(trunk, q))) by {
        assert forall|q: Seq<char>| #[trigger] lookup(t@, q) == merge_pick(object_at(base, q), object_at(branch, q), object_at(trunk, q)) by {
            assert(t.at(q) == merge_pick(object_at(base, q), object_at(branch, q), object_at(trunk, q)));
        }
    }
    assert(sorted_keys(m) && forall|q: Seq<char>| #[trigger] lookup(m, q)
        == merge_pick(object_at(base, q), object_at(branch, q), object_at(trunk, q)));
    lemma_sorted_ext(t@, m);
}

/// Plan the merge of a filesystem store from its three roots and their
/// loaded `fs_tree` objects. Each object is validated before it is used.
#[verifier::rlimit(30)]
pub fn plan_fs_store(
    store: &str,
    base: &str,
    branch: &str,
    trunk: &str,
    base_obj: &Json,
    branch_obj: &Json,
    trunk_obj: &Json,
) -> (r: Result<StorePlan, BrokerError>)
    ensures
        r is Ok <==> fs_plannable(base_obj@, branch_obj@, trunk_obj@),
        r matches Err(e) ==> (e is Snapshot || e is Canon),
        r matches Err(e) ==> (e is Canon <==> (tree_object_ok(base_obj@) && tree_object_ok(branch_obj@)
            && tree_object_ok(trunk_obj@) && composable(base_obj@, branch_obj@, trunk_obj@))),
        r matches Ok(p) ==> {
            &&& p.store@ == store@
            &&& p.base@ == base@
            &&& p.branch@ == branch@
            &&& p.trunk@ == trunk@
            &&& fs_plan_ok(p, base_obj@, branch_obj@, trunk_obj@)
        },
{
    match validate_tree_object(base_obj, base) {
        Err(e) => return Err(BrokerError::Snapshot(e)),
        Ok(()) => {},
    }
    match validate_tree_object(branch_obj, branch) {
        Err(e) => return Err(BrokerError::Snapshot(e)),
        Ok(()) => {},
    }
    match validate_tree_object(trunk_obj, trunk) {
        Err(e) => return Err(BrokerError::Snapshot(e)),
        Ok(()) => {},
    }
    let bt = tree_from_object(base_obj);
    let brt = tree_from_object(branch_obj);
    let tt = tree_from_object(trunk_obj);
    proof {
        lemma_tree_of_object(bt, base_obj@);
        lemma_tree_of_object(brt, branch_obj@);
        lemma_tree_of_object(tt, trunk_obj@);
    }
    let result = three_way(&bt, &brt, &tt);
    proof {
        assert forall|q: Seq<char>| #[trigger] result.merged.at(q)
            == merge_pick(object_at(base_obj@, q), object_at(branch_obj@, q), object_at(trunk_obj@, q)) by {
            assert(result.merged.at(q) == merge_pick(bt.at(q), brt.at(q), tt.at(q)));
        }
        lemma_merged_tree(result.merged, base_obj@, branch_obj@, trunk_obj@);
    }
    let mut sources: Vec<Json> = Vec::new();
    sources.push(trunk_obj.deep_clone());
    sources.push(branch_obj.deep_clone());
    sources.push(base_obj.deep_clone());
    proof {
        lemma_elems_view_len(sources@);
        assert(elems_view(sources@) =~= seq![trunk_obj@, branch_obj@, base_obj@]);
    }
    let tree = match compose_tree_object(&result.merged, &sources) {
        Err(e) => return Err(BrokerError::Snapshot(e)),
        Ok(t) => t,
    };
    let bytes = match jcs_bytes(&tree) {
        Err(e) => return Err(BrokerError::Canon(e)),
        Ok(b) => b,
    };
    let root = sha256_hex(bytes.as_slice());
    let install = if str_eq(root.as_str(), trunk) {
        None
    } else {
        Some(root)
    };
    Ok(StorePlan {
        store: store.to_owned(),
        base: base.to_owned(),
        branch: branch.to_owned(),
        trunk: trunk.to_owned(),
        install,
        ops: result.ops,
        conflicts: result.conflicts,
        tree_bytes: Some(bytes),
    })
}


// ---------------------------------------------------------------------
// Every root of a manifest
// ---------------------------------------------------------------------

/// Names to values, as characters.
pub open spec fn named_jsons(v: Seq<(String, Json)>) -> Seq<(Seq<char>, JsonV)> {
    v.map_values(|p: (String, Json)| (p.0@, p.1@))
}

/// Registered stores by name.
pub open spec fn specs_by_name(v: Seq<crate::snapshot::StoreSpec>) -> Seq<(Seq<char>, crate::snapshot::StoreSpec)> {
    v.map_values(|x: crate::snapshot::StoreSpec| (x.store@, x))
}

/// The roots a manifest records (`state.roots`), empty when absent.
pub open spec fn manifest_roots(man: JsonV) -> Seq<JsonV> {
    match man.at("state"@).at("roots"@).as_array() {
        Some(a) => a,
        None => Seq::empty(),
    }
}

/// A string field of a root entry, empty when absent.
pub open spec fn str_or_empty(e: JsonV, key: Seq<char>) -> Seq<char> {
    match e.str_at(key) {
        Some(s) => s,
        None => Seq::empty(),
    }
}

/// Why one root of a manifest cannot be planned.
pub enum MergeFault {
    /// The store is unknown, or lacks a pinned branch root (the message).
    Unknown(Seq<char>),
    /// A root was not captured, a tree object is missing or malformed, or
    /// the merged tree does not compose.
    Snapshot,
    /// The merged tree has no canonical bytes.
    Canon,
}

/// What refuses the root `e` of a manifest, if anything: the registered
/// stores, the pinned branch roots, the trunk roots captured now, and the
/// loaded tree objects by address.
pub open spec fn store_fault(
    e: JsonV,
    specs: Seq<crate::snapshot::StoreSpec>,
    branch_roots: Seq<(Seq<char>, Seq<char>)>,
    trunk_roots: Seq<(Seq<char>, Seq<char>)>,
    trees: Seq<(Seq<char>, JsonV)>,
) -> Option<MergeFault> {
    let store = str_or_empty(e, "store"@);
    let base = str_or_empty(e, "root"@);
    match crate::authority::assoc_get(specs_by_name(specs), store) {
        None => Some(MergeFault::Unknown(store)),
        Some(spec) => match crate::authority::assoc_get(branch_roots, store) {
            None => Some(MergeFault::Unknown(store + " has no pinned branch root"@)),
            Some(branch) => match crate::authority::assoc_get(trunk_roots, store) {
                None => Some(MergeFault::Snapshot),
                Some(trunk) => match spec.kind {
                    crate::snapshot::StoreKind::Sqlite => None,
                    crate::snapshot::StoreKind::Fs => {
                        let b = crate::authority::assoc_get(trees, base);
                        let br = crate::authority::assoc_get(trees, branch);
                        let t = crate::authority::assoc_get(trees, trunk);
                        if b is None || br is None || t is None {
                            Some(MergeFault::Snapshot)
                        } else if !(tree_object_ok(b->0) && tree_object_ok(br->0) && tree_object_ok(t->0)
                            && composable(b->0, br->0, t->0)) {
                            Some(MergeFault::Snapshot)
                        } else if jcs_of(composed_tree(b->0, br->0, t->0)) is None {
                            Some(MergeFault::Canon)
                        } else {
                            None
                        }
                    },
                },
            },
        },
    }
}

/// `err` is the error a fault is reported as.
pub open spec fn fault_is(err: BrokerError, f: MergeFault) -> bool {
    match f {
        MergeFault::Unknown(m) => err matches BrokerError::UnknownStore(x) && x@ == m,
        MergeFault::Snapshot => err is Snapshot,
        MergeFault::Canon => err is Canon,
    }
}

/// `err` reports the fault `f`, and there is one.
pub open spec fn first_fault_is(err: BrokerError, f: Option<MergeFault>) -> bool {
    match f {
        Some(x) => fault_is(err, x),
        None => false,
    }
}

/// The plan of the root `e`, given that nothing refuses it.
pub open spec fn store_plan_ok(
    p: StorePlan,
    e: JsonV,
    specs: Seq<crate::snapshot::StoreSpec>,
    branch_roots: Seq<(Seq<char>, Seq<char>)>,
    trunk_roots: Seq<(Seq<char>, Seq<char>)>,
    trees: Seq<(Seq<char>, JsonV)>,
) -> bool {
    let store = str_or_empty(e, "store"@);
    let base = str_or_empty(e, "root"@);
    let spec = crate::authority::assoc_get(specs_by_name(specs), store)->0;
    let branch = crate::authority::assoc_get(branch_roots, store)->0;
    let trunk = crate::authority::assoc_get(trunk_roots, store)->0;
    &&& p.store@ == store
    &&& p.base@ == base
    &&& p.branch@ == branch
    &&& p.trunk@ == trunk
    &&& match spec.kind {
        crate::snapshot::StoreKind::Sqlite => {
            &&& opt_seq(p.install) == sqlite_install(base, branch, trunk)
            &&& ops_view(p.ops@) == sqlite_ops(store, base, branch, trunk)
            &&& conflicts_view(p.conflicts@) == sqlite_conflicts(store, base, branch, trunk)
            &&& p.tree_bytes is None
        },
        crate::snapshot::StoreKind::Fs => fs_plan_ok(
            p,
            crate::authority::assoc_get(trees, base)->0,
            crate::authority::assoc_get(trees, branch)->0,
            crate::authority::assoc_get(trees, trunk)->0,
        ),
    }
}

/// The stores' operations, store by store.
pub open spec fn flat_ops(s: Seq<StorePlan>) -> Seq<OpV>
    decreases s.len(),
{
    if s.len() == 0 {
        Seq::empty()
    } else {
        flat_ops(s.drop_last()) + ops_view(s.last().ops@)
    }
}

/// The stores' conflicts, store by store.
pub open spec fn flat_conflicts(s: Seq<StorePlan>) -> Seq<ConflictV>
    decreases s.len(),
{
    if s.len() == 0 {
        Seq::empty()
    } else {
        flat_conflicts(s.drop_last()) + conflicts_view(s.last().conflicts@)
    }
}

/// The position of the first entry named `k`.
fn find_named<V>(v: &Vec<(String, V)>, k: &str) -> (r: Option<usize>)
    ensures
        match r {
            Some(i) => i < v@.len() && v@[i as int].0@ == k@ && forall|j: int| 0 <= j < i ==> (#[trigger] v@[j]).0@ != k@,
            None => forall|j: int| 0 <= j < v@.len() ==> (#[trigger] v@[j]).0@ != k@,
        },
{
    let mut i: usize = 0;
    while i < v.len()
        invariant
            i <= v.len(),
            forall|j: int| 0 <= j < i ==> (#[trigger] v@[j]).0@ != k@,
        decreases v.len() - i,
    {
        if str_eq(v[i].0.as_str(), k) {
            return Some(i);
        }
        i += 1;
    }
    None
}

fn find_spec(v: &Vec<crate::snapshot::StoreSpec>, k: &str) -> (r: Option<usize>)
    ensures
        match r {
            Some(i) => i < v@.len() && crate::authority::assoc_get(specs_by_name(v@), k@) == Some(v@[i as int]),
            None => crate::authority::assoc_get(specs_by_name(v@), k@) is None,
        },
{
    let ghost m = specs_by_name(v@);
    let mut i: usize = 0;
    while i < v.len()
        invariant
            i <= v.len(),
            m == specs_by_name(v@),
            forall|j: int| 0 <= j < i ==> (#[trigger] m[j]).0 != k@,
        decreases v.len() - i,
    {
        if str_eq(v[i].store.as_str(), k) {
            proof { crate::authority::lemma_assoc_first(m, k@, i as int); }
            return Some(i);
        }
        i += 1;
    }
    proof { crate::authority::lemma_assoc_none(m, k@); }
    None
}

fn root_of<'a>(v: &'a Vec<(String, String)>, k: &str) -> (r: Option<&'a String>)
    ensures
        match r {
            Some(x) => crate::authority::assoc_get(crate::evaluate::pairs_view(v@), k@) == Some(x@),
            None => crate::authority::assoc_get(crate::evaluate::pairs_view(v@), k@) is None,
        },
{
    let ghost m = crate::evaluate::pairs_view(v@);
    match find_named(v, k) {
        Some(i) => {
            proof {
                assert forall|j: int| 0 <= j < i implies (#[trigger] m[j]).0 != k@ by {
                    assert(v@[j].0@ != k@);
                }
                crate::authority::lemma_assoc_first(m, k@, i as int);
            }
            Some(&v[i].1)
        },
        None => {
            proof {
                assert forall|j: int| 0 <= j < m.len() implies (#[trigger] m[j]).0 != k@ by {
                    assert(v@[j].0@ != k@);
                }
                crate::authority::lemma_assoc_none(m, k@);
            }
            None
        },
    }
}

fn tree_of<'a>(v: &'a Vec<(String, Json)>, k: &str) -> (r: Option<&'a Json>)
    ensures
        match r {
            Some(x) => crate::authority::assoc_get(named_jsons(v@), k@) == Some(x@),
            None => crate::authority::assoc_get(named_jsons(v@), k@) is None,
        },
{
    let ghost m = named_jsons(v@);
    match find_named(v, k) {
        Some(i) => {
            proof {
                assert forall|j: int| 0 <= j < i implies (#[trigger] m[j]).0 != k@ by {
                    assert(v@[j].0@ != k@);
                }
                crate::authority::lemma_assoc_first(m, k@, i as int);
            }
            Some(&v[i].1)
        },
        None => {
            proof {
                assert forall|j: int| 0 <= j < m.len() implies (#[trigger] m[j]).0 != k@ by {
                    assert(v@[j].0@ != k@);
                }
                crate::authority::lemma_assoc_none(m, k@);
            }
            None
        },
    }
}

fn str_field_or_empty(e: &Json, key: &str) -> (r: String)
    ensures
        r@ == str_or_empty(e@, key@),
{
    match e.str_at(key) {
        Some(s) => s.to_owned(),
        None => String::new(),
    }
}

/// Plan one root of a manifest.
pub fn plan_store(
    e: &Json,
    specs: &Vec<crate::snapshot::StoreSpec>,
    branch_roots: &Vec<(String, String)>,
    trunk_roots: &Vec<(String, String)>,
    trees: &Vec<(String, Json)>,
) -> (r: Result<StorePlan, BrokerError>)
    ensures
        match store_fault(e@, specs@, crate::evaluate::pairs_view(branch_roots@), crate::evaluate::pairs_view(trunk_roots@),
            named_jsons(trees@)) {
            Some(f) => r matches Err(err) && fault_is(err, f),
            None => r matches Ok(p) && store_plan_ok(p, e@, specs@, crate::evaluate::pairs_view(branch_roots@),
                crate::evaluate::pairs_view(trunk_roots@), named_jsons(trees@)),
        },
{
    proof { reveal_strlit(" has no pinned branch root"); }
    let store = str_field_or_empty(e, "store");
    let base = str_field_or_empty(e, "root");
    let si = match find_spec(specs, store.as_str()) {
        None => return Err(BrokerError::UnknownStore(store)),
        Some(i) => i,
    };
    let branch = match root_of(branch_roots, store.as_str()) {
        None => return Err(BrokerError::UnknownStore(cat(store.as_str(), " has no pinned branch root"))),
        Some(b) => b,
    };
    let trunk = match root_of(trunk_roots, store.as_str()) {
        None => return Err(BrokerError::Snapshot(SnapError::MissingRoot(specs[si].path.clone()))),
        Some(t) => t,
    };
    match specs[si].kind {
        crate::snapshot::StoreKind::Sqlite => Ok(plan_sqlite_store(store.as_str(), base.as_str(), branch.as_str(), trunk.as_str())),
        crate::snapshot::StoreKind::Fs => {
            let b = match tree_of(trees, base.as_str()) {
                None => return Err(BrokerError::Snapshot(SnapError::MissingBlob(base))),
                Some(x) => x,
            };
            let br = match tree_of(trees, branch.as_str()) {
                None => return Err(BrokerError::Snapshot(SnapError::MissingBlob(branch.clone()))),
                Some(x) => x,
            };
            let t = match tree_of(trees, trunk.as_str()) {
                None => return Err(BrokerError::Snapshot(SnapError::MissingBlob(trunk.clone()))),
                Some(x) => x,
            };
            plan_fs_store(store.as_str(), base.as_str(), branch.as_str(), trunk.as_str(), b, br, t)
        },
    }
}

/// The store plans' operations and conflicts, store by store.
fn append_store_changes(p: &StorePlan, ops: &mut Vec<Op>, conflicts: &mut Vec<Conflict>)
    ensures
        ops_view(final(ops)@) == ops_view(old(ops)@) + ops_view(p.ops@),
        conflicts_view(final(conflicts)@) == conflicts_view(old(conflicts)@) + conflicts_view(p.conflicts@),
{
    let ghost o0 = ops_view(ops@);
    let ghost c0 = conflicts_view(conflicts@);
    let mut i: usize = 0;
    while i < p.ops.len()
        invariant
            i <= p.ops@.len(),
            ops_view(ops@) == o0 + ops_view(p.ops@).take(i as int),
        decreases p.ops@.len() - i,
    {
        let ghost prev = ops@;
        ops.push(p.ops[i].copy());
        proof {
            assert(ops_view(ops@) =~= ops_view(prev).push(p.ops@[i as int]@));
            assert(ops_view(p.ops@).take(i + 1) =~= ops_view(p.ops@).take(i as int).push(p.ops@[i as int]@));
            assert(ops_view(ops@) =~= o0 + ops_view(p.ops@).take(i + 1));
        }
        i += 1;
    }
    assert(ops_view(p.ops@).take(i as int) =~= ops_view(p.ops@));
    let mut k: usize = 0;
    while k < p.conflicts.len()
        invariant
            k <= p.conflicts@.len(),
            conflicts_view(conflicts@) == c0 + conflicts_view(p.conflicts@).take(k as int),
        decreases p.conflicts@.len() - k,
    {
        let c = &p.conflicts[k];
        let ghost prev = conflicts@;
        conflicts.push(Conflict {
            path: c.path.clone(),
            base: crate::trace::copy_opt(&c.base),
            branch: crate::trace::copy_opt(&c.branch),
            trunk: crate::trace::copy_opt(&c.trunk),
            resolution: c.resolution,
        });
        proof {
            assert(conflicts_view(conflicts@) =~= conflicts_view(prev).push(p.conflicts@[k as int].view()));
            assert(conflicts_view(p.conflicts@).take(k + 1) =~= conflicts_view(p.conflicts@).take(k as int).push(p.conflicts@[k as int].view()));
            assert(conflicts_view(conflicts@) =~= c0 + conflicts_view(p.conflicts@).take(k + 1));
        }
        k += 1;
    }
    assert(conflicts_view(p.conflicts@).take(k as int) =~= conflicts_view(p.conflicts@));
}

/// Plan the merge of every root of a manifest against trunk as captured
/// now, the agent side pinned to immutable roots. The first root that
/// cannot be planned refuses the whole merge.
pub fn compute_merge_from_roots(
    man: &Json,
    specs: &Vec<crate::snapshot::StoreSpec>,
    branch_roots: &Vec<(String, String)>,
    trunk_roots: &Vec<(String, String)>,
    trees: &Vec<(String, Json)>,
) -> (r: Result<MergePlan, BrokerError>)
    ensures
        ({
            let roots = manifest_roots(man@);
            let br = crate::evaluate::pairs_view(branch_roots@);
            let tr = crate::evaluate::pairs_view(trunk_roots@);
            let tv = named_jsons(trees@);
            &&& r is Ok <==> forall|i: int| 0 <= i < roots.len() ==> store_fault(#[trigger] roots[i], specs@, br, tr, tv) is None
            &&& r matches Ok(plan) ==> {
                &&& plan.stores@.len() == roots.len()
                &&& forall|i: int| 0 <= i < roots.len() ==> store_plan_ok(#[trigger] plan.stores@[i], roots[i], specs@, br, tr, tv)
                &&& ops_view(plan.ops@) == flat_ops(plan.stores@)
                &&& conflicts_view(plan.conflicts@) == flat_conflicts(plan.stores@)
            }
            &&& r matches Err(err) ==> exists|i: int| 0 <= i < roots.len() && (forall|j: int| 0 <= j < i
                ==> store_fault(#[trigger] roots[j], specs@, br, tr, tv) is None)
                && first_fault_is(err, store_fault(roots[i], specs@, br, tr, tv))
        }),
{
    let ghost roots = manifest_roots(man@);
    let ghost br = crate::evaluate::pairs_view(branch_roots@);
    let ghost tr = crate::evaluate::pairs_view(trunk_roots@);
    let ghost tv = named_jsons(trees@);
    let empty: Vec<Json> = Vec::new();
    let items: &Vec<Json> = match man.get("state") {
        Some(st) => match st.get("roots") {
            Some(rs) => match rs.as_array() {
                Some(a) => a,
                None => &empty,
            },
            None => &empty,
        },
        None => &empty,
    };
    proof {
        lemma_elems_view_len(items@);
        lemma_elems_view_len(empty@);
        assert(elems_view(empty@) =~= Seq::<JsonV>::empty());
    }
    assert(elems_view(items@) == roots);
    let mut stores: Vec<StorePlan> = Vec::new();
    let mut ops: Vec<Op> = Vec::new();
    let mut conflicts: Vec<Conflict> = Vec::new();
    let mut i: usize = 0;
    while i < items.len()
        invariant
            i <= items@.len(),
            elems_view(items@) == roots,
            roots.len() == items@.len(),
            stores@.len() == i,
            forall|j: int| 0 <= j < i ==> store_fault(#[trigger] roots[j], specs@, br, tr, tv) is None,
            forall|j: int| 0 <= j < i ==> store_plan_ok(#[trigger] stores@[j], roots[j], specs@, br, tr, tv),
            ops_view(ops@) == flat_ops(stores@),
            conflicts_view(conflicts@) == flat_conflicts(stores@),
        decreases items@.len() - i,
    {
        assert(roots[i as int] == items@[i as int]@);
        let p = match plan_store(&items[i], specs, branch_roots, trunk_roots, trees) {
            Err(e) => {
                assert(store_fault(roots[i as int], specs@, br, tr, tv) is Some);
                return Err(e);
            },
            Ok(p) => p,
        };
        append_store_changes(&p, &mut ops, &mut conflicts);
        let ghost before = stores@;
        stores.push(p);
        proof {
            assert(stores@.drop_last() =~= before);
        }
        i += 1;
    }
    Ok(MergePlan { stores, ops, conflicts })
}

// ---------------------------------------------------------------------
// Binding the candidate to the signed trace
// ---------------------------------------------------------------------

/// The first root entry of `roots` naming `store`.
pub open spec fn root_entry_for(roots: Seq<JsonV>, store: Seq<char>) -> Option<JsonV>
    decreases roots.len(),
{
    if roots.len() == 0 {
        None
    } else if roots[0].str_at("store"@) == Some(store) {
        Some(roots[0])
    } else {
        root_entry_for(roots.drop_first(), store)
    }
}

/// The root the trace attests for a store's branch: the final tool call's
/// `state_root_after` entry for `branch:<store>`, or, with no tool call,
/// the manifest's base root.
pub open spec fn attested_root(last: Option<EventV>, man: JsonV, store: Seq<char>) -> Result<Seq<char>, Seq<char>> {
    match last {
        Some(ev) => match ev.raw.at("body"@).at("state_root_after"@).str_at("branch:"@ + store) {
            Some(x) => Ok(x),
            None => Err("final tool_call "@ + ev.id + " has no branch root for "@ + store),
        },
        None => match root_entry_for(manifest_roots(man), store) {
            Some(e) => match e.str_at("root"@) {
                Some(x) => Ok(x),
                None => Err("manifest has no base root for "@ + store),
            },
            None => Err("manifest has no base root for "@ + store),
        },
    }
}

/// Check each store's branch root against what the trace attests, in
/// plan order: the attested roots by store, or the first violation.
pub open spec fn tip_check(stores: Seq<(Seq<char>, Seq<char>)>, last: Option<EventV>, man: JsonV) -> Result<Seq<(Seq<char>, JsonV)>, Seq<char>>
    decreases stores.len(),
{
    if stores.len() == 0 {
        Ok(Seq::empty())
    } else {
        match tip_check(stores.drop_last(), last, man) {
            Err(m) => Err(m),
            Ok(f) => {
                let st = stores.last().0;
                let branch = stores.last().1;
                match attested_root(last, man, st) {
                    Err(m) => Err(m),
                    Ok(x) => if branch != x {
                        Err("untraced branch divergence in "@ + st + ": trace attests "@ + x + ", branch is "@ + branch)
                    } else {
                        Ok(fields_insert(f, st, JsonV::Str(x)))
                    },
                }
            },
        }
    }
}

proof fn lemma_tip_err_sticks(s: Seq<(Seq<char>, Seq<char>)>, k: int, last: Option<EventV>, man: JsonV)
    requires
        0 <= k <= s.len(),
        tip_check(s.take(k), last, man) is Err,
    ensures
        tip_check(s, last, man) == tip_check(s.take(k), last, man),
    decreases s.len() - k,
{
    if k < s.len() {
        assert(s.take(k + 1).drop_last() =~= s.take(k));
        lemma_tip_err_sticks(s, k + 1, last, man);
    } else {
        assert(s.take(k) =~= s);
    }
}

/// Each store plan's store and branch root.
pub open spec fn plan_branches(s: Seq<StorePlan>) -> Seq<(Seq<char>, Seq<char>)> {
    s.map_values(|p: StorePlan| (p.store@, p.branch@))
}

/// The branch-tip report.
pub open spec fn tip_report(last: Option<EventV>, roots: Seq<(Seq<char>, JsonV)>) -> JsonV {
    JsonV::Object(seq![
        ("last_tool_call"@, match last {
            Some(ev) => JsonV::Str(ev.id),
            None => JsonV::Null,
        }),
        ("ok"@, JsonV::Bool(true)),
        ("roots"@, JsonV::Object(roots)),
    ])
}

/// An optional event's fields.
pub open spec fn opt_event_view(o: Option<crate::trace::VerifiedEvent>) -> Option<EventV> {
    match o {
        Some(e) => Some(e.view()),
        None => None,
    }
}

fn attested_root_of(last: &Option<crate::trace::VerifiedEvent>, man: &Json, store: &str) -> (r: Result<String, String>)
    ensures
        ({
            let l = opt_event_view(*last);
            match attested_root(l, man@, store@) {
                Ok(x) => r matches Ok(y) && y@ == x,
                Err(m) => r matches Err(y) && y@ == m,
            }
        }),
{
    proof {
        reveal_strlit("branch:");
        reveal_strlit("root");
        reveal_strlit("store");
    }
    match last {
        Some(ev) => {
            let key = cat("branch:", store);
            let found = match ev.raw.get("body") {
                Some(b) => match b.get("state_root_after") {
                    Some(sr) => sr.str_at(key.as_str()),
                    None => None,
                },
                None => None,
            };
            match found {
                Some(x) => Ok(x.to_owned()),
                None => Err(cat(&cat(&cat("final tool_call ", ev.id.as_str()), " has no branch root for "), store)),
            }
        },
        None => {
            let empty: Vec<Json> = Vec::new();
            let items: &Vec<Json> = match man.get("state") {
                Some(st) => match st.get("roots") {
                    Some(rs) => match rs.as_array() {
                        Some(a) => a,
                        None => &empty,
                    },
                    None => &empty,
                },
                None => &empty,
            };
            proof {
                lemma_elems_view_len(items@);
                lemma_elems_view_len(empty@);
                assert(elems_view(empty@) =~= Seq::<JsonV>::empty());
            }
            let ghost roots = manifest_roots(man@);
            assert(elems_view(items@) == roots);
            let mut i: usize = 0;
            assert(roots.skip(0) =~= roots);
            while i < items.len()
                invariant
                    i <= items@.len(),
                    elems_view(items@) == roots,
                    roots.len() == items@.len(),
                    root_entry_for(roots, store@) == root_entry_for(roots.skip(i as int), store@),
                decreases items@.len() - i,
            {
                assert(roots.skip(i as int)[0] == items@[i as int]@);
                assert(roots.skip(i as int).drop_first() =~= roots.skip(i + 1));
                let hit = match items[i].str_at("store") {
                    Some(x) => str_eq(x, store),
                    None => false,
                };
                if hit {
                    return match items[i].str_at("root") {
                        Some(x) => Ok(x.to_owned()),
                        None => Err(cat("manifest has no base root for ", store)),
                    };
                }
                i += 1;
            }
            assert(roots.skip(i as int).len() == 0);
            Err(cat("manifest has no base root for ", store))
        },
    }
}

/// Bind the merge candidate to the signed trace: with no tool call in the
/// span, every store's branch must still equal the manifest's base root;
/// otherwise it must equal the final tool call's attested
/// `state_root_after`. Anything else is untraced state reaching promotion.
pub fn verify_branch_tip(
    events: &Vec<crate::trace::VerifiedEvent>,
    man: &Json,
    span: &str,
    plan: &MergePlan,
) -> (r: Result<Json, BrokerError>)
    ensures
        ({
            let last = crate::authority::last_tool_call(crate::authority::signed_sequence(crate::trace::events_view(events@), span@));
            match tip_check(plan_branches(plan.stores@), last, man@) {
                Ok(roots) => r matches Ok(j) && j@ == tip_report(last, roots),
                Err(m) => r matches Err(e) && e.view() == crate::authority::BrokerErrV::Violation(m),
            }
        }),
{
    let last = crate::authority::w11_final_tool_call(events, span);
    let ghost l = opt_event_view(last);
    assert(l == crate::authority::last_tool_call(crate::authority::signed_sequence(crate::trace::events_view(events@), span@)));
    let ghost sb = plan_branches(plan.stores@);
    let mut roots: Vec<(String, Json)> = Vec::new();
    let mut i: usize = 0;
    while i < plan.stores.len()
        invariant
            i <= plan.stores@.len(),
            sb == plan_branches(plan.stores@),
            tip_check(sb.take(i as int), l, man@) == Ok::<Seq<(Seq<char>, JsonV)>, Seq<char>>(fields_view(roots@)),
        decreases plan.stores@.len() - i,
    {
        let sp = &plan.stores[i];
        assert(sb.take(i + 1).drop_last() =~= sb.take(i as int));
        assert(sb.take(i + 1).last() == (sp.store@, sp.branch@));
        let expected = match attested_root_of(&last, man, sp.store.as_str()) {
            Err(m) => {
                proof { lemma_tip_err_sticks(sb, i + 1, l, man@); }
                return Err(BrokerError::GateTraceViolation(m));
            },
            Ok(x) => x,
        };
        if !str_eq(sp.branch.as_str(), expected.as_str()) {
            proof { lemma_tip_err_sticks(sb, i + 1, l, man@); }
            return Err(BrokerError::GateTraceViolation(cat(
                &cat(&cat(&cat(&cat("untraced branch divergence in ", sp.store.as_str()), ": trace attests "), expected.as_str()),
                    ", branch is "),
                sp.branch.as_str(),
            )));
        }
        crate::canon::insert_field(&mut roots, sp.store.clone(), Json::Str(expected));
        i += 1;
    }
    assert(sb.take(i as int) =~= sb);
    let mut f: Vec<(String, Json)> = Vec::new();
    let lj = match &last {
        Some(ev) => Json::Str(ev.id.clone()),
        None => Json::Null,
    };
    f.push(("last_tool_call".to_owned(), lj));
    f.push(("ok".to_owned(), Json::Bool(true)));
    let ghost rv = fields_view(roots@);
    f.push(("roots".to_owned(), Json::Object(roots)));
    proof {
        lemma_fields_view_len(f@);
        assert(fields_view(f@) =~= seq![
            ("last_tool_call"@, match l {
                Some(ev) => JsonV::Str(ev.id),
                None => JsonV::Null,
            }),
            ("ok"@, JsonV::Bool(true)),
            ("roots"@, JsonV::Object(rv)),
        ]);
    }
    Ok(Json::Object(f))
}

// ---------------------------------------------------------------------
// Parked promotions: the immutable candidate
// ---------------------------------------------------------------------

/// The digests that bind a parked promotion's candidate.
#[derive(Debug)]
pub struct PromotionBinding {
    /// Address of the canonical candidate (promotion id, manifest, preview
    /// and policy context).
    pub candidate_digest: String,
    /// Address of the canonical pinned branch roots.
    pub branch_roots_digest: String,
}

/// The policy under which promotions are parked for manual review.
pub open spec fn policy_context() -> Seq<char> {
    "default-policy/manual-review/v1"@
}

/// The candidate a parked promotion binds.
pub open spec fn candidate_json(id: i64, manifest: Seq<char>, preview: JsonV) -> JsonV {
    JsonV::Object(seq![
        ("manifest"@, JsonV::Str(manifest)),
        ("policy_context"@, JsonV::Str(policy_context())),
        ("preview"@, preview),
        ("promotion"@, JsonV::Int(id as int)),
    ])
}

/// The pinned branch roots of a preview, when it has them as a map.
pub open spec fn preview_branch_roots(preview: JsonV) -> Option<Seq<(Seq<char>, JsonV)>> {
    match preview.at("branch_roots"@) {
        JsonV::Object(f) => Some(f),
        _ => None,
    }
}

fn promotion_context() -> (r: String)
    ensures
        r@ == policy_context(),
{
    "default-policy/manual-review/v1".to_owned()
}

/// Compute the binding of a parked promotion's candidate: the digests of
/// its pinned branch roots and of the whole candidate. A preview without a
/// branch-root map has no immutable candidate.
pub fn w14_promotion_binding(id: i64, manifest: &str, preview: &Json) -> (r: Result<PromotionBinding, BrokerError>)
    ensures
        match preview_branch_roots(preview@) {
            None => r matches Err(e) && e.view() == crate::authority::BrokerErrV::MalformedPromotion {
                id,
                detail: "preview has no exact branch_roots map"@,
            },
            Some(br) => match (jcs_of(JsonV::Object(br)), jcs_of(candidate_json(id, manifest@, preview@))) {
                (Some(a), Some(b)) => r matches Ok(p) && p.branch_roots_digest@ == address_of(a)
                    && p.candidate_digest@ == address_of(b),
                _ => r matches Err(e) && e is Canon,
            },
        },
{
    let is_map = match preview.get("branch_roots") {
        Some(Json::Object(_)) => true,
        _ => false,
    };
    if !is_map {
        return Err(BrokerError::MalformedPromotion { id, detail: "preview has no exact branch_roots map".to_owned() });
    }
    let brj = match preview.get("branch_roots") {
        Some(v) => v.deep_clone(),
        None => Json::Null,
    };
    let brb = match jcs_bytes(&brj) {
        Err(e) => return Err(BrokerError::Canon(e)),
        Ok(b) => b,
    };
    let mut f: Vec<(String, Json)> = Vec::new();
    f.push(("manifest".to_owned(), Json::from_str(manifest)));
    f.push(("policy_context".to_owned(), Json::Str(promotion_context())));
    f.push(("preview".to_owned(), preview.deep_clone()));
    f.push(("promotion".to_owned(), Json::from_i64(id)));
    proof {
        lemma_fields_view_len(f@);
        assert(fields_view(f@) =~= match candidate_json(id, manifest@, preview@) {
            JsonV::Object(x) => x,
            _ => Seq::empty(),
        });
    }
    let cand = Json::Object(f);
    let cb = match jcs_bytes(&cand) {
        Err(e) => return Err(BrokerError::Canon(e)),
        Ok(b) => b,
    };
    Ok(PromotionBinding { candidate_digest: sha256_hex(cb.as_slice()), branch_roots_digest: sha256_hex(brb.as_slice()) })
}

/// Why a parked candidate is refused while walking the substrate span.
pub enum CandidateFault {
    /// The promotion was already resolved.
    Resolved,
    /// The candidate has no valid signed binding (the detail).
    Malformed(Seq<char>),
}

/// The escalation `ev` binds exactly this candidate.
pub open spec fn binds_exactly(ev: EventV, manifest: Seq<char>, cd: Seq<char>, brd: Seq<char>) -> bool {
    let body = ev.raw.at("body"@);
    &&& ev.manifest == Some(manifest)
    &&& body.str_at("manifest"@) == Some(manifest)
    &&& body.str_at("candidate_digest"@) == Some(cd)
    &&& body.str_at("branch_roots_digest"@) == Some(brd)
    &&& body.str_at("policy_context"@) == Some(policy_context())
}

/// Walk the substrate span's signed sequence for promotion `id`: an
/// approval of it means it is resolved; each escalation for it must bind
/// exactly this candidate, and at most one may. The result says whether
/// one did.
pub open spec fn candidate_scan(s: Seq<EventV>, id: i64, manifest: Seq<char>, cd: Seq<char>, brd: Seq<char>) -> Result<bool, CandidateFault>
    decreases s.len(),
{
    if s.len() == 0 {
        Ok(false)
    } else {
        match candidate_scan(s.drop_last(), id, manifest, cd, brd) {
            Err(f) => Err(f),
            Ok(matched) => {
                let ev = s.last();
                let promo = ev.raw.at("body"@).at("promotion"@).as_i64();
                if ev.kind == "approval"@ {
                    if promo == Some(id) {
                        Err(CandidateFault::Resolved)
                    } else {
                        Ok(matched)
                    }
                } else if ev.kind != "escalation"@ || promo != Some(id) {
                    Ok(matched)
                } else if !binds_exactly(ev, manifest, cd, brd) {
                    Err(CandidateFault::Malformed("mutable candidate does not match its signed escalation binding"@))
                } else if matched {
                    Err(CandidateFault::Malformed("multiple signed candidate bindings"@))
                } else {
                    Ok(true)
                }
            },
        }
    }
}

proof fn lemma_scan_err_sticks(s: Seq<EventV>, k: int, id: i64, manifest: Seq<char>, cd: Seq<char>, brd: Seq<char>)
    requires
        0 <= k <= s.len(),
        candidate_scan(s.take(k), id, manifest, cd, brd) is Err,
    ensures
        candidate_scan(s, id, manifest, cd, brd) == candidate_scan(s.take(k), id, manifest, cd, brd),
    decreases s.len() - k,
{
    if k < s.len() {
        assert(s.take(k + 1).drop_last() =~= s.take(k));
        lemma_scan_err_sticks(s, k + 1, id, manifest, cd, brd);
    } else {
        assert(s.take(k) =~= s);
    }
}

/// A promotion once resolved stays resolved: when the substrate span's
/// signed sequence holds an approval event for promotion `id`, no parked
/// candidate of `id` verifies any more, whatever it binds.
pub proof fn law_resolved_promotion_refused(s: Seq<EventV>, k: int, id: i64, manifest: Seq<char>, cd: Seq<char>, brd: Seq<char>)
    requires
        0 <= k < s.len(),
        s[k].kind == "approval"@,
        s[k].raw.at("body"@).at("promotion"@).as_i64() == Some(id),
    ensures
        candidate_scan(s, id, manifest, cd, brd) is Err,
{
    assert(s.take(k + 1).drop_last() =~= s.take(k));
    assert(s.take(k + 1).last() == s[k]);
    lemma_scan_err_sticks(s, k + 1, id, manifest, cd, brd);
}

fn body_str_is(ev: &crate::trace::VerifiedEvent, key: &str, want: &str) -> (r: bool)
    ensures
        r == (ev.raw@.at("body"@).str_at(key@) == Some(want@)),
{
    proof { reveal_strlit("body"); }
    match ev.raw.get("body") {
        Some(b) => match b.str_at(key) {
            Some(x) => str_eq(x, want),
            None => false,
        },
        None => false,
    }
}

fn body_promotion(ev: &crate::trace::VerifiedEvent) -> (r: Option<i64>)
    ensures
        r == ev.raw@.at("body"@).at("promotion"@).as_i64(),
{
    proof { reveal_strlit("body"); reveal_strlit("promotion"); }
    match ev.raw.get("body") {
        Some(b) => match b.get("promotion") {
            Some(p) => p.as_i64(),
            None => None,
        },
        None => None,
    }
}

/// The parked row of promotion `id` is byte for byte the candidate bound
/// by a still unresolved signed escalation on the substrate span.
pub fn w14_verify_promotion_candidate(
    events: &Vec<crate::trace::VerifiedEvent>,
    substrate: &str,
    id: i64,
    manifest: &str,
    preview: &Json,
) -> (r: Result<PromotionBinding, BrokerError>)
    ensures
        ({
            let seqv = crate::authority::signed_sequence(crate::trace::events_view(events@), substrate@);
            match preview_branch_roots(preview@) {
                None => r matches Err(e) && e.view() == crate::authority::BrokerErrV::MalformedPromotion {
                    id,
                    detail: "preview has no exact branch_roots map"@,
                },
                Some(br) => match (jcs_of(JsonV::Object(br)), jcs_of(candidate_json(id, manifest@, preview@))) {
                    (Some(a), Some(b)) => match candidate_scan(seqv, id, manifest@, address_of(b), address_of(a)) {
                        Ok(true) => r matches Ok(p) && p.branch_roots_digest@ == address_of(a)
                            && p.candidate_digest@ == address_of(b),
                        Ok(false) => r matches Err(e) && e.view() == crate::authority::BrokerErrV::MalformedPromotion {
                            id,
                            detail: "no signed escalation binds this candidate"@,
                        },
                        Err(CandidateFault::Resolved) => r matches Err(e) && e.view()
                            == crate::authority::BrokerErrV::NoSuchPromotion(id),
                        Err(CandidateFault::Malformed(d)) => r matches Err(e) && e.view()
                            == crate::authority::BrokerErrV::MalformedPromotion { id, detail: d },
                    },
                    _ => r matches Err(e) && e is Canon,
                },
            }
        }),
{
    proof {
        reveal_strlit("approval");
        reveal_strlit("escalation");
    }
    let binding = match w14_promotion_binding(id, manifest, preview) {
        Err(e) => return Err(e),
        Ok(b) => b,
    };
    let ordered = crate::authority::w11_span_events_in_signed_sequence(events, substrate);
    let ghost ov = crate::trace::events_view(ordered@);
    let ghost cd = binding.candidate_digest@;
    let ghost brd = binding.branch_roots_digest@;
    let ctx = promotion_context();
    let mut matched = false;
    let mut i: usize = 0;
    assert(ov.take(0) =~= Seq::<EventV>::empty());
    while i < ordered.len()
        invariant
            i <= ordered@.len(),
            ov == crate::trace::events_view(ordered@),
            ov.len() == ordered@.len(),
            ctx@ == policy_context(),
            cd == binding.candidate_digest@,
            brd == binding.branch_roots_digest@,
            candidate_scan(ov.take(i as int), id, manifest@, cd, brd) == Ok::<bool, CandidateFault>(matched),
        decreases ordered@.len() - i,
    {
        let ev = &ordered[i];
        assert(ov.take(i + 1).drop_last() =~= ov.take(i as int));
        assert(ov.take(i + 1).last() == ev.view());
        let promo = body_promotion(ev);
        if str_eq(ev.kind.as_str(), "approval") {
            if promo == Some(id) {
                proof { lemma_scan_err_sticks(ov, i + 1, id, manifest@, cd, brd); }
                return Err(BrokerError::NoSuchPromotion(id));
            }
        } else if str_eq(ev.kind.as_str(), "escalation") && promo == Some(id) {
            let man_ok = match &ev.manifest {
                Some(m) => str_eq(m.as_str(), manifest),
                None => false,
            };
            let exact = man_ok && body_str_is(ev, "manifest", manifest)
                && body_str_is(ev, "candidate_digest", binding.candidate_digest.as_str())
                && body_str_is(ev, "branch_roots_digest", binding.branch_roots_digest.as_str())
                && body_str_is(ev, "policy_context", ctx.as_str());
            if !exact {
                proof { lemma_scan_err_sticks(ov, i + 1, id, manifest@, cd, brd); }
                return Err(BrokerError::MalformedPromotion {
                    id,
                    detail: "mutable candidate does not match its signed escalation binding".to_owned(),
                });
            }
            if matched {
                proof { lemma_scan_err_sticks(ov, i + 1, id, manifest@, cd, brd); }
                return Err(BrokerError::MalformedPromotion { id, detail: "multiple signed candidate bindings".to_owned() });
            }
            matched = true;
        }
        i += 1;
    }
    assert(ov.take(i as int) =~= ov);
    if !matched {
        return Err(BrokerError::MalformedPromotion { id, detail: "no signed escalation binds this candidate".to_owned() });
    }
    Ok(binding)
}

/// The branch roots a parked preview pins, by store.
pub open spec fn pinned_roots(f: Seq<(Seq<char>, JsonV)>) -> Result<Seq<(Seq<char>, Seq<char>)>, Seq<char>>
    decreases f.len(),
{
    if f.len() == 0 {
        Ok(Seq::empty())
    } else {
        match pinned_roots(f.drop_last()) {
            Err(m) => Err(m),
            Ok(p) => match f.last().1.as_str() {
                Some(x) => Ok(p.push((f.last().0, x))),
                None => Err("branch root for "@ + f.last().0 + " is not a string"@),
            },
        }
    }
}

proof fn lemma_pinned_err_sticks(f: Seq<(Seq<char>, JsonV)>, k: int)
    requires
        0 <= k <= f.len(),
        pinned_roots(f.take(k)) is Err,
    ensures
        pinned_roots(f) == pinned_roots(f.take(k)),
    decreases f.len() - k,
{
    if k < f.len() {
        assert(f.take(k + 1).drop_last() =~= f.take(k));
        lemma_pinned_err_sticks(f, k + 1);
    } else {
        assert(f.take(k) =~= f);
    }
}

/// The branch roots a parked promotion's preview pins. A preview without
/// them predates pinning: the session must be checked again.
pub fn pinned_branch_roots(id: i64, preview: &Json) -> (r: Result<Vec<(String, String)>, BrokerError>)
    ensures
        match preview_branch_roots(preview@) {
            None => r matches Err(e) && e.view() == crate::authority::BrokerErrV::MalformedPromotion {
                id,
                detail: "legacy preview has no pinned branch_roots; re-gate the session"@,
            },
            Some(f) => match pinned_roots(f) {
                Ok(p) => r matches Ok(v) && crate::evaluate::pairs_view(v@) == p,
                Err(d) => r matches Err(e) && e.view() == crate::authority::BrokerErrV::MalformedPromotion { id, detail: d },
            },
        },
{
    let f = match preview.get("branch_roots") {
        Some(Json::Object(f)) => f,
        _ => return Err(BrokerError::MalformedPromotion {
            id,
            detail: "legacy preview has no pinned branch_roots; re-gate the session".to_owned(),
        }),
    };
    let ghost fv = fields_view(f@);
    proof { lemma_fields_view_len(f@); }
    let mut out: Vec<(String, String)> = Vec::new();
    let mut i: usize = 0;
    assert(fv.take(0) =~= Seq::<(Seq<char>, JsonV)>::empty());
    assert(crate::evaluate::pairs_view(out@) =~= Seq::<(Seq<char>, Seq<char>)>::empty());
    while i < f.len()
        invariant
            i <= f@.len(),
            fv == fields_view(f@),
            fv.len() == f@.len(),
            pinned_roots(fv.take(i as int)) == Ok::<Seq<(Seq<char>, Seq<char>)>, Seq<char>>(crate::evaluate::pairs_view(out@)),
        decreases f@.len() - i,
    {
        assert(fv.take(i + 1).drop_last() =~= fv.take(i as int));
        assert(fv.take(i + 1).last() == (f@[i as int].0@, f@[i as int].1@));
        match f[i].1.as_str() {
            Some(x) => {
                let ghost prev = out@;
                out.push((f[i].0.clone(), x.to_owned()));
                assert(crate::evaluate::pairs_view(out@) =~= crate::evaluate::pairs_view(prev).push((f@[i as int].0@, x@)));
            },
            None => {
                proof { lemma_pinned_err_sticks(fv, i + 1); }
                return Err(BrokerError::MalformedPromotion {
                    id,
                    detail: cat(&cat("branch root for ", f[i].0.as_str()), " is not a string"),
                });
            },
        }
        i += 1;
    }
    assert(fv.take(i as int) =~= fv);
    Ok(out)
}

/// The span a manifest's trace lives in.
pub fn manifest_span(manifest_id: &str, man: &Json) -> (r: Result<String, BrokerError>)
    ensures
        match man@.at("trace"@).str_at("span"@) {
            Some(s) => r matches Ok(x) && x@ == s,
            None => r matches Err(e) && e.view() == crate::authority::BrokerErrV::MalformedManifest {
                id: manifest_id@,
                detail: "no trace.span"@,
            },
        },
{
    proof { reveal_strlit("trace"); reveal_strlit("span"); }
    let s = match man.get("trace") {
        Some(t) => t.str_at("span"),
        None => None,
    };
    match s {
        Some(x) => Ok(x.to_owned()),
        None => Err(BrokerError::MalformedManifest { id: manifest_id.to_owned(), detail: "no trace.span".to_owned() }),
    }
}

// ---------------------------------------------------------------------
// What a promotion records
// ---------------------------------------------------------------------

/// The operations as JSON, in order.
pub open spec fn ops_json(s: Seq<OpV>) -> Seq<JsonV> {
    s.map_values(|o: OpV| crate::promote::op_json(o))
}

/// The conflict cards as JSON, in order.
pub open spec fn conflicts_json(s: Seq<ConflictV>) -> Seq<JsonV> {
    s.map_values(|c: ConflictV| crate::promote::conflict_json(c))
}

fn ops_to_json(ops: &Vec<Op>) -> (r: Vec<Json>)
    ensures
        elems_view(r@) == ops_json(ops_view(ops@)),
{
    let mut out: Vec<Json> = Vec::new();
    let mut i: usize = 0;
    while i < ops.len()
        invariant
            i <= ops@.len(),
            elems_view(out@) == ops_json(ops_view(ops@)).take(i as int),
        decreases ops@.len() - i,
    {
        let ghost prev = out@;
        out.push(ops[i].to_json());
        proof {
            lemma_elems_view_push(prev, out@.last());
            assert(out@ =~= prev.push(out@.last()));
            assert(ops_json(ops_view(ops@)).take(i + 1) =~= ops_json(ops_view(ops@)).take(i as int).push(
                crate::promote::op_json(ops@[i as int]@)));
        }
        i += 1;
    }
    assert(ops_json(ops_view(ops@)).take(i as int) =~= ops_json(ops_view(ops@)));
    out
}

fn conflicts_to_json(cs: &Vec<Conflict>) -> (r: Vec<Json>)
    ensures
        elems_view(r@) == conflicts_json(conflicts_view(cs@)),
{
    let mut out: Vec<Json> = Vec::new();
    let mut i: usize = 0;
    while i < cs.len()
        invariant
            i <= cs@.len(),
            elems_view(out@) == conflicts_json(conflicts_view(cs@)).take(i as int),
        decreases cs@.len() - i,
    {
        let ghost prev = out@;
        out.push(cs[i].to_json());
        proof {
            lemma_elems_view_push(prev, out@.last());
            assert(out@ =~= prev.push(out@.last()));
            assert(conflicts_json(conflicts_view(cs@)).take(i + 1) =~= conflicts_json(conflicts_view(cs@)).take(i as int).push(
                crate::promote::conflict_json(cs@[i as int].view())));
        }
        i += 1;
    }
    assert(conflicts_json(conflicts_view(cs@)).take(i as int) =~= conflicts_json(conflicts_view(cs@)));
    out
}

/// The branch roots of a plan by store (a later plan for the same store
/// overrides an earlier one).
pub open spec fn branch_root_map(s: Seq<StorePlan>) -> Seq<(Seq<char>, JsonV)>
    decreases s.len(),
{
    if s.len() == 0 {
        Seq::empty()
    } else {
        fields_insert(branch_root_map(s.drop_last()), s.last().store@, JsonV::Str(s.last().branch@))
    }
}

/// The preview a parked promotion keeps for review.
pub open spec fn preview_json(plan: MergePlan, trace_report: JsonV) -> JsonV {
    JsonV::Object(seq![
        ("branch_roots"@, JsonV::Object(branch_root_map(plan.stores@))),
        ("conflicts"@, JsonV::Array(conflicts_json(conflicts_view(plan.conflicts@)))),
        ("ops"@, JsonV::Array(ops_json(ops_view(plan.ops@)))),
        ("trace_check"@, trace_report),
    ])
}

/// The preview of a merge parked for review: its operations, conflict
/// cards, trace report and pinned branch roots.
pub fn promotion_preview(plan: &MergePlan, trace_report: &Json) -> (r: Json)
    ensures
        r@ == preview_json(*plan, trace_report@),
{
    let mut roots: Vec<(String, Json)> = Vec::new();
    let mut i: usize = 0;
    while i < plan.stores.len()
        invariant
            i <= plan.stores@.len(),
            fields_view(roots@) == branch_root_map(plan.stores@.take(i as int)),
        decreases plan.stores@.len() - i,
    {
        assert(plan.stores@.take(i + 1).drop_last() =~= plan.stores@.take(i as int));
        crate::canon::insert_field(&mut roots, plan.stores[i].store.clone(), Json::from_str(plan.stores[i].branch.as_str()));
        i += 1;
    }
    assert(plan.stores@.take(i as int) =~= plan.stores@);
    let ghost rv = fields_view(roots@);
    let mut f: Vec<(String, Json)> = Vec::new();
    f.push(("branch_roots".to_owned(), Json::Object(roots)));
    f.push(("conflicts".to_owned(), Json::Array(conflicts_to_json(&plan.conflicts))));
    f.push(("ops".to_owned(), Json::Array(ops_to_json(&plan.ops))));
    f.push(("trace_check".to_owned(), trace_report.deep_clone()));
    proof {
        lemma_fields_view_len(f@);
        assert(fields_view(f@) =~= match preview_json(*plan, trace_report@) {
            JsonV::Object(x) => x,
            _ => Seq::empty(),
        });
    }
    Json::Object(f)
}

/// The operation classes, in order.
pub open spec fn op_classes(s: Seq<OpV>) -> Seq<JsonV> {
    s.map_values(|o: OpV| JsonV::Str(crate::promote::op_class(o)))
}

/// The signed escalation that parks a promotion: the candidate's binding
/// and a sample of what it would change.
pub open spec fn escalation_json(id: i64, manifest: Seq<char>, cd: Seq<char>, brd: Seq<char>, plan: MergePlan) -> JsonV {
    JsonV::Object(seq![
        ("branch_roots_digest"@, JsonV::Str(brd)),
        ("candidate_digest"@, JsonV::Str(cd)),
        ("caveat"@, JsonV::Str("promotion.policy"@)),
        ("count"@, JsonV::Int(1)),
        ("manifest"@, JsonV::Str(manifest)),
        ("policy_context"@, JsonV::Str(policy_context())),
        ("promotion"@, JsonV::Int(id as int)),
        ("sample"@, JsonV::Array(seq![JsonV::Object(seq![
            ("conflicts"@, JsonV::Int(plan.conflicts@.len() as int)),
            ("ops"@, JsonV::Array(op_classes(ops_view(plan.ops@)))),
        ])])),
    ])
}

/// The body of the escalation event that parks promotion `id`.
pub fn promotion_escalation_body(id: i64, manifest: &str, binding: &PromotionBinding, plan: &MergePlan) -> (r: Json)
    ensures
        r@ == escalation_json(id, manifest@, binding.candidate_digest@, binding.branch_roots_digest@, *plan),
{
    let mut classes: Vec<Json> = Vec::new();
    let mut i: usize = 0;
    while i < plan.ops.len()
        invariant
            i <= plan.ops@.len(),
            elems_view(classes@) == op_classes(ops_view(plan.ops@)).take(i as int),
        decreases plan.ops@.len() - i,
    {
        let ghost prev = classes@;
        classes.push(Json::from_str(plan.ops[i].class()));
        proof {
            lemma_elems_view_push(prev, classes@.last());
            assert(classes@ =~= prev.push(classes@.last()));
            assert(op_classes(ops_view(plan.ops@)).take(i + 1) =~= op_classes(ops_view(plan.ops@)).take(i as int).push(
                JsonV::Str(crate::promote::op_class(plan.ops@[i as int]@))));
        }
        i += 1;
    }
    assert(op_classes(ops_view(plan.ops@)).take(i as int) =~= op_classes(ops_view(plan.ops@)));
    let ghost cv = elems_view(classes@);
    let mut sample: Vec<(String, Json)> = Vec::new();
    sample.push(("conflicts".to_owned(), Json::from_u64(plan.conflicts.len() as u64)));
    sample.push(("ops".to_owned(), Json::Array(classes)));
    proof { lemma_fields_view_len(sample@); }
    let ghost sv = fields_view(sample@);
    let mut samples: Vec<Json> = Vec::new();
    samples.push(Json::Object(sample));
    proof { lemma_elems_view_len(samples@); }
    let ghost ssv = elems_view(samples@);
    let mut f: Vec<(String, Json)> = Vec::new();
    f.push(("branch_roots_digest".to_owned(), Json::from_str(binding.branch_roots_digest.as_str())));
    f.push(("candidate_digest".to_owned(), Json::from_str(binding.candidate_digest.as_str())));
    f.push(("caveat".to_owned(), Json::from_str("promotion.policy")));
    f.push(("count".to_owned(), Json::from_u64(1)));
    f.push(("manifest".to_owned(), Json::from_str(manifest)));
    f.push(("policy_context".to_owned(), Json::Str(promotion_context())));
    f.push(("promotion".to_owned(), Json::from_i64(id)));
    f.push(("sample".to_owned(), Json::Array(samples)));
    proof {
        lemma_fields_view_len(f@);
        assert(sv =~= seq![
            ("conflicts"@, JsonV::Int(plan.conflicts@.len() as int)),
            ("ops"@, JsonV::Array(op_classes(ops_view(plan.ops@)))),
        ]);
        assert(ssv =~= seq![JsonV::Object(sv)]);
        assert(fields_view(f@) =~= match escalation_json(id, manifest@, binding.candidate_digest@, binding.branch_roots_digest@, *plan) {
            JsonV::Object(x) => x,
            _ => Seq::empty(),
        });
    }
    Json::Object(f)
}

/// What a store plan leaves on trunk: the installed root, or trunk as it
/// was.
pub open spec fn merged_root(p: StorePlan) -> Seq<char> {
    match p.install {
        Some(x) => x@,
        None => p.trunk@,
    }
}

/// A store's entry in the promotion event.
pub open spec fn store_entry_json(p: StorePlan) -> JsonV {
    JsonV::Object(seq![
        ("base"@, JsonV::Str(p.base@)),
        ("branch"@, JsonV::Str(p.branch@)),
        ("merged"@, JsonV::Str(merged_root(p))),
        ("store"@, JsonV::Str(p.store@)),
        ("trunk_before"@, JsonV::Str(p.trunk@)),
    ])
}

/// The body of the promotion event.
pub open spec fn promotion_json(manifest: Seq<char>, plan: MergePlan, trace_report: JsonV, policy: Seq<char>) -> JsonV {
    JsonV::Object(seq![
        ("conflicts"@, JsonV::Array(conflicts_json(conflicts_view(plan.conflicts@)))),
        ("manifest"@, JsonV::Str(manifest)),
        ("ops"@, JsonV::Array(ops_json(ops_view(plan.ops@)))),
        ("policy"@, JsonV::Str(policy)),
        ("stores"@, JsonV::Array(plan.stores@.map_values(|p: StorePlan| store_entry_json(p)))),
        ("trace_check"@, trace_report),
    ])
}

fn merged_root_of(p: &StorePlan) -> (r: String)
    ensures
        r@ == merged_root(*p),
{
    match &p.install {
        Some(x) => x.clone(),
        None => p.trunk.clone(),
    }
}

/// The body of the promotion event that records a merge: each store's
/// roots before and after, the operations and conflicts, the trace report
/// and the policy that allowed it.
pub fn promotion_event_body(manifest: &str, plan: &MergePlan, trace_report: &Json, policy: &str) -> (r: Json)
    ensures
        r@ == promotion_json(manifest@, *plan, trace_report@, policy@),
{
    let ghost target = plan.stores@.map_values(|p: StorePlan| store_entry_json(p));
    let mut stores: Vec<Json> = Vec::new();
    let mut i: usize = 0;
    while i < plan.stores.len()
        invariant
            i <= plan.stores@.len(),
            target == plan.stores@.map_values(|p: StorePlan| store_entry_json(p)),
            elems_view(stores@) == target.take(i as int),
        decreases plan.stores@.len() - i,
    {
        let sp = &plan.stores[i];
        let mut e: Vec<(String, Json)> = Vec::new();
        e.push(("base".to_owned(), Json::from_str(sp.base.as_str())));
        e.push(("branch".to_owned(), Json::from_str(sp.branch.as_str())));
        e.push(("merged".to_owned(), Json::Str(merged_root_of(sp))));
        e.push(("store".to_owned(), Json::from_str(sp.store.as_str())));
        e.push(("trunk_before".to_owned(), Json::from_str(sp.trunk.as_str())));
        proof {
            lemma_fields_view_len(e@);
            assert(fields_view(e@) =~= match store_entry_json(*sp) {
                JsonV::Object(x) => x,
                _ => Seq::empty(),
            });
        }
        let ghost prev = stores@;
        stores.push(Json::Object(e));
        proof {
            lemma_elems_view_push(prev, stores@.last());
            assert(stores@ =~= prev.push(stores@.last()));
            assert(target.take(i + 1) =~= target.take(i as int).push(store_entry_json(*sp)));
        }
        i += 1;
    }
    assert(target.take(i as int) =~= target);
    let mut f: Vec<(String, Json)> = Vec::new();
    f.push(("conflicts".to_owned(), Json::Array(conflicts_to_json(&plan.conflicts))));
    f.push(("manifest".to_owned(), Json::from_str(manifest)));
    f.push(("ops".to_owned(), Json::Array(ops_to_json(&plan.ops))));
    f.push(("policy".to_owned(), Json::from_str(policy)));
    f.push(("stores".to_owned(), Json::Array(stores)));
    f.push(("trace_check".to_owned(), trace_report.deep_clone()));
    proof {
        lemma_fields_view_len(f@);
        assert(fields_view(f@) =~= match promotion_json(manifest@, *plan, trace_report@, policy@) {
            JsonV::Object(x) => x,
            _ => Seq::empty(),
        });
    }
    Json::Object(f)
}

/// One store's root before and after a promotion.
#[derive(Debug)]
pub struct RootTransition {
    pub store: String,
    pub before: String,
    pub after: String,
}

/// The root transitions a promotion commits, store by store: trunk as it
/// was, then what the merge leaves there.
pub fn root_transitions(plan: &MergePlan) -> (r: Vec<RootTransition>)
    ensures
        r@.len() == plan.stores@.len(),
        forall|i: int| 0 <= i < r@.len() ==> {
            &&& (#[trigger] r@[i]).store@ == plan.stores@[i].store@
            &&& r@[i].before@ == plan.stores@[i].trunk@
            &&& r@[i].after@ == merged_root(plan.stores@[i])
        },
{
    let mut out: Vec<RootTransition> = Vec::new();
    let mut i: usize = 0;
    while i < plan.stores.len()
        invariant
            i <= plan.stores@.len(),
            out@.len() == i,
            forall|j: int| 0 <= j < i ==> {
                &&& (#[trigger] out@[j]).store@ == plan.stores@[j].store@
                &&& out@[j].before@ == plan.stores@[j].trunk@
                &&& out@[j].after@ == merged_root(plan.stores@[j])
            },
        decreases plan.stores@.len() - i,
    {
        let sp = &plan.stores[i];
        out.push(RootTransition { store: sp.store.clone(), before: sp.trunk.clone(), after: merged_root_of(sp) });
        i += 1;
    }
    out
}

/// The body of the approval event that resolves a parked promotion.
pub open spec fn resolution_json(id: i64, resolution: Seq<char>, cd: Seq<char>, channel: Seq<char>, auth_strength: Seq<char>) -> JsonV {
    JsonV::Object(seq![
        ("auth_strength"@, JsonV::Str(auth_strength)),
        ("candidate_digest"@, JsonV::Str(cd)),
        ("channel"@, JsonV::Str(channel)),
        ("promotion"@, JsonV::Int(id as int)),
        ("resolution"@, JsonV::Str(resolution)),
    ])
}

/// The approval event's body for a parked promotion: approved or denied,
/// by which channel at which strength, over which candidate.
pub fn promotion_resolution_body(id: i64, approved: bool, candidate_digest: &str, channel: &str, auth_strength: &str) -> (r: Json)
    ensures
        r@ == resolution_json(id, if approved {
            "approved"@
        } else {
            "denied"@
        }, candidate_digest@, channel@, auth_strength@),
{
    let resolution = if approved {
        "approved"
    } else {
        "denied"
    };
    let mut f: Vec<(String, Json)> = Vec::new();
    f.push(("auth_strength".to_owned(), Json::from_str(auth_strength)));
    f.push(("candidate_digest".to_owned(), Json::from_str(candidate_digest)));
    f.push(("channel".to_owned(), Json::from_str(channel)));
    f.push(("promotion".to_owned(), Json::from_i64(id)));
    f.push(("resolution".to_owned(), Json::from_str(resolution)));
    proof {
        lemma_fields_view_len(f@);
        assert(fields_view(f@) =~= match resolution_json(id, resolution@, candidate_digest@, channel@, auth_strength@) {
            JsonV::Object(x) => x,
            _ => Seq::empty(),
        });
    }
    Json::Object(f)
}

/// The policy an approved promotion records: `approved:<id>`.
pub fn approved_policy(id: i64) -> (r: String)
    ensures
        r@ == "approved:"@ + crate::json_text::int_text(id as int),
{
    cat("approved:", crate::authority::int_string(id).as_str())
}

/// The trace report with the branch-tip binding added (a null report
/// becomes an object holding just the binding).
pub fn with_branch_tip(trace_report: &Json, tip: Json) -> (r: Json)
    requires
        trace_report@ is Object || trace_report@ is Null,
    ensures
        trace_report@ is Object ==> r@ == JsonV::Object(fields_insert(trace_report@->Object_0, "branch_tip"@, tip@)),
        trace_report@ is Null ==> r@ == JsonV::Object(seq![("branch_tip"@, tip@)]),
{
    let mut f = match trace_report {
        Json::Object(f) => crate::tools::copy_fields(f),
        _ => Vec::new(),
    };
    crate::canon::insert_field(&mut f, "branch_tip".to_owned(), tip);
    Json::Object(f)
}

/// The report after the branch-tip binding is added (a null report becomes
/// an object holding just the binding).
pub open spec fn with_tip_view(report: JsonV, tip: JsonV) -> JsonV {
    match report {
        JsonV::Object(f) => JsonV::Object(fields_insert(f, "branch_tip"@, tip)),
        _ => JsonV::Object(seq![("branch_tip"@, tip)]),
    }
}

/// The default policy auto-promotes a plan: no conflicts, and every branch
/// operation an `add` or a `modify`.
pub open spec fn auto_promotes(plan: MergePlan) -> bool {
    plan.conflicts@.len() == 0 && forall|i: int| 0 <= i < plan.ops@.len()
        ==> (crate::promote::op_class(#[trigger] plan.ops@[i]@) == "add"@ || crate::promote::op_class(plan.ops@[i]@) == "modify"@)
}

/// What promotion does with a run.
#[derive(Debug)]
pub enum PromotionAction {
    /// Merge nothing.
    Refuse(BrokerError),
    /// Apply the merge now, recording the report.
    Apply { report: Json, plan: MergePlan },
    /// Park the merge for human review, with the report.
    Park { report: Json, plan: MergePlan },
}

/// The promotion decision. A run whose replay against its authority failed
/// merges nothing (its merge is not even planned); otherwise, given the
/// planned merge and the branch-tip check, a tip that does not match the
/// attested roots merges nothing, and the default policy applies the merge
/// or parks it, the report carrying the branch-tip binding.
pub fn promotion_decision(replay: Result<Json, BrokerError>, planned: Option<(Result<Json, BrokerError>, MergePlan)>) -> (r: PromotionAction)
    requires
        replay matches Ok(j) ==> (j@ is Object || j@ is Null) && planned is Some,
    ensures
        match replay {
            Err(e) => r matches PromotionAction::Refuse(x) && x.view() == e.view(),
            Ok(rep) => match planned {
                Some((Err(e), _)) => r matches PromotionAction::Refuse(x) && x.view() == e.view(),
                Some((Ok(tip), plan)) => if auto_promotes(plan) {
                    r matches PromotionAction::Apply { report, plan: p } && report@ == with_tip_view(rep@, tip@) && p == plan
                } else {
                    r matches PromotionAction::Park { report, plan: p } && report@ == with_tip_view(rep@, tip@) && p == plan
                },
                None => false,
            },
        },
{
    let rep = match replay {
        Err(e) => return PromotionAction::Refuse(e),
        Ok(j) => j,
    };
    let (tip, plan) = match planned {
        Some(x) => x,
        None => {
            assert(false);
            return PromotionAction::Refuse(BrokerError::Unavailable(String::new()));
        },
    };
    let tip = match tip {
        Err(e) => return PromotionAction::Refuse(e),
        Ok(t) => t,
    };
    let report = with_branch_tip(&rep, tip);
    if crate::promote::default_policy_allows(&plan.ops, &plan.conflicts) {
        PromotionAction::Apply { report, plan }
    } else {
        PromotionAction::Park { report, plan }
    }
}

} // verus!
