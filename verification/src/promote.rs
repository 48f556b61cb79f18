//! Promotion: diffs, operation classes, three-way merge.
//!
//! Pure tree logic — trees in, merge decisions out. The broker owns the
//! gate orchestration (trace-vs-capability check, policy, approval,
//! apply); this module owns the semantics:
//!
//! - Diffs speak `add | modify | delete | move | rename`. Rename detection
//!   pairs a deleted path with an added path of identical content hash, so a
//!   reorganization never renders as mass deletion. Exact-hash pairing
//!   only; same-directory pairs are `rename`, cross-directory pairs are
//!   `move`.
//! - Three-way merge: base = the manifest's state root; branch and trunk
//!   reconcile against it. Non-conflicting changes from either side land.
//!   Conflicts never auto-resolve in the agent's favor — where both sides
//!   changed the same path differently, trunk (the human) wins and a
//!   conflict card records the branch version, which stays reachable in the
//!   content store.

use vstd::prelude::*;
use crate::json::{
    chars_lt, lemma_chars_lt_asym, lemma_chars_lt_irrefl, lemma_chars_lt_total,
    lemma_chars_lt_trans, str_eq, str_lt, Json, JsonV, field_of,
};
use crate::evaluate::pairs_view;
use crate::json_text::{json_text, to_json_text, escape_str, escape_char, hex_digit, quoted, fields_text};
use crate::json::{fields_view, lemma_fields_view_len, push_char, chars_of};
use crate::capability::str_list_contains;
use crate::json::{string_views, elems_view, lemma_elems_view_len};

verus! {

// ---------------------------------------------------------------------
// Trees: path → content hash, kept in strictly increasing path order
// ---------------------------------------------------------------------

/// Entries in strictly increasing key order.
pub open spec fn sorted_keys(s: Seq<(Seq<char>, Seq<char>)>) -> bool {
    forall|i: int, j: int| 0 <= i < j < s.len() ==> chars_lt(#[trigger] s[i].0, #[trigger] s[j].0)
}

/// The value of the first entry keyed `k`.
pub open spec fn lookup(s: Seq<(Seq<char>, Seq<char>)>, k: Seq<char>) -> Option<Seq<char>>
    decreases s.len(),
{
    if s.len() == 0 {
        None
    } else if s[0].0 == k {
        Some(s[0].1)
    } else {
        lookup(s.drop_first(), k)
    }
}

/// path → content hash. Mode is deliberately out of merge identity
/// (content decides conflicts; the chosen side's mode rides along).
#[derive(Debug)]
pub struct Tree {
    entries: Vec<(String, String)>,
}

impl Tree {
    /// The entries, in increasing path order.
    pub closed spec fn view(&self) -> Seq<(Seq<char>, Seq<char>)> {
        pairs_view(self.entries@)
    }

    /// Paths strictly increase along the entries.
    pub open spec fn wf(&self) -> bool {
        sorted_keys(self@)
    }

    /// The hash stored for `path`.
    pub open spec fn at(&self, path: Seq<char>) -> Option<Seq<char>> {
        lookup(self@, path)
    }

    /// An empty tree.
    pub fn new() -> (r: Tree)
        ensures
            r.wf(),
            r@ == Seq::<(Seq<char>, Seq<char>)>::empty(),
    {
        let r = Tree { entries: Vec::new() };
        assert(r@ =~= Seq::<(Seq<char>, Seq<char>)>::empty());
        r
    }

    /// Number of entries.
    pub fn len(&self) -> (r: usize)
        ensures
            r == self@.len(),
    {
        self.entries.len()
    }

    /// The entries, in increasing path order.
    pub fn entries(&self) -> (r: &Vec<(String, String)>)
        ensures
            pairs_view(r@) == self@,
    {
        &self.entries
    }

    /// The hash stored for `path`, if any.
    pub fn get(&self, path: &str) -> (r: Option<&String>)
        ensures
            match r {
                Some(h) => self.at(path@) == Some(h@),
                None => self.at(path@) is None,
            },
    {
        let ghost s = self@;
        let mut i: usize = 0;
        assert(s.skip(0) =~= s);
        while i < self.entries.len()
            invariant
                i <= self.entries.len(),
                s == self@,
                s.len() == self.entries.len(),
                lookup(s, path@) == lookup(s.skip(i as int), path@),
            decreases self.entries.len() - i,
        {
            assert(s.skip(i as int).drop_first() =~= s.skip(i + 1));
            assert(s.skip(i as int)[0] == (self.entries@[i as int].0@, self.entries@[i as int].1@));
            if str_eq(self.entries[i].0.as_str(), path) {
                return Some(&self.entries[i].1);
            }
            i += 1;
        }
        None
    }

    /// Whether `path` has an entry.
    pub fn contains_key(&self, path: &str) -> (r: bool)
        ensures
            r == self.at(path@) is Some,
    {
        self.get(path).is_some()
    }

    /// Set the hash of `path`, keeping paths in order.
    pub fn insert(&mut self, path: String, hash: String)
        requires
            old(self).wf(),
        ensures
            final(self).wf(),
            forall|q: Seq<char>| #[trigger] final(self).at(q) == if q == path@ {
                Some(hash@)
            } else {
                old(self).at(q)
            },
    {
        let ghost s = self@;
        let mut pos: usize = 0;
        while pos < self.entries.len() && str_lt(self.entries[pos].0.as_str(), path.as_str())
            invariant
                pos <= self.entries.len(),
                s == self@,
                s.len() == self.entries.len(),
                sorted_keys(s),
                forall|j: int| 0 <= j < pos ==> chars_lt(#[trigger] s[j].0, path@),
            decreases self.entries.len() - pos,
        {
            assert(s[pos as int].0 == self.entries@[pos as int].0@);
            pos += 1;
        }
        let ghost e = (path@, hash@);
        if pos < self.entries.len() && str_eq(self.entries[pos].0.as_str(), path.as_str()) {
            self.entries.set(pos, (path, hash));
            let ghost t = self@;
            assert(t =~= s.update(pos as int, e));
            proof {
                assert forall|i: int, j: int| 0 <= i < j < t.len() implies chars_lt(#[trigger] t[i].0, #[trigger] t[j].0) by {
                    assert(t[i].0 == s[i].0);
                    assert(t[j].0 == s[j].0);
                }
                assert forall|q: Seq<char>| #[trigger] lookup(t, q) == if q == e.0 {
                    Some(e.1)
                } else {
                    lookup(s, q)
                } by {
                    lemma_lookup_index(t, pos as int);
                    if q != e.0 {
                        lemma_lookup_same_keys(s, t, q);
                    }
                }
            }
        } else {
            proof {
                if pos < s.len() {
                    lemma_chars_lt_total(s[pos as int].0, path@);
                }
            }
            self.entries.insert(pos, (path, hash));
            let ghost t = self@;
            assert(t =~= s.insert(pos as int, e));
            proof {
                assert forall|i: int, j: int| 0 <= i < j < t.len() implies chars_lt(#[trigger] t[i].0, #[trigger] t[j].0) by {
                    if j < pos {
                    } else if j == pos {
                    } else if i < pos {
                        assert(t[j] == s[j - 1]);
                        lemma_chars_lt_trans(s[i].0, e.0, s[pos as int].0);
                        if j - 1 > pos {
                            lemma_chars_lt_trans(s[i].0, s[pos as int].0, s[j - 1].0);
                        }
                    } else if i == pos {
                        assert(t[j] == s[j - 1]);
                        if j - 1 > pos {
                            lemma_chars_lt_trans(e.0, s[pos as int].0, s[j - 1].0);
                        }
                    } else {
                        assert(t[i] == s[i - 1]);
                        assert(t[j] == s[j - 1]);
                    }
                }
                assert forall|q: Seq<char>| #[trigger] lookup(t, q) == if q == e.0 {
                    Some(e.1)
                } else {
                    lookup(s, q)
                } by {
                    lemma_lookup_index(t, pos as int);
                    if q != e.0 {
                        lemma_lookup_insert_other(s, pos as int, e, q);
                    }
                }
            }
        }
    }

    /// A copy of this tree.
    pub fn copy(&self) -> (r: Tree)
        ensures
            r@ == self@,
    {
        let mut out: Vec<(String, String)> = Vec::new();
        let mut i: usize = 0;
        while i < self.entries.len()
            invariant
                i <= self.entries.len(),
                pairs_view(out@) == pairs_view(self.entries@).take(i as int),
            decreases self.entries.len() - i,
        {
            out.push((self.entries[i].0.clone(), self.entries[i].1.clone()));
            i += 1;
            assert(pairs_view(out@) =~= pairs_view(self.entries@).take(i as int));
        }
        assert(pairs_view(self.entries@).take(i as int) =~= pairs_view(self.entries@));
        Tree { entries: out }
    }
}

/// In sorted entries, each entry's key finds that entry.
pub proof fn lemma_lookup_index(s: Seq<(Seq<char>, Seq<char>)>, i: int)
    requires
        sorted_keys(s),
        0 <= i < s.len(),
    ensures
        lookup(s, s[i].0) == Some(s[i].1),
    decreases i,
{
    if i > 0 {
        assert(chars_lt(s[0].0, s[i].0));
        lemma_chars_lt_irrefl(s[0].0);
        let t = s.drop_first();
        assert(sorted_keys(t)) by {
            assert forall|a: int, b: int| 0 <= a < b < t.len() implies chars_lt(#[trigger] t[a].0, #[trigger] t[b].0) by {
                assert(t[a] == s[a + 1]);
                assert(t[b] == s[b + 1]);
            }
        }
        assert(t[i - 1] == s[i]);
        lemma_lookup_index(t, i - 1);
    }
}

/// A key found by lookup sits at some index with that value.
pub proof fn lemma_lookup_found(s: Seq<(Seq<char>, Seq<char>)>, k: Seq<char>)
    requires
        lookup(s, k) is Some,
    ensures
        exists|i: int| 0 <= i < s.len() && s[i].0 == k && s[i].1 == lookup(s, k)->0,
    decreases s.len(),
{
    if s[0].0 != k {
        lemma_lookup_found(s.drop_first(), k);
        let i = choose|i: int| 0 <= i < s.drop_first().len() && s.drop_first()[i].0 == k && s.drop_first()[i].1 == lookup(s.drop_first(), k)->0;
        assert(s[i + 1] == s.drop_first()[i]);
    } else {
        assert(s[0].0 == k);
    }
}

/// A key carried by no entry is not found.
pub proof fn lemma_lookup_absent(s: Seq<(Seq<char>, Seq<char>)>, k: Seq<char>)
    requires
        forall|i: int| 0 <= i < s.len() ==> (#[trigger] s[i]).0 != k,
    ensures
        lookup(s, k) is None,
    decreases s.len(),
{
    if s.len() > 0 {
        assert(s[0].0 != k);
        assert forall|i: int| 0 <= i < s.drop_first().len() implies (#[trigger] s.drop_first()[i]).0 != k by {
            assert(s.drop_first()[i] == s[i + 1]);
        }
        lemma_lookup_absent(s.drop_first(), k);
    }
}

/// Lookup in sorted entries: found exactly at the entry with that key.
pub proof fn lemma_lookup_sorted(s: Seq<(Seq<char>, Seq<char>)>, k: Seq<char>)
    requires
        sorted_keys(s),
    ensures
        lookup(s, k) is Some <==> exists|i: int| 0 <= i < s.len() && (#[trigger] s[i]).0 == k,
        forall|i: int| 0 <= i < s.len() && (#[trigger] s[i]).0 == k ==> lookup(s, k) == Some(s[i].1),
{
    if lookup(s, k) is Some {
        lemma_lookup_found(s, k);
    } else {
        if exists|i: int| 0 <= i < s.len() && (#[trigger] s[i]).0 == k {
            let i = choose|i: int| 0 <= i < s.len() && (#[trigger] s[i]).0 == k;
            lemma_lookup_index(s, i);
        }
    }
    assert forall|i: int| 0 <= i < s.len() && (#[trigger] s[i]).0 == k implies lookup(s, k) == Some(s[i].1) by {
        lemma_lookup_index(s, i);
    }
}

/// Replacing one entry's value keeps every other key's lookup.
proof fn lemma_lookup_same_keys(s: Seq<(Seq<char>, Seq<char>)>, t: Seq<(Seq<char>, Seq<char>)>, q: Seq<char>)
    requires
        s.len() == t.len(),
        forall|i: int| 0 <= i < s.len() ==> (#[trigger] s[i]).0 == t[i].0,
        forall|i: int| 0 <= i < s.len() && (#[trigger] s[i]).0 == q ==> s[i].1 == t[i].1,
    ensures
        lookup(s, q) == lookup(t, q),
    decreases s.len(),
{
    if s.len() > 0 {
        assert(s[0].0 == t[0].0);
        assert forall|i: int| 0 <= i < s.drop_first().len() implies (#[trigger] s.drop_first()[i]).0 == t.drop_first()[i].0 by {
            assert(s.drop_first()[i] == s[i + 1]);
            assert(t.drop_first()[i] == t[i + 1]);
        }
        assert forall|i: int| 0 <= i < s.drop_first().len() && (#[trigger] s.drop_first()[i]).0 == q implies s.drop_first()[i].1 == t.drop_first()[i].1 by {
            assert(s.drop_first()[i] == s[i + 1]);
            assert(t.drop_first()[i] == t[i + 1]);
        }
        lemma_lookup_same_keys(s.drop_first(), t.drop_first(), q);
    }
}

/// Inserting an entry for another key keeps a key's lookup.
proof fn lemma_lookup_insert_other(s: Seq<(Seq<char>, Seq<char>)>, pos: int, e: (Seq<char>, Seq<char>), q: Seq<char>)
    requires
        0 <= pos <= s.len(),
        q != e.0,
    ensures
        lookup(s.insert(pos, e), q) == lookup(s, q),
    decreases s.len(),
{
    let t = s.insert(pos, e);
    if pos == 0 {
        assert(t[0] == e);
        assert(t.drop_first() =~= s);
    } else {
        assert(t[0] == s[0]);
        if s[0].0 != q {
            assert(t.drop_first() =~= s.drop_first().insert(pos - 1, e));
            lemma_lookup_insert_other(s.drop_first(), pos - 1, e, q);
        }
    }
}

/// Appending an entry: earlier entries win, then the new one.
pub proof fn lemma_lookup_push(s: Seq<(Seq<char>, Seq<char>)>, e: (Seq<char>, Seq<char>), q: Seq<char>)
    ensures
        lookup(s.push(e), q) == match lookup(s, q) {
            Some(v) => Some(v),
            None => if e.0 == q {
                Some(e.1)
            } else {
                None
            },
        },
    decreases s.len(),
{
    if s.len() == 0 {
        assert(s.push(e)[0] == e);
        assert(s.push(e).drop_first() =~= s);
    } else {
        assert(s.push(e)[0] == s[0]);
        assert(s.push(e).drop_first() =~= s.drop_first().push(e));
        lemma_lookup_push(s.drop_first(), e, q);
    }
}


// ---------------------------------------------------------------------
// Operations
// ---------------------------------------------------------------------

/// A change to a tree, in the operation classes promotion rules use.
#[derive(Debug, PartialEq, Eq)]
pub enum Op {
    Add { path: String },
    Modify { path: String },
    Delete { path: String },
    /// Same content, same parent directory, new name.
    Rename { from: String, to: String },
    /// Same content, different parent directory.
    Move { from: String, to: String },
}

/// The mathematical reading of an operation.
pub enum OpV {
    Add(Seq<char>),
    Modify(Seq<char>),
    Delete(Seq<char>),
    Rename(Seq<char>, Seq<char>),
    Move(Seq<char>, Seq<char>),
}

impl Op {
    pub open spec fn view(&self) -> OpV {
        match self {
            Op::Add { path } => OpV::Add(path@),
            Op::Modify { path } => OpV::Modify(path@),
            Op::Delete { path } => OpV::Delete(path@),
            Op::Rename { from, to } => OpV::Rename(from@, to@),
            Op::Move { from, to } => OpV::Move(from@, to@),
        }
    }
}

pub open spec fn ops_view(s: Seq<Op>) -> Seq<OpV> {
    s.map_values(|o: Op| o.view())
}

/// The operation class name.
pub open spec fn op_class(op: OpV) -> Seq<char> {
    match op {
        OpV::Add(_) => "add"@,
        OpV::Modify(_) => "modify"@,
        OpV::Delete(_) => "delete"@,
        OpV::Rename(_, _) => "rename"@,
        OpV::Move(_, _) => "move"@,
    }
}

/// The JSON rendering of an operation (fields in key order).
pub open spec fn op_json(op: OpV) -> JsonV {
    match op {
        OpV::Add(p) => JsonV::Object(seq![("op"@, JsonV::Str("add"@)), ("path"@, JsonV::Str(p))]),
        OpV::Modify(p) => JsonV::Object(seq![("op"@, JsonV::Str("modify"@)), ("path"@, JsonV::Str(p))]),
        OpV::Delete(p) => JsonV::Object(seq![("op"@, JsonV::Str("delete"@)), ("path"@, JsonV::Str(p))]),
        OpV::Rename(f, t) => JsonV::Object(
            seq![("from"@, JsonV::Str(f)), ("op"@, JsonV::Str("rename"@)), ("to"@, JsonV::Str(t))],
        ),
        OpV::Move(f, t) => JsonV::Object(
            seq![("from"@, JsonV::Str(f)), ("op"@, JsonV::Str("move"@)), ("to"@, JsonV::Str(t))],
        ),
    }
}

/// The order key of an operation: its compact JSON text.
pub open spec fn op_key(op: OpV) -> Seq<char> {
    json_text(op_json(op))
}

fn obj_fields(f: Vec<(String, Json)>) -> (r: Json)
    ensures
        r@ == JsonV::Object(fields_view(f@)),
{
    Json::Object(f)
}

impl Op {
    /// The operation class name — the vocabulary promotion rules use.
    pub fn class(&self) -> (r: &'static str)
        ensures
            r@ == op_class(self@),
    {
        match self {
            Op::Add { .. } => "add",
            Op::Modify { .. } => "modify",
            Op::Delete { .. } => "delete",
            Op::Rename { .. } => "rename",
            Op::Move { .. } => "move",
        }
    }

    /// The JSON rendering of this operation.
    pub fn to_json(&self) -> (r: Json)
        ensures
            r@ == op_json(self@),
    {
        let f = match self {
            Op::Add { path } => vec![("op".to_owned(), Json::from_str("add")), ("path".to_owned(), Json::from_str(path.as_str()))],
            Op::Modify { path } => vec![("op".to_owned(), Json::from_str("modify")), ("path".to_owned(), Json::from_str(path.as_str()))],
            Op::Delete { path } => vec![("op".to_owned(), Json::from_str("delete")), ("path".to_owned(), Json::from_str(path.as_str()))],
            Op::Rename { from, to } => vec![
                ("from".to_owned(), Json::from_str(from.as_str())),
                ("op".to_owned(), Json::from_str("rename")),
                ("to".to_owned(), Json::from_str(to.as_str())),
            ],
            Op::Move { from, to } => vec![
                ("from".to_owned(), Json::from_str(from.as_str())),
                ("op".to_owned(), Json::from_str("move")),
                ("to".to_owned(), Json::from_str(to.as_str())),
            ],
        };
        proof { lemma_fields_view_len(f@); }
        let r = obj_fields(f);
        assert(fields_view(f@) =~= match op_json(self@) {
            JsonV::Object(x) => x,
            _ => Seq::empty(),
        });
        r
    }

    /// A copy of this operation.
    pub fn copy(&self) -> (r: Op)
        ensures
            r@ == self@,
    {
        match self {
            Op::Add { path } => Op::Add { path: path.clone() },
            Op::Modify { path } => Op::Modify { path: path.clone() },
            Op::Delete { path } => Op::Delete { path: path.clone() },
            Op::Rename { from, to } => Op::Rename { from: from.clone(), to: to.clone() },
            Op::Move { from, to } => Op::Move { from: from.clone(), to: to.clone() },
        }
    }
}

/// Index of the last `/` in `s`, or -1.
pub open spec fn last_slash(s: Seq<char>) -> int
    decreases s.len(),
{
    if s.len() == 0 {
        -1
    } else if s.last() == '/' {
        s.len() - 1
    } else {
        last_slash(s.drop_last())
    }
}

/// Everything before the last `/` (empty when there is none).
pub open spec fn spec_parent_dir(s: Seq<char>) -> Seq<char> {
    if last_slash(s) < 0 {
        Seq::empty()
    } else {
        s.take(last_slash(s))
    }
}

fn parent_dir(path: &str) -> (r: String)
    ensures
        r@ == spec_parent_dir(path@),
{
    let cs = chars_of(path);
    let mut i: usize = cs.len();
    assert(cs@.take(i as int) =~= cs@);
    while i > 0 && cs[i - 1] != '/'
        invariant
            i <= cs.len(),
            last_slash(cs@) == last_slash(cs@.take(i as int)),
        decreases i,
    {
        assert(cs@.take(i as int).drop_last() =~= cs@.take(i - 1));
        i -= 1;
    }
    let mut out = String::new();
    if i == 0 {
        assert(out@ =~= Seq::<char>::empty());
        return out;
    }
    assert(cs@.take(i as int).last() == '/');
    let mut k: usize = 0;
    while k < i - 1
        invariant
            k <= i - 1,
            i <= cs.len(),
            out@ == cs@.take(k as int),
        decreases i - 1 - k,
    {
        push_char(&mut out, cs[k]);
        k += 1;
        assert(out@ =~= cs@.take(k as int));
    }
    out
}


// ---------------------------------------------------------------------
// Diff with rename/move detection, stated
// ---------------------------------------------------------------------

/// The hash of a path that `side` added relative to `base`.
pub open spec fn added(base: Seq<(Seq<char>, Seq<char>)>, side: Seq<(Seq<char>, Seq<char>)>, p: Seq<char>) -> Option<Seq<char>> {
    if lookup(base, p) is None {
        lookup(side, p)
    } else {
        None
    }
}

/// The hash of a path that `side` deleted relative to `base`.
pub open spec fn deleted(base: Seq<(Seq<char>, Seq<char>)>, side: Seq<(Seq<char>, Seq<char>)>, p: Seq<char>) -> Option<Seq<char>> {
    if lookup(side, p) is None {
        lookup(base, p)
    } else {
        None
    }
}

/// `a` is the only added path with its content.
pub open spec fn sole_added(base: Seq<(Seq<char>, Seq<char>)>, side: Seq<(Seq<char>, Seq<char>)>, a: Seq<char>) -> bool {
    &&& added(base, side, a) is Some
    &&& forall|a2: Seq<char>| #[trigger] added(base, side, a2) == added(base, side, a) ==> a2 == a
}

/// `d` is the only deleted path with its content.
pub open spec fn sole_deleted(base: Seq<(Seq<char>, Seq<char>)>, side: Seq<(Seq<char>, Seq<char>)>, d: Seq<char>) -> bool {
    &&& deleted(base, side, d) is Some
    &&& forall|d2: Seq<char>| #[trigger] deleted(base, side, d2) == deleted(base, side, d) ==> d2 == d
}

/// Deleting `d` and adding `a` is one relocation: same content, and the
/// content is unambiguous on both sides.
pub open spec fn paired(base: Seq<(Seq<char>, Seq<char>)>, side: Seq<(Seq<char>, Seq<char>)>, d: Seq<char>, a: Seq<char>) -> bool {
    &&& sole_deleted(base, side, d)
    &&& sole_added(base, side, a)
    &&& deleted(base, side, d) == added(base, side, a)
}

/// `op` belongs to the diff `base → side`.
pub open spec fn in_diff(base: Seq<(Seq<char>, Seq<char>)>, side: Seq<(Seq<char>, Seq<char>)>, op: OpV) -> bool {
    match op {
        OpV::Modify(p) => lookup(base, p) is Some && lookup(side, p) is Some && lookup(base, p) != lookup(side, p),
        OpV::Add(a) => added(base, side, a) is Some && !(exists|d: Seq<char>| #[trigger] paired(base, side, d, a)),
        OpV::Delete(d) => deleted(base, side, d) is Some && !(exists|a: Seq<char>| #[trigger] paired(base, side, d, a)),
        OpV::Rename(d, a) => paired(base, side, d, a) && spec_parent_dir(d) == spec_parent_dir(a),
        OpV::Move(d, a) => paired(base, side, d, a) && spec_parent_dir(d) != spec_parent_dir(a),
    }
}

/// No element occurs twice.
pub open spec fn no_dup<A>(s: Seq<A>) -> bool {
    forall|i: int, j: int| 0 <= i < j < s.len() ==> s[i] != s[j]
}

/// Operations in non-decreasing order of their JSON text.
pub open spec fn ops_sorted(s: Seq<OpV>) -> bool {
    forall|i: int, j: int| 0 <= i < j < s.len() ==> !chars_lt(#[trigger] op_key(s[j]), #[trigger] op_key(s[i]))
}

/// The diff `base → side`: exactly its operations, each once, in order of
/// their JSON text.
pub open spec fn is_diff(base: Seq<(Seq<char>, Seq<char>)>, side: Seq<(Seq<char>, Seq<char>)>, ops: Seq<OpV>) -> bool {
    &&& no_dup(ops)
    &&& ops_sorted(ops)
    &&& forall|op: OpV| #[trigger] ops.contains(op) <==> in_diff(base, side, op)
}

/// Nothing changed, nothing to do: the diff of a tree against itself has
/// no operations.
pub proof fn law_diff_of_identical_trees_is_empty(t: Seq<(Seq<char>, Seq<char>)>, ops: Seq<OpV>)
    requires
        is_diff(t, t, ops),
    ensures
        ops.len() == 0,
{
    if ops.len() > 0 {
        assert(ops.contains(ops[0]));
        assert(in_diff(t, t, ops[0]));
        match ops[0] {
            OpV::Add(a) => assert(added(t, t, a) is None),
            OpV::Delete(d) => assert(deleted(t, t, d) is None),
            OpV::Rename(d, a) => assert(added(t, t, a) is None),
            OpV::Move(d, a) => assert(added(t, t, a) is None),
            OpV::Modify(p) => {},
        }
    }
}

/// The path an operation puts on the side: an added path, or the target
/// of a rename or move.
pub open spec fn op_target(op: OpV) -> Option<Seq<char>> {
    match op {
        OpV::Add(p) => Some(p),
        OpV::Rename(_, t) => Some(t),
        OpV::Move(_, t) => Some(t),
        _ => None,
    }
}

/// The path an operation takes from the base: a deleted path, or the
/// source of a rename or move.
pub open spec fn op_source(op: OpV) -> Option<Seq<char>> {
    match op {
        OpV::Delete(p) => Some(p),
        OpV::Rename(f, _) => Some(f),
        OpV::Move(f, _) => Some(f),
        _ => None,
    }
}

/// Two operations of one diff that put the same path on the side are the
/// same operation; likewise for the path they take from the base.
proof fn lemma_diff_ends_unique(base: Seq<(Seq<char>, Seq<char>)>, side: Seq<(Seq<char>, Seq<char>)>, x: OpV, y: OpV)
    requires
        in_diff(base, side, x),
        in_diff(base, side, y),
    ensures
        op_target(x) is Some && op_target(x) == op_target(y) ==> x == y,
        op_source(x) is Some && op_source(x) == op_source(y) ==> x == y,
{
    match (x, y) {
        (OpV::Add(a), OpV::Rename(d, b)) => assert(paired(base, side, d, b)),
        (OpV::Add(a), OpV::Move(d, b)) => assert(paired(base, side, d, b)),
        (OpV::Rename(d, b), OpV::Add(a)) => assert(paired(base, side, d, b)),
        (OpV::Move(d, b), OpV::Add(a)) => assert(paired(base, side, d, b)),
        (OpV::Delete(a), OpV::Rename(d, b)) => assert(paired(base, side, d, b)),
        (OpV::Delete(a), OpV::Move(d, b)) => assert(paired(base, side, d, b)),
        (OpV::Rename(d, b), OpV::Delete(a)) => assert(paired(base, side, d, b)),
        (OpV::Move(d, b), OpV::Delete(a)) => assert(paired(base, side, d, b)),
        (OpV::Rename(d1, a1), OpV::Rename(d2, a2)) => lemma_paired_unique(base, side, d1, a1, d2, a2),
        (OpV::Rename(d1, a1), OpV::Move(d2, a2)) => lemma_paired_unique(base, side, d1, a1, d2, a2),
        (OpV::Move(d1, a1), OpV::Rename(d2, a2)) => lemma_paired_unique(base, side, d1, a1, d2, a2),
        (OpV::Move(d1, a1), OpV::Move(d2, a2)) => lemma_paired_unique(base, side, d1, a1, d2, a2),
        _ => {},
    }
}

/// A deleted path pairs with at most one added path, and the other way round.
proof fn lemma_paired_unique(
    base: Seq<(Seq<char>, Seq<char>)>,
    side: Seq<(Seq<char>, Seq<char>)>,
    d1: Seq<char>,
    a1: Seq<char>,
    d2: Seq<char>,
    a2: Seq<char>,
)
    requires
        paired(base, side, d1, a1),
        paired(base, side, d2, a2),
    ensures
        d1 == d2 <==> a1 == a2,
{
    if a1 == a2 {
        assert(deleted(base, side, d2) == deleted(base, side, d1));
    }
    if d1 == d2 {
        assert(added(base, side, a2) == added(base, side, a1));
    }
}

/// The pairing laws of a diff. Every path the side added appears in
/// exactly one operation, as an `add` or as the target of a rename or
/// move; every path it deleted appears in exactly one, as a `delete` or as
/// the source of one. A `modify` names exactly the paths of both trees
/// whose content changed. A rename or move pairs a deleted and an added
/// path of the same content that no other deleted or added path holds, and
/// every such pair is relocated: a rename when both lie in one directory, a
/// move otherwise. The operations come in strictly ascending order of
/// their JSON text.
pub proof fn law_diff_pairing(base: Seq<(Seq<char>, Seq<char>)>, side: Seq<(Seq<char>, Seq<char>)>, ops: Seq<OpV>)
    requires
        is_diff(base, side, ops),
    ensures
        forall|p: Seq<char>|
            #[trigger] added(base, side, p) is Some <==> exists|i: int| 0 <= i < ops.len() && op_target(ops[i]) == Some(p),
        forall|p: Seq<char>|
            #[trigger] deleted(base, side, p) is Some <==> exists|i: int| 0 <= i < ops.len() && op_source(ops[i]) == Some(p),
        forall|i: int, j: int|
            0 <= i < j < ops.len() && op_target(ops[i]) is Some ==> op_target(#[trigger] ops[i]) != op_target(#[trigger] ops[j]),
        forall|i: int, j: int|
            0 <= i < j < ops.len() && op_source(ops[i]) is Some ==> op_source(#[trigger] ops[i]) != op_source(#[trigger] ops[j]),
        forall|p: Seq<char>|
            #[trigger] ops.contains(OpV::Modify(p)) <==> (lookup(base, p) is Some && lookup(side, p) is Some && lookup(base, p)
                != lookup(side, p)),
        forall|d: Seq<char>, a: Seq<char>|
            #[trigger] paired(base, side, d, a) <==> (ops.contains(OpV::Rename(d, a)) || ops.contains(OpV::Move(d, a))),
        forall|d: Seq<char>, a: Seq<char>|
            #[trigger] ops.contains(OpV::Rename(d, a)) ==> deleted(base, side, d) == added(base, side, a) && spec_parent_dir(d)
                == spec_parent_dir(a),
        forall|d: Seq<char>, a: Seq<char>|
            #[trigger] ops.contains(OpV::Move(d, a)) ==> deleted(base, side, d) == added(base, side, a) && spec_parent_dir(d)
                != spec_parent_dir(a),
        forall|i: int, j: int| 0 <= i < j < ops.len() ==> chars_lt(op_key(#[trigger] ops[i]), op_key(#[trigger] ops[j])),
{
    assert forall|i: int, j: int| 0 <= i < j < ops.len() implies chars_lt(op_key(#[trigger] ops[i]), op_key(#[trigger] ops[j])) by {
        lemma_sorted_strict(ops, i, j);
    }
    assert forall|p: Seq<char>|
        #[trigger] added(base, side, p) is Some <==> exists|i: int| 0 <= i < ops.len() && op_target(ops[i]) == Some(p) by {
        if added(base, side, p) is Some {
            let op = if exists|d: Seq<char>| #[trigger] paired(base, side, d, p) {
                let d = choose|d: Seq<char>| #[trigger] paired(base, side, d, p);
                if spec_parent_dir(d) == spec_parent_dir(p) {
                    OpV::Rename(d, p)
                } else {
                    OpV::Move(d, p)
                }
            } else {
                OpV::Add(p)
            };
            assert(in_diff(base, side, op));
            assert(ops.contains(op));
            let i = choose|i: int| 0 <= i < ops.len() && ops[i] == op;
            assert(op_target(ops[i]) == Some(p));
        }
        if exists|i: int| 0 <= i < ops.len() && op_target(ops[i]) == Some(p) {
            let i = choose|i: int| 0 <= i < ops.len() && op_target(ops[i]) == Some(p);
            assert(ops.contains(ops[i]));
            assert(in_diff(base, side, ops[i]));
        }
    }
    assert forall|p: Seq<char>|
        #[trigger] deleted(base, side, p) is Some <==> exists|i: int| 0 <= i < ops.len() && op_source(ops[i]) == Some(p) by {
        if deleted(base, side, p) is Some {
            let op = if exists|a: Seq<char>| #[trigger] paired(base, side, p, a) {
                let a = choose|a: Seq<char>| #[trigger] paired(base, side, p, a);
                if spec_parent_dir(p) == spec_parent_dir(a) {
                    OpV::Rename(p, a)
                } else {
                    OpV::Move(p, a)
                }
            } else {
                OpV::Delete(p)
            };
            assert(in_diff(base, side, op));
            assert(ops.contains(op));
            let i = choose|i: int| 0 <= i < ops.len() && ops[i] == op;
            assert(op_source(ops[i]) == Some(p));
        }
        if exists|i: int| 0 <= i < ops.len() && op_source(ops[i]) == Some(p) {
            let i = choose|i: int| 0 <= i < ops.len() && op_source(ops[i]) == Some(p);
            assert(ops.contains(ops[i]));
            assert(in_diff(base, side, ops[i]));
        }
    }
    assert forall|i: int, j: int| 0 <= i < j < ops.len() && op_target(ops[i]) is Some implies op_target(#[trigger] ops[i])
        != op_target(#[trigger] ops[j]) by {
        assert(ops.contains(ops[i]) && ops.contains(ops[j]));
        lemma_diff_ends_unique(base, side, ops[i], ops[j]);
    }
    assert forall|i: int, j: int| 0 <= i < j < ops.len() && op_source(ops[i]) is Some implies op_source(#[trigger] ops[i])
        != op_source(#[trigger] ops[j]) by {
        assert(ops.contains(ops[i]) && ops.contains(ops[j]));
        lemma_diff_ends_unique(base, side, ops[i], ops[j]);
    }
    assert forall|p: Seq<char>| #[trigger] ops.contains(OpV::Modify(p)) <==> (lookup(base, p) is Some && lookup(side, p) is Some
        && lookup(base, p) != lookup(side, p)) by {
        assert(ops.contains(OpV::Modify(p)) <==> in_diff(base, side, OpV::Modify(p)));
    }
    assert forall|d: Seq<char>, a: Seq<char>| #[trigger] paired(base, side, d, a) <==> (ops.contains(OpV::Rename(d, a))
        || ops.contains(OpV::Move(d, a))) by {
        assert(ops.contains(OpV::Rename(d, a)) <==> in_diff(base, side, OpV::Rename(d, a)));
        assert(ops.contains(OpV::Move(d, a)) <==> in_diff(base, side, OpV::Move(d, a)));
    }
    assert forall|d: Seq<char>, a: Seq<char>| #[trigger] ops.contains(OpV::Rename(d, a)) implies deleted(base, side, d)
        == added(base, side, a) && spec_parent_dir(d) == spec_parent_dir(a) by {
        assert(in_diff(base, side, OpV::Rename(d, a)));
    }
    assert forall|d: Seq<char>, a: Seq<char>| #[trigger] ops.contains(OpV::Move(d, a)) implies deleted(base, side, d)
        == added(base, side, a) && spec_parent_dir(d) != spec_parent_dir(a) by {
        assert(in_diff(base, side, OpV::Move(d, a)));
    }
}

/// A character that JSON text writes as itself.
pub open spec fn plain_char(c: char) -> bool {
    c != '"' && c != '\\' && (c as u32) >= 0x20
}

/// A text of plain characters escapes to itself.
proof fn lemma_escape_plain(s: Seq<char>)
    requires
        forall|i: int| 0 <= i < s.len() ==> plain_char(#[trigger] s[i]),
    ensures
        escape_str(s) == s,
    decreases s.len(),
{
    if s.len() > 0 {
        let t = s.drop_first();
        assert forall|i: int| 0 <= i < t.len() implies plain_char(#[trigger] t[i]) by {
            assert(t[i] == s[i + 1]);
        }
        lemma_escape_plain(t);
        assert(plain_char(s[0]));
        assert(escape_char(s[0]) == seq![s[0]]);
        assert(seq![s[0]] + t =~= s);
    }
}

/// The escape of a character never starts with `"`; one that does not
/// start with `\` is the character itself.
proof fn lemma_escape_char_head(c: char)
    ensures
        escape_char(c).len() >= 2 || escape_char(c) == seq![c],
        escape_char(c)[0] != '"',
        escape_char(c)[0] != '\\' ==> escape_char(c) == seq![c] && c != '\\',
        escape_char(c)[0] == '\\' ==> escape_char(c).len() >= 2,
{
}

/// Distinct hex digit values give distinct digits.
proof fn lemma_hex_digit_inj(a: int, b: int)
    requires
        0 <= a < 16,
        0 <= b < 16,
        hex_digit(a) == hex_digit(b),
    ensures
        a == b,
{
    assert(hex_digit(a) as int == if a < 10 { a + 48 } else { a + 87 });
    assert(hex_digit(b) as int == if b < 10 { b + 48 } else { b + 87 });
}

/// Escapes are prefix-free: a text that starts both with the escape of
/// `c1` and with the escape of `c2` has `c1 == c2`, and the same rest.
proof fn lemma_escape_char_inj(c1: char, c2: char, s1: Seq<char>, s2: Seq<char>)
    requires
        escape_char(c1) + s1 == escape_char(c2) + s2,
    ensures
        c1 == c2,
        s1 == s2,
{
    let e1 = escape_char(c1);
    let e2 = escape_char(c2);
    lemma_escape_char_head(c1);
    lemma_escape_char_head(c2);
    let x = e1 + s1;
    assert(x[0] == e1[0] && x[0] == e2[0]);
    if e1[0] == '\\' {
        assert(x[1] == e1[1] && x[1] == e2[1]);
        if e1[1] == 'u' {
            assert(x[4] == e1[4] && x[4] == e2[4]);
            assert(x[5] == e1[5] && x[5] == e2[5]);
            lemma_hex_digit_inj(((c1 as u32) / 16) as int, ((c2 as u32) / 16) as int);
            lemma_hex_digit_inj(((c1 as u32) % 16) as int, ((c2 as u32) % 16) as int);
            assert(c1 as u32 == c2 as u32);
        }
    }
    assert(c1 == c2);
    assert(s1 =~= x.skip(e1.len() as int));
    assert(s2 =~= (e2 + s2).skip(e2.len() as int));
}

/// A string's escape followed by the closing quote determines the string:
/// the escaped text never holds a bare `"`.
proof fn lemma_escape_quote_inj(a: Seq<char>, b: Seq<char>, r1: Seq<char>, r2: Seq<char>)
    requires
        escape_str(a) + seq!['"'] + r1 == escape_str(b) + seq!['"'] + r2,
    ensures
        a == b,
        r1 == r2,
    decreases a.len(),
{
    let x = escape_str(a) + seq!['"'] + r1;
    if a.len() == 0 {
        assert(x[0] == '"');
        if b.len() > 0 {
            lemma_escape_char_head(b[0]);
            assert((escape_str(b) + seq!['"'] + r2)[0] == escape_char(b[0])[0]);
        }
        assert(r1 =~= x.skip(1));
        assert(r2 =~= (escape_str(b) + seq!['"'] + r2).skip(1));
    } else if b.len() == 0 {
        lemma_escape_char_head(a[0]);
        assert(x[0] == escape_char(a[0])[0]);
        assert((escape_str(b) + seq!['"'] + r2)[0] == '"');
    } else {
        let ta = escape_str(a.drop_first()) + seq!['"'] + r1;
        let tb = escape_str(b.drop_first()) + seq!['"'] + r2;
        assert(x =~= escape_char(a[0]) + ta);
        assert(escape_str(b) + seq!['"'] + r2 =~= escape_char(b[0]) + tb);
        lemma_escape_char_inj(a[0], b[0], ta, tb);
        lemma_escape_quote_inj(a.drop_first(), b.drop_first(), r1, r2);
        assert(a =~= seq![a[0]] + a.drop_first());
        assert(b =~= seq![b[0]] + b.drop_first());
    }
}

/// The text of an `add`, `modify` or `delete` up to its path.
pub open spec fn path_op_head(cls: Seq<char>) -> Seq<char> {
    seq!['{', '"', 'o', 'p', '"', ':', '"'] + cls + seq!['"', ',', '"', 'p', 'a', 't', 'h', '"', ':', '"']
}

/// The text of a `rename` or `move` between its two paths.
pub open spec fn pair_op_middle(cls: Seq<char>) -> Seq<char> {
    seq![',', '"', 'o', 'p', '"', ':', '"'] + cls + seq!['"', ',', '"', 't', 'o', '"', ':', '"']
}

/// The JSON text of an operation, spelled out.
pub open spec fn op_key_spelled(op: OpV) -> Seq<char> {
    match op {
        OpV::Add(p) => path_op_head("add"@) + escape_str(p) + seq!['"', '}'],
        OpV::Modify(p) => path_op_head("modify"@) + escape_str(p) + seq!['"', '}'],
        OpV::Delete(p) => path_op_head("delete"@) + escape_str(p) + seq!['"', '}'],
        OpV::Rename(f, t) => seq!['{', '"', 'f', 'r', 'o', 'm', '"', ':', '"'] + escape_str(f) + seq!['"'] + pair_op_middle(
            "rename"@,
        ) + escape_str(t) + seq!['"', '}'],
        OpV::Move(f, t) => seq!['{', '"', 'f', 'r', 'o', 'm', '"', ':', '"'] + escape_str(f) + seq!['"'] + pair_op_middle(
            "move"@,
        ) + escape_str(t) + seq!['"', '}'],
    }
}

/// A name of plain characters is quoted as itself.
proof fn lemma_quoted_plain(s: Seq<char>)
    requires
        forall|i: int| 0 <= i < s.len() ==> plain_char(#[trigger] s[i]),
    ensures
        quoted(s) == seq!['"'] + s + seq!['"'],
{
    lemma_escape_plain(s);
}

/// The sort key of an operation is its text as spelled out.
proof fn lemma_op_key_text(op: OpV)
    ensures
        op_key(op) == op_key_spelled(op),
{
    reveal_strlit("op");
    reveal_strlit("path");
    reveal_strlit("from");
    reveal_strlit("to");
    reveal_strlit("add");
    reveal_strlit("modify");
    reveal_strlit("delete");
    reveal_strlit("rename");
    reveal_strlit("move");
    lemma_quoted_plain("op"@);
    lemma_quoted_plain("path"@);
    lemma_quoted_plain("from"@);
    lemma_quoted_plain("to"@);
    lemma_quoted_plain("add"@);
    lemma_quoted_plain("modify"@);
    lemma_quoted_plain("delete"@);
    lemma_quoted_plain("rename"@);
    lemma_quoted_plain("move"@);
    assert(quoted("op"@) =~= seq!['"', 'o', 'p', '"']);
    assert(quoted("path"@) =~= seq!['"', 'p', 'a', 't', 'h', '"']);
    assert(quoted("from"@) =~= seq!['"', 'f', 'r', 'o', 'm', '"']);
    assert(quoted("to"@) =~= seq!['"', 't', 'o', '"']);
    match op {
        OpV::Add(p) => lemma_path_op_text("add"@, p),
        OpV::Modify(p) => lemma_path_op_text("modify"@, p),
        OpV::Delete(p) => lemma_path_op_text("delete"@, p),
        OpV::Rename(f, t) => lemma_pair_op_text("rename"@, f, t),
        OpV::Move(f, t) => lemma_pair_op_text("move"@, f, t),
    }
}

proof fn lemma_path_op_text(cls: Seq<char>, p: Seq<char>)
    requires
        quoted("op"@) == seq!['"', 'o', 'p', '"'],
        quoted("path"@) == seq!['"', 'p', 'a', 't', 'h', '"'],
        quoted(cls) == seq!['"'] + cls + seq!['"'],
    ensures
        json_text(JsonV::Object(seq![("op"@, JsonV::Str(cls)), ("path"@, JsonV::Str(p))])) == path_op_head(cls) + escape_str(p)
            + seq!['"', '}'],
{
    let f = seq![("op"@, JsonV::Str(cls)), ("path"@, JsonV::Str(p))];
    let g = f.drop_first();
    assert(g =~= seq![("path"@, JsonV::Str(p))]);
    assert(g.len() == 1 && g[0].0 == "path"@ && g[0].1 == JsonV::Str(p));
    assert(json_text(JsonV::Str(p)) == quoted(p));
    assert(json_text(JsonV::Str(cls)) == quoted(cls));
    assert(fields_text(g) == quoted("path"@) + seq![':'] + quoted(p));
    assert(f.len() == 2 && f[0].0 == "op"@ && f[0].1 == JsonV::Str(cls));
    assert(fields_text(f) == quoted("op"@) + seq![':'] + quoted(cls) + seq![','] + fields_text(g));
    assert(json_text(JsonV::Object(f)) =~= path_op_head(cls) + escape_str(p) + seq!['"', '}']);
}

proof fn lemma_pair_op_text(cls: Seq<char>, from: Seq<char>, to: Seq<char>)
    requires
        quoted("op"@) == seq!['"', 'o', 'p', '"'],
        quoted("from"@) == seq!['"', 'f', 'r', 'o', 'm', '"'],
        quoted("to"@) == seq!['"', 't', 'o', '"'],
        quoted(cls) == seq!['"'] + cls + seq!['"'],
    ensures
        json_text(
            JsonV::Object(seq![("from"@, JsonV::Str(from)), ("op"@, JsonV::Str(cls)), ("to"@, JsonV::Str(to))]),
        ) == seq!['{', '"', 'f', 'r', 'o', 'm', '"', ':', '"'] + escape_str(from) + seq!['"'] + pair_op_middle(cls) + escape_str(to)
            + seq!['"', '}'],
{
    let f = seq![("from"@, JsonV::Str(from)), ("op"@, JsonV::Str(cls)), ("to"@, JsonV::Str(to))];
    let g = f.drop_first();
    let h = g.drop_first();
    assert(g =~= seq![("op"@, JsonV::Str(cls)), ("to"@, JsonV::Str(to))]);
    assert(h =~= seq![("to"@, JsonV::Str(to))]);
    assert(json_text(JsonV::Str(to)) == quoted(to));
    assert(json_text(JsonV::Str(cls)) == quoted(cls));
    assert(json_text(JsonV::Str(from)) == quoted(from));
    assert(h.len() == 1 && h[0].0 == "to"@ && h[0].1 == JsonV::Str(to));
    assert(fields_text(h) == quoted("to"@) + seq![':'] + quoted(to));
    assert(g.len() == 2 && g[0].0 == "op"@ && g[0].1 == JsonV::Str(cls));
    assert(fields_text(g) == quoted("op"@) + seq![':'] + quoted(cls) + seq![','] + fields_text(h));
    assert(f.len() == 3 && f[0].0 == "from"@ && f[0].1 == JsonV::Str(from));
    assert(fields_text(f) == quoted("from"@) + seq![':'] + quoted(from) + seq![','] + fields_text(g));
    assert(json_text(JsonV::Object(f)) =~= seq!['{', '"', 'f', 'r', 'o', 'm', '"', ':', '"'] + escape_str(from) + seq!['"']
        + pair_op_middle(cls) + escape_str(to) + seq!['"', '}']);
}

/// Operations with the same JSON text are the same operation: the sort
/// key orders a diff strictly.
pub proof fn lemma_op_key_injective(x: OpV, y: OpV)
    requires
        op_key(x) == op_key(y),
    ensures
        x == y,
{
    lemma_op_key_text(x);
    lemma_op_key_text(y);
    reveal_strlit("add");
    reveal_strlit("modify");
    reveal_strlit("delete");
    reveal_strlit("rename");
    reveal_strlit("move");
    let k = op_key(x);
    match (x, y) {
        (OpV::Add(p), OpV::Add(q)) => lemma_path_op_same("add"@, p, q),
        (OpV::Modify(p), OpV::Modify(q)) => lemma_path_op_same("modify"@, p, q),
        (OpV::Delete(p), OpV::Delete(q)) => lemma_path_op_same("delete"@, p, q),
        (OpV::Rename(f1, t1), OpV::Rename(f2, t2)) => lemma_pair_op_same("rename"@, "rename"@, f1, t1, f2, t2),
        (OpV::Move(f1, t1), OpV::Move(f2, t2)) => lemma_pair_op_same("move"@, "move"@, f1, t1, f2, t2),
        (OpV::Rename(f1, t1), OpV::Move(f2, t2)) => lemma_pair_op_same("rename"@, "move"@, f1, t1, f2, t2),
        (OpV::Move(f1, t1), OpV::Rename(f2, t2)) => lemma_pair_op_same("move"@, "rename"@, f1, t1, f2, t2),
        (OpV::Rename(_, _), _) => assert(k[2] == 'f' && op_key(y)[2] == 'o'),
        (OpV::Move(_, _), _) => assert(k[2] == 'f' && op_key(y)[2] == 'o'),
        (_, OpV::Rename(_, _)) => assert(k[2] == 'o' && op_key(y)[2] == 'f'),
        (_, OpV::Move(_, _)) => assert(k[2] == 'o' && op_key(y)[2] == 'f'),
        _ => assert(k[7] != op_key(y)[7]),
    }
}

proof fn lemma_path_op_same(cls: Seq<char>, p: Seq<char>, q: Seq<char>)
    requires
        path_op_head(cls) + escape_str(p) + seq!['"', '}'] == path_op_head(cls) + escape_str(q) + seq!['"', '}'],
    ensures
        p == q,
{
    let h = path_op_head(cls);
    let a = h + escape_str(p) + seq!['"', '}'];
    let b = h + escape_str(q) + seq!['"', '}'];
    assert(a.skip(h.len() as int) =~= escape_str(p) + seq!['"'] + seq!['}']);
    assert(b.skip(h.len() as int) =~= escape_str(q) + seq!['"'] + seq!['}']);
    lemma_escape_quote_inj(p, q, seq!['}'], seq!['}']);
}

proof fn lemma_pair_op_same(c1: Seq<char>, c2: Seq<char>, f1: Seq<char>, t1: Seq<char>, f2: Seq<char>, t2: Seq<char>)
    requires
        c1.len() > 0 && c2.len() > 0,
        c1 == c2 || c1[0] != c2[0],
        seq!['{', '"', 'f', 'r', 'o', 'm', '"', ':', '"'] + escape_str(f1) + seq!['"'] + pair_op_middle(c1) + escape_str(t1) + seq![
            '"',
            '}',
        ] == seq!['{', '"', 'f', 'r', 'o', 'm', '"', ':', '"'] + escape_str(f2) + seq!['"'] + pair_op_middle(c2) + escape_str(t2)
            + seq!['"', '}'],
    ensures
        c1 == c2 && f1 == f2 && t1 == t2,
{
    let h = seq!['{', '"', 'f', 'r', 'o', 'm', '"', ':', '"'];
    let r1 = pair_op_middle(c1) + escape_str(t1) + seq!['"', '}'];
    let r2 = pair_op_middle(c2) + escape_str(t2) + seq!['"', '}'];
    let a = h + escape_str(f1) + seq!['"'] + pair_op_middle(c1) + escape_str(t1) + seq!['"', '}'];
    let b = h + escape_str(f2) + seq!['"'] + pair_op_middle(c2) + escape_str(t2) + seq!['"', '}'];
    assert(a.skip(9) =~= escape_str(f1) + seq!['"'] + r1);
    assert(b.skip(9) =~= escape_str(f2) + seq!['"'] + r2);
    lemma_escape_quote_inj(f1, f2, r1, r2);
    assert(r1[7] == c1[0] && r2[7] == c2[0]);
    let m = pair_op_middle(c1);
    assert(r1.skip(m.len() as int) =~= escape_str(t1) + seq!['"'] + seq!['}']);
    assert(r2.skip(m.len() as int) =~= escape_str(t2) + seq!['"'] + seq!['}']);
    lemma_escape_quote_inj(t1, t2, seq!['}'], seq!['}']);
}

/// The operations of a diff of two trees are fixed by the trees: two
/// operation lists that are both the diff `base → side` are equal.
pub proof fn law_diff_unique(
    base: Seq<(Seq<char>, Seq<char>)>,
    side: Seq<(Seq<char>, Seq<char>)>,
    x: Seq<OpV>,
    y: Seq<OpV>,
)
    requires
        is_diff(base, side, x),
        is_diff(base, side, y),
    ensures
        x == y,
{
    lemma_sorted_ops_unique(x, y);
}

/// Duplicate-free operation lists in order of their text, with the same
/// members, are equal.
proof fn lemma_sorted_ops_unique(x: Seq<OpV>, y: Seq<OpV>)
    requires
        no_dup(x),
        no_dup(y),
        ops_sorted(x),
        ops_sorted(y),
        forall|o: OpV| #[trigger] x.contains(o) <==> y.contains(o),
    ensures
        x == y,
    decreases x.len(),
{
    if x.len() == 0 {
        if y.len() > 0 {
            assert(y.contains(y[0]));
            assert(x.contains(y[0]));
        }
        assert(x =~= y);
    } else {
        assert(x.contains(x[0]));
        assert(y.contains(x[0]));
        let j = choose|j: int| 0 <= j < y.len() && y[j] == x[0];
        if j != 0 {
            assert(y.contains(y[0]));
            assert(x.contains(y[0]));
            let i = choose|i: int| 0 <= i < x.len() && x[i] == y[0];
            assert(i != 0);
            lemma_sorted_strict(x, 0, i);
            lemma_sorted_strict(y, 0, j);
            lemma_chars_lt_trans(op_key(x[0]), op_key(x[i]), op_key(y[j]));
            lemma_chars_lt_irrefl(op_key(x[0]));
        }
        assert(x[0] == y[0]);
        let xt = x.drop_first();
        let yt = y.drop_first();
        assert forall|i: int, k: int| 0 <= i < k < xt.len() implies xt[i] != xt[k] by {
            assert(xt[i] == x[i + 1] && xt[k] == x[k + 1]);
        }
        assert forall|i: int, k: int| 0 <= i < k < yt.len() implies yt[i] != yt[k] by {
            assert(yt[i] == y[i + 1] && yt[k] == y[k + 1]);
        }
        assert forall|i: int, k: int| 0 <= i < k < xt.len() implies !chars_lt(#[trigger] op_key(xt[k]), #[trigger] op_key(xt[i])) by {
            assert(xt[i] == x[i + 1] && xt[k] == x[k + 1]);
        }
        assert forall|i: int, k: int| 0 <= i < k < yt.len() implies !chars_lt(#[trigger] op_key(yt[k]), #[trigger] op_key(yt[i])) by {
            assert(yt[i] == y[i + 1] && yt[k] == y[k + 1]);
        }
        assert forall|o: OpV| #[trigger] xt.contains(o) <==> yt.contains(o) by {
            if xt.contains(o) {
                let i = choose|i: int| 0 <= i < xt.len() && xt[i] == o;
                assert(x[i + 1] == o);
                assert(x.contains(o));
                let k = choose|k: int| 0 <= k < y.len() && y[k] == o;
                assert(k != 0);
                assert(yt[k - 1] == o);
            }
            if yt.contains(o) {
                let i = choose|i: int| 0 <= i < yt.len() && yt[i] == o;
                assert(y[i + 1] == o);
                assert(y[i + 1] != y[0]);
                assert(y.contains(o));
                assert(x.contains(o));
                let k = choose|k: int| 0 <= k < x.len() && x[k] == o;
                assert(k != 0);
                assert(xt[k - 1] == o);
            }
        }
        lemma_sorted_ops_unique(xt, yt);
        assert(x =~= seq![x[0]] + xt);
        assert(y =~= seq![y[0]] + yt);
    }
}

/// In a duplicate-free list in order of text, earlier operations have
/// strictly smaller text.
proof fn lemma_sorted_strict(s: Seq<OpV>, i: int, j: int)
    requires
        no_dup(s),
        ops_sorted(s),
        0 <= i < j < s.len(),
    ensures
        chars_lt(op_key(s[i]), op_key(s[j])),
{
    assert(!chars_lt(op_key(s[j]), op_key(s[i])));
    lemma_chars_lt_total(op_key(s[i]), op_key(s[j]));
    if op_key(s[i]) == op_key(s[j]) {
        lemma_op_key_injective(s[i], s[j]);
    }
}

// ---------------------------------------------------------------------
// Sequence facts
// ---------------------------------------------------------------------

proof fn lemma_contains_push<A>(s: Seq<A>, x: A, y: A)
    ensures
        s.push(x).contains(y) == (s.contains(y) || y == x),
{
    if s.contains(y) {
        let i = choose|i: int| 0 <= i < s.len() && s[i] == y;
        assert(s.push(x)[i] == y);
    }
    if y == x {
        assert(s.push(x)[s.len() as int] == y);
    }
    if s.push(x).contains(y) {
        let i = choose|i: int| 0 <= i < s.push(x).len() && s.push(x)[i] == y;
        if i < s.len() {
            assert(s[i] == y);
        }
    }
}

proof fn lemma_no_dup_push<A>(s: Seq<A>, x: A)
    requires
        no_dup(s),
        !s.contains(x),
    ensures
        no_dup(s.push(x)),
{
    assert forall|i: int, j: int| 0 <= i < j < s.push(x).len() implies s.push(x)[i] != s.push(x)[j] by {
        if j == s.len() {
            assert(s[i] == s.push(x)[i]);
        } else {
            assert(s[i] == s.push(x)[i]);
            assert(s[j] == s.push(x)[j]);
        }
    }
}

proof fn lemma_ops_view_push(s: Seq<Op>, x: Op)
    ensures
        ops_view(s.push(x)) == ops_view(s).push(x.view()),
{
    assert(ops_view(s.push(x)) =~= ops_view(s).push(x.view()));
}

/// Keys found before position `i` of sorted entries lie below its key.
proof fn lemma_before(s: Seq<(Seq<char>, Seq<char>)>, i: int, q: Seq<char>)
    requires
        sorted_keys(s),
        0 <= i < s.len(),
        lookup(s.take(i), q) is Some,
    ensures
        chars_lt(q, s[i].0),
        q != s[i].0,
{
    lemma_lookup_found(s.take(i), q);
    let m = choose|m: int| 0 <= m < s.take(i).len() && s.take(i)[m].0 == q && s.take(i)[m].1 == lookup(s.take(i), q)->0;
    assert(s[m].0 == q);
    assert(chars_lt(s[m].0, s[i].0));
    lemma_chars_lt_irrefl(q);
}

/// Lookup in a prefix grown by one entry.
proof fn lemma_take_step(s: Seq<(Seq<char>, Seq<char>)>, i: int, q: Seq<char>)
    requires
        0 <= i < s.len(),
    ensures
        lookup(s.take(i + 1), q) == match lookup(s.take(i), q) {
            Some(v) => Some(v),
            None => if s[i].0 == q {
                Some(s[i].1)
            } else {
                None
            },
        },
{
    assert(s.take(i + 1) =~= s.take(i).push(s[i]));
    lemma_lookup_push(s.take(i), s[i], q);
}

/// Number of entries holding `h`.
pub open spec fn hash_count(s: Seq<(Seq<char>, Seq<char>)>, h: Seq<char>) -> nat
    decreases s.len(),
{
    if s.len() == 0 {
        0
    } else {
        (if s[0].1 == h {
            1nat
        } else {
            0nat
        }) + hash_count(s.drop_first(), h)
    }
}

proof fn lemma_hash_count_zero(s: Seq<(Seq<char>, Seq<char>)>, h: Seq<char>)
    ensures
        (hash_count(s, h) == 0) == (forall|j: int| 0 <= j < s.len() ==> (#[trigger] s[j]).1 != h),
    decreases s.len(),
{
    if s.len() > 0 {
        lemma_hash_count_zero(s.drop_first(), h);
        if hash_count(s, h) == 0 {
            assert forall|j: int| 0 <= j < s.len() implies (#[trigger] s[j]).1 != h by {
                if j > 0 {
                    assert(s[j] == s.drop_first()[j - 1]);
                }
            }
        }
        if forall|j: int| 0 <= j < s.len() ==> (#[trigger] s[j]).1 != h {
            assert(s[0].1 != h);
            assert forall|j: int| 0 <= j < s.drop_first().len() implies (#[trigger] s.drop_first()[j]).1 != h by {
                assert(s.drop_first()[j] == s[j + 1]);
            }
        }
    }
}

/// With `s[i]` holding `h`: `h` is held once exactly when no other entry
/// holds it.
proof fn lemma_hash_count_one(s: Seq<(Seq<char>, Seq<char>)>, h: Seq<char>, i: int)
    requires
        0 <= i < s.len(),
        s[i].1 == h,
    ensures
        (hash_count(s, h) == 1) == (forall|j: int| 0 <= j < s.len() && (#[trigger] s[j]).1 == h ==> j == i),
        hash_count(s, h) >= 1,
    decreases s.len(),
{
    let t = s.drop_first();
    if i == 0 {
        lemma_hash_count_zero(t, h);
        if hash_count(s, h) == 1 {
            assert forall|j: int| 0 <= j < s.len() && (#[trigger] s[j]).1 == h implies j == i by {
                if j > 0 {
                    assert(s[j] == t[j - 1]);
                }
            }
        }
        if forall|j: int| 0 <= j < s.len() && (#[trigger] s[j]).1 == h ==> j == i {
            assert forall|j: int| 0 <= j < t.len() implies (#[trigger] t[j]).1 != h by {
                assert(t[j] == s[j + 1]);
            }
        }
    } else {
        assert(t[i - 1] == s[i]);
        lemma_hash_count_one(t, h, i - 1);
        if s[0].1 == h {
            assert(!(forall|j: int| 0 <= j < s.len() && (#[trigger] s[j]).1 == h ==> j == i));
        } else {
            if hash_count(s, h) == 1 {
                assert forall|j: int| 0 <= j < s.len() && (#[trigger] s[j]).1 == h implies j == i by {
                    if j > 0 {
                        assert(s[j] == t[j - 1]);
                    }
                }
            }
            if forall|j: int| 0 <= j < s.len() && (#[trigger] s[j]).1 == h ==> j == i {
                assert forall|j: int| 0 <= j < t.len() && (#[trigger] t[j]).1 == h implies j == i - 1 by {
                    assert(t[j] == s[j + 1]);
                }
            }
        }
    }
}

/// In sorted entries, a key is the only one with its value exactly when
/// that value is held once.
proof fn lemma_sole_count(s: Seq<(Seq<char>, Seq<char>)>, i: int)
    requires
        sorted_keys(s),
        0 <= i < s.len(),
    ensures
        (forall|q: Seq<char>| #[trigger] lookup(s, q) == Some(s[i].1) ==> q == s[i].0) == (hash_count(s, s[i].1) == 1),
{
    let h = s[i].1;
    lemma_hash_count_one(s, h, i);
    lemma_lookup_sorted(s, s[i].0);
    if hash_count(s, h) == 1 {
        assert forall|q: Seq<char>| #[trigger] lookup(s, q) == Some(h) implies q == s[i].0 by {
            lemma_lookup_found(s, q);
            let j = choose|j: int| 0 <= j < s.len() && s[j].0 == q && s[j].1 == lookup(s, q)->0;
            assert(s[j].1 == h);
        }
    } else {
        let j = choose|j: int| 0 <= j < s.len() && (#[trigger] s[j]).1 == h && j != i;
        lemma_lookup_index(s, j);
        if j < i {
            assert(chars_lt(s[j].0, s[i].0));
        } else {
            assert(chars_lt(s[i].0, s[j].0));
        }
        lemma_chars_lt_irrefl(s[i].0);
        assert(lookup(s, s[j].0) == Some(h) && s[j].0 != s[i].0);
    }
}


// ---------------------------------------------------------------------
// Diff, computed
// ---------------------------------------------------------------------

fn count_hash(v: &Vec<(String, String)>, h: &str) -> (r: usize)
    ensures
        r == hash_count(pairs_view(v@), h@),
{
    let ghost s = pairs_view(v@);
    let mut c: usize = 0;
    let mut i: usize = 0;
    assert(s.skip(0) =~= s);
    while i < v.len()
        invariant
            i <= v.len(),
            s == pairs_view(v@),
            s.len() == v.len(),
            c <= i,
            c + hash_count(s.skip(i as int), h@) == hash_count(s, h@),
        decreases v.len() - i,
    {
        assert(s.skip(i as int).drop_first() =~= s.skip(i + 1));
        assert(s.skip(i as int)[0] == s[i as int]);
        if str_eq(v[i].1.as_str(), h) {
            c += 1;
        }
        i += 1;
    }
    assert(s.skip(i as int).len() == 0);
    c
}

fn find_hash(v: &Vec<(String, String)>, h: &str) -> (r: usize)
    requires
        hash_count(pairs_view(v@), h@) >= 1,
    ensures
        r < v.len(),
        pairs_view(v@)[r as int].1 == h@,
{
    let ghost s = pairs_view(v@);
    let mut i: usize = 0;
    assert(s.skip(0) =~= s);
    while i < v.len()
        invariant
            i <= v.len(),
            s == pairs_view(v@),
            s.len() == v.len(),
            hash_count(s.skip(i as int), h@) >= 1,
        decreases v.len() - i,
    {
        assert(s.skip(i as int).drop_first() =~= s.skip(i + 1));
        assert(s.skip(i as int)[0] == s[i as int]);
        if str_eq(v[i].1.as_str(), h) {
            return i;
        }
        i += 1;
    }
    assert(s.skip(i as int).len() == 0);
    0
}

/// Paths of `side` absent from `base` (with their hashes), and the
/// modifications of paths present in both.
#[verifier::spinoff_prover]
fn split_side(base: &Tree, side: &Tree) -> (r: (Vec<(String, String)>, Vec<Op>))
    requires
        base.wf(),
        side.wf(),
    ensures
        sorted_keys(pairs_view(r.0@)),
        forall|q: Seq<char>| #[trigger] lookup(pairs_view(r.0@), q) == added(base@, side@, q),
        no_dup(ops_view(r.1@)),
        forall|op: OpV| #[trigger] ops_view(r.1@).contains(op) <==> (op is Modify && in_diff(base@, side@, op)),
{
    let ghost bv = base@;
    let ghost sv = side@;
    let se = side.entries();
    let mut adds: Vec<(String, String)> = Vec::new();
    let mut mods: Vec<Op> = Vec::new();
    let mut i: usize = 0;
    assert(sv.take(0) =~= Seq::<(Seq<char>, Seq<char>)>::empty());
    while i < se.len()
        invariant
            i <= se.len(),
            sv == side@,
            bv == base@,
            pairs_view(se@) == sv,
            sv.len() == se.len(),
            sorted_keys(sv),
            sorted_keys(pairs_view(adds@)),
            forall|q: Seq<char>| #[trigger] lookup(pairs_view(adds@), q) == if lookup(bv, q) is None {
                lookup(sv.take(i as int), q)
            } else {
                None
            },
            forall|j: int| 0 <= j < adds.len() ==> lookup(sv.take(i as int), (#[trigger] pairs_view(adds@)[j]).0) is Some,
            no_dup(ops_view(mods@)),
            forall|op: OpV| #[trigger] ops_view(mods@).contains(op) <==> (op is Modify && lookup(sv.take(i as int), op->Modify_0) is Some && in_diff(bv, sv, op)),
        decreases se.len() - i,
    {
        let ghost p = sv[i as int].0;
        let ghost h = sv[i as int].1;
        assert(p == se@[i as int].0@ && h == se@[i as int].1@);
        proof {
            lemma_lookup_index(sv, i as int);
            assert forall|q: Seq<char>| #[trigger] lookup(sv.take(i + 1), q) == match lookup(sv.take(i as int), q) {
                Some(v) => Some(v),
                None => if p == q {
                    Some(h)
                } else {
                    None
                },
            } by {
                lemma_take_step(sv, i as int, q);
            }
        }
        let ghost av0 = pairs_view(adds@);
        let ghost mv0 = ops_view(mods@);
        match base.get(se[i].0.as_str()) {
            None => {
                adds.push((se[i].0.clone(), se[i].1.clone()));
                proof {
                    let av = pairs_view(adds@);
                    assert(av =~= av0.push((p, h)));
                    assert forall|a: int, b: int| 0 <= a < b < av.len() implies chars_lt(#[trigger] av[a].0, #[trigger] av[b].0) by {
                        if b == av.len() - 1 {
                            assert(av[a] == av0[a]);
                            lemma_before(sv, i as int, av0[a].0);
                        } else {
                            assert(av[a] == av0[a]);
                            assert(av[b] == av0[b]);
                        }
                    }
                    assert forall|q: Seq<char>| #[trigger] lookup(av, q) == if lookup(bv, q) is None {
                        lookup(sv.take(i + 1), q)
                    } else {
                        None
                    } by {
                        lemma_lookup_push(av0, (p, h), q);
                        if lookup(sv.take(i as int), q) is Some {
                            lemma_before(sv, i as int, q);
                        }
                    }
                    assert forall|j: int| 0 <= j < av.len() implies lookup(sv.take(i + 1), (#[trigger] av[j]).0) is Some by {
                        if j < av0.len() {
                            assert(av[j] == av0[j]);
                        }
                    }
                    assert forall|op: OpV| #[trigger] mv0.contains(op) <==> (op is Modify && lookup(sv.take(i + 1), op->Modify_0) is Some && in_diff(bv, sv, op)) by {
                        if op is Modify && op->Modify_0 == p {
                            if mv0.contains(op) {
                                lemma_before(sv, i as int, p);
                            }
                        }
                    }
                }
            },
            Some(b) => {
                if !str_eq(b.as_str(), se[i].1.as_str()) {
                    let op = Op::Modify { path: se[i].0.clone() };
                    proof {
                        if mv0.contains(op@) {
                            lemma_before(sv, i as int, p);
                        }
                        lemma_no_dup_push(mv0, op@);
                    }
                    let ghost opv = op@;
                    let ghost m0 = mods@;
                    mods.push(op);
                    proof {
                        lemma_ops_view_push(m0, op);
                        assert(ops_view(mods@) == mv0.push(opv));
                    }
                }
                proof {
                    let mv = ops_view(mods@);
                    assert forall|q: Seq<char>| #[trigger] lookup(pairs_view(adds@), q) == if lookup(bv, q) is None {
                        lookup(sv.take(i + 1), q)
                    } else {
                        None
                    } by {
                        if q == p && lookup(sv.take(i as int), q) is None {
                            assert(lookup(bv, q) is Some);
                        }
                    }
                    assert forall|j: int| 0 <= j < adds.len() implies lookup(sv.take(i + 1), (#[trigger] pairs_view(adds@)[j]).0) is Some by {
                        assert(lookup(sv.take(i as int), pairs_view(adds@)[j].0) is Some);
                    }
                    assert forall|op: OpV| #[trigger] mv.contains(op) <==> (op is Modify && lookup(sv.take(i + 1), op->Modify_0) is Some && in_diff(bv, sv, op)) by {
                        if mv.len() > mv0.len() {
                            assert(mv =~= mv0.push(OpV::Modify(p)));
                            lemma_contains_push(mv0, OpV::Modify(p), op);
                        } else {
                            assert(mv =~= mv0);
                        }
                        if op is Modify && op->Modify_0 == p {
                            if mv0.contains(op) {
                                lemma_before(sv, i as int, p);
                            }
                        }
                    }
                }
            },
        }
        i += 1;
    }
    assert(sv.take(i as int) =~= sv);
    (adds, mods)
}

/// Paths of `base` absent from `side`, with their hashes.
#[verifier::spinoff_prover]
fn deletions(base: &Tree, side: &Tree) -> (r: Vec<(String, String)>)
    requires
        base.wf(),
        side.wf(),
    ensures
        sorted_keys(pairs_view(r@)),
        forall|q: Seq<char>| #[trigger] lookup(pairs_view(r@), q) == deleted(base@, side@, q),
{
    let ghost bv = base@;
    let ghost sv = side@;
    let be = base.entries();
    let mut dels: Vec<(String, String)> = Vec::new();
    let mut i: usize = 0;
    assert(bv.take(0) =~= Seq::<(Seq<char>, Seq<char>)>::empty());
    while i < be.len()
        invariant
            i <= be.len(),
            sv == side@,
            bv == base@,
            pairs_view(be@) == bv,
            bv.len() == be.len(),
            sorted_keys(bv),
            sorted_keys(pairs_view(dels@)),
            forall|q: Seq<char>| #[trigger] lookup(pairs_view(dels@), q) == if lookup(sv, q) is None {
                lookup(bv.take(i as int), q)
            } else {
                None
            },
            forall|j: int| 0 <= j < dels.len() ==> lookup(bv.take(i as int), (#[trigger] pairs_view(dels@)[j]).0) is Some,
        decreases be.len() - i,
    {
        let ghost p = bv[i as int].0;
        let ghost h = bv[i as int].1;
        assert(p == be@[i as int].0@ && h == be@[i as int].1@);
        proof {
            assert forall|q: Seq<char>| #[trigger] lookup(bv.take(i + 1), q) == match lookup(bv.take(i as int), q) {
                Some(v) => Some(v),
                None => if p == q {
                    Some(h)
                } else {
                    None
                },
            } by {
                lemma_take_step(bv, i as int, q);
            }
        }
        let ghost dv0 = pairs_view(dels@);
        if !side.contains_key(be[i].0.as_str()) {
            dels.push((be[i].0.clone(), be[i].1.clone()));
            proof {
                let dv = pairs_view(dels@);
                assert(dv =~= dv0.push((p, h)));
                assert forall|a: int, b: int| 0 <= a < b < dv.len() implies chars_lt(#[trigger] dv[a].0, #[trigger] dv[b].0) by {
                    if b == dv.len() - 1 {
                        assert(dv[a] == dv0[a]);
                        lemma_before(bv, i as int, dv0[a].0);
                    } else {
                        assert(dv[a] == dv0[a]);
                        assert(dv[b] == dv0[b]);
                    }
                }
                assert forall|q: Seq<char>| #[trigger] lookup(dv, q) == if lookup(sv, q) is None {
                    lookup(bv.take(i + 1), q)
                } else {
                    None
                } by {
                    lemma_lookup_push(dv0, (p, h), q);
                    if lookup(bv.take(i as int), q) is Some {
                        lemma_before(bv, i as int, q);
                    }
                }
                assert forall|j: int| 0 <= j < dv.len() implies lookup(bv.take(i + 1), (#[trigger] dv[j]).0) is Some by {
                    if j < dv0.len() {
                        assert(dv[j] == dv0[j]);
                    }
                }
            }
        } else {
            proof {
                assert forall|q: Seq<char>| #[trigger] lookup(dv0, q) == if lookup(sv, q) is None {
                    lookup(bv.take(i + 1), q)
                } else {
                    None
                } by {
                    if q == p && lookup(bv.take(i as int), q) is None {
                        assert(lookup(sv, q) is Some);
                    }
                }
                assert forall|j: int| 0 <= j < dels.len() implies lookup(bv.take(i + 1), (#[trigger] dv0[j]).0) is Some by {
                    assert(lookup(bv.take(i as int), dv0[j].0) is Some);
                }
            }
        }
        i += 1;
    }
    assert(bv.take(i as int) =~= bv);
    dels
}

/// The added and deleted entries of a diff, as the phases compute them.
pub open spec fn phase_lists(bv: Seq<(Seq<char>, Seq<char>)>, sv: Seq<(Seq<char>, Seq<char>)>, av: Seq<(Seq<char>, Seq<char>)>, dv: Seq<(Seq<char>, Seq<char>)>) -> bool {
    &&& sorted_keys(av)
    &&& sorted_keys(dv)
    &&& forall|q: Seq<char>| #[trigger] lookup(av, q) == added(bv, sv, q)
    &&& forall|q: Seq<char>| #[trigger] lookup(dv, q) == deleted(bv, sv, q)
}

/// Pairing, read off the lists: same hash, held once on each side.
proof fn lemma_paired_at(bv: Seq<(Seq<char>, Seq<char>)>, sv: Seq<(Seq<char>, Seq<char>)>, av: Seq<(Seq<char>, Seq<char>)>, dv: Seq<(Seq<char>, Seq<char>)>, k: int, j: int)
    requires
        phase_lists(bv, sv, av, dv),
        0 <= k < dv.len(),
        0 <= j < av.len(),
    ensures
        paired(bv, sv, dv[k].0, av[j].0) == (dv[k].1 == av[j].1 && hash_count(dv, dv[k].1) == 1
            && hash_count(av, av[j].1) == 1),
{
    let d = dv[k].0;
    let a = av[j].0;
    lemma_lookup_index(dv, k);
    lemma_lookup_index(av, j);
    assert(deleted(bv, sv, d) == Some(dv[k].1));
    assert(added(bv, sv, a) == Some(av[j].1));
    lemma_sole_count(dv, k);
    lemma_sole_count(av, j);
    if sole_deleted(bv, sv, d) {
        assert forall|q: Seq<char>| #[trigger] lookup(dv, q) == Some(dv[k].1) implies q == d by {
            assert(deleted(bv, sv, q) == deleted(bv, sv, d));
        }
    }
    if hash_count(dv, dv[k].1) == 1 {
        assert forall|q: Seq<char>| #[trigger] deleted(bv, sv, q) == deleted(bv, sv, d) implies q == d by {
            assert(lookup(dv, q) == Some(dv[k].1));
        }
    }
    if sole_added(bv, sv, a) {
        assert forall|q: Seq<char>| #[trigger] lookup(av, q) == Some(av[j].1) implies q == a by {
            assert(added(bv, sv, q) == added(bv, sv, a));
        }
    }
    if hash_count(av, av[j].1) == 1 {
        assert forall|q: Seq<char>| #[trigger] added(bv, sv, q) == added(bv, sv, a) implies q == a by {
            assert(lookup(av, q) == Some(av[j].1));
        }
    }
}

/// Both ends of a pair sit in the lists.
proof fn lemma_paired_located(bv: Seq<(Seq<char>, Seq<char>)>, sv: Seq<(Seq<char>, Seq<char>)>, av: Seq<(Seq<char>, Seq<char>)>, dv: Seq<(Seq<char>, Seq<char>)>, d: Seq<char>, a: Seq<char>)
    requires
        phase_lists(bv, sv, av, dv),
        paired(bv, sv, d, a),
    ensures
        exists|k: int| 0 <= k < dv.len() && (#[trigger] dv[k]).0 == d,
        exists|j: int| 0 <= j < av.len() && (#[trigger] av[j]).0 == a,
{
    assert(lookup(dv, d) is Some);
    assert(lookup(av, a) is Some);
    lemma_lookup_sorted(dv, d);
    lemma_lookup_sorted(av, a);
}

/// The relocations among a diff's adds and deletes, with the paths that
/// were paired on each side.
#[verifier::spinoff_prover]
#[verifier::rlimit(40)]
fn relocations(base: &Tree, side: &Tree, adds: &Vec<(String, String)>, dels: &Vec<(String, String)>) -> (r: (Vec<Op>, Vec<String>, Vec<String>))
    requires
        base.wf(),
        side.wf(),
        phase_lists(base@, side@, pairs_view(adds@), pairs_view(dels@)),
    ensures
        no_dup(ops_view(r.0@)),
        forall|op: OpV| #[trigger] ops_view(r.0@).contains(op) <==> ((op is Rename || op is Move) && in_diff(base@, side@, op)),
        forall|q: Seq<char>| #[trigger] string_views(r.1@).contains(q) <==> exists|d: Seq<char>| #[trigger] paired(base@, side@, d, q),
        forall|q: Seq<char>| #[trigger] string_views(r.2@).contains(q) <==> exists|a: Seq<char>| #[trigger] paired(base@, side@, q, a),
{
    let ghost bv = base@;
    let ghost sv = side@;
    let ghost av = pairs_view(adds@);
    let ghost dv = pairs_view(dels@);
    let mut ops: Vec<Op> = Vec::new();
    let mut pa: Vec<String> = Vec::new();
    let mut pd: Vec<String> = Vec::new();
    let mut k: usize = 0;
    assert(dv.take(0) =~= Seq::<(Seq<char>, Seq<char>)>::empty());
    while k < dels.len()
        invariant
            k <= dels.len(),
            bv == base@,
            sv == side@,
            av == pairs_view(adds@),
            dv == pairs_view(dels@),
            dv.len() == dels.len(),
            av.len() == adds.len(),
            phase_lists(bv, sv, av, dv),
            no_dup(ops_view(ops@)),
            forall|op: OpV| #[trigger] ops_view(ops@).contains(op) <==> (match op {
                OpV::Rename(d, _) => lookup(dv.take(k as int), d) is Some,
                OpV::Move(d, _) => lookup(dv.take(k as int), d) is Some,
                _ => false,
            } && in_diff(bv, sv, op)),
            forall|q: Seq<char>| #[trigger] string_views(pa@).contains(q) <==> exists|d: Seq<char>| #[trigger] paired(bv, sv, d, q) && lookup(dv.take(k as int), d) is Some,
            forall|q: Seq<char>| #[trigger] string_views(pd@).contains(q) <==> lookup(dv.take(k as int), q) is Some && exists|a: Seq<char>| #[trigger] paired(bv, sv, q, a),
        decreases dels.len() - k,
    {
        let ghost d = dv[k as int].0;
        let ghost h = dv[k as int].1;
        assert(d == dels@[k as int].0@ && h == dels@[k as int].1@);
        proof {
            assert forall|q: Seq<char>| #[trigger] lookup(dv.take(k + 1), q) == match lookup(dv.take(k as int), q) {
                Some(v) => Some(v),
                None => if d == q {
                    Some(h)
                } else {
                    None
                },
            } by {
                lemma_take_step(dv, k as int, q);
            }
            if lookup(dv.take(k as int), d) is Some {
                lemma_before(dv, k as int, d);
            }
        }
        let ghost ov0 = ops_view(ops@);
        let ghost pa0 = string_views(pa@);
        let ghost pd0 = string_views(pd@);
        let cd = count_hash(dels, dels[k].1.as_str());
        let ca = count_hash(adds, dels[k].1.as_str());
        if cd == 1 && ca == 1 {
            let j = find_hash(adds, dels[k].1.as_str());
            let ghost a = av[j as int].0;
            assert(a == adds@[j as int].0@);
            proof {
                lemma_paired_at(bv, sv, av, dv, k as int, j as int);
            }
            let from = dels[k].0.clone();
            let to = adds[j].0.clone();
            let same_dir = str_eq(parent_dir(from.as_str()).as_str(), parent_dir(to.as_str()).as_str());
            let op = if same_dir {
                Op::Rename { from, to }
            } else {
                Op::Move { from, to }
            };
            let ghost opv = op@;
            let ghost o0 = ops@;
            proof {
                if ov0.contains(opv) {
                    lemma_before(dv, k as int, d);
                }
                lemma_no_dup_push(ov0, opv);
            }
            ops.push(op);
            pa.push(adds[j].0.clone());
            pd.push(dels[k].0.clone());
            proof {
                lemma_ops_view_push(o0, op);
                assert(ops_view(ops@) == ov0.push(opv));
                assert(string_views(pa@) =~= pa0.push(a));
                assert(string_views(pd@) =~= pd0.push(d));
                assert forall|x: OpV| #[trigger] ops_view(ops@).contains(x) <==> (match x {
                    OpV::Rename(d1, _) => lookup(dv.take(k + 1), d1) is Some,
                    OpV::Move(d1, _) => lookup(dv.take(k + 1), d1) is Some,
                    _ => false,
                } && in_diff(bv, sv, x)) by {
                    lemma_contains_push(ov0, opv, x);
                    match x {
                        OpV::Rename(d1, a1) => {
                            if d1 == d && in_diff(bv, sv, x) {
                                assert(added(bv, sv, a1) == added(bv, sv, a));
                            }
                        },
                        OpV::Move(d1, a1) => {
                            if d1 == d && in_diff(bv, sv, x) {
                                assert(added(bv, sv, a1) == added(bv, sv, a));
                            }
                        },
                        _ => {},
                    }
                }
                assert forall|q: Seq<char>| #[trigger] string_views(pa@).contains(q) <==> exists|d1: Seq<char>| #[trigger] paired(bv, sv, d1, q) && lookup(dv.take(k + 1), d1) is Some by {
                    lemma_contains_push(pa0, a, q);
                    if q == a {
                        assert(paired(bv, sv, d, q) && lookup(dv.take(k + 1), d) is Some);
                    }
                    if exists|d1: Seq<char>| #[trigger] paired(bv, sv, d1, q) && lookup(dv.take(k + 1), d1) is Some {
                        let d1 = choose|d1: Seq<char>| #[trigger] paired(bv, sv, d1, q) && lookup(dv.take(k + 1), d1) is Some;
                        if d1 == d {
                            assert(added(bv, sv, q) == added(bv, sv, a));
                        } else {
                            assert(paired(bv, sv, d1, q) && lookup(dv.take(k as int), d1) is Some);
                        }
                    }
                }
                assert forall|q: Seq<char>| #[trigger] string_views(pd@).contains(q) <==> lookup(dv.take(k + 1), q) is Some && exists|a1: Seq<char>| #[trigger] paired(bv, sv, q, a1) by {
                    lemma_contains_push(pd0, d, q);
                    if q == d {
                        assert(paired(bv, sv, q, a));
                    }
                }
            }
        } else {
            proof {
                assert forall|a1: Seq<char>| !#[trigger] paired(bv, sv, d, a1) by {
                    if paired(bv, sv, d, a1) {
                        lemma_paired_located(bv, sv, av, dv, d, a1);
                        let j = choose|j: int| 0 <= j < av.len() && (#[trigger] av[j]).0 == a1;
                        lemma_paired_at(bv, sv, av, dv, k as int, j);
                    }
                }
                assert forall|x: OpV| #[trigger] ov0.contains(x) <==> (match x {
                    OpV::Rename(d1, _) => lookup(dv.take(k + 1), d1) is Some,
                    OpV::Move(d1, _) => lookup(dv.take(k + 1), d1) is Some,
                    _ => false,
                } && in_diff(bv, sv, x)) by {
                    match x {
                        OpV::Rename(d1, a1) => {
                            if d1 == d {
                                assert(!paired(bv, sv, d, a1));
                            }
                        },
                        OpV::Move(d1, a1) => {
                            if d1 == d {
                                assert(!paired(bv, sv, d, a1));
                            }
                        },
                        _ => {},
                    }
                }
                assert forall|q: Seq<char>| #[trigger] pa0.contains(q) <==> exists|d1: Seq<char>| #[trigger] paired(bv, sv, d1, q) && lookup(dv.take(k + 1), d1) is Some by {
                    if exists|d1: Seq<char>| #[trigger] paired(bv, sv, d1, q) && lookup(dv.take(k + 1), d1) is Some {
                        let d1 = choose|d1: Seq<char>| #[trigger] paired(bv, sv, d1, q) && lookup(dv.take(k + 1), d1) is Some;
                        assert(d1 != d);
                        assert(paired(bv, sv, d1, q) && lookup(dv.take(k as int), d1) is Some);
                    }
                }
                assert forall|q: Seq<char>| #[trigger] pd0.contains(q) <==> lookup(dv.take(k + 1), q) is Some && exists|a1: Seq<char>| #[trigger] paired(bv, sv, q, a1) by {
                    if q == d && exists|a1: Seq<char>| #[trigger] paired(bv, sv, q, a1) {
                        let a1 = choose|a1: Seq<char>| #[trigger] paired(bv, sv, q, a1);
                        assert(!paired(bv, sv, d, a1));
                    }
                }
            }
        }
        k += 1;
    }
    proof {
        assert(dv.take(k as int) =~= dv);
        assert forall|op: OpV| #[trigger] ops_view(ops@).contains(op) <==> ((op is Rename || op is Move) && in_diff(bv, sv, op)) by {
            match op {
                OpV::Rename(d1, a1) => {
                    if in_diff(bv, sv, op) {
                        assert(lookup(dv, d1) == deleted(bv, sv, d1));
                    }
                },
                OpV::Move(d1, a1) => {
                    if in_diff(bv, sv, op) {
                        assert(lookup(dv, d1) == deleted(bv, sv, d1));
                    }
                },
                _ => {},
            }
        }
        assert forall|q: Seq<char>| #[trigger] string_views(pa@).contains(q) <==> exists|d1: Seq<char>| #[trigger] paired(bv, sv, d1, q) by {
            if exists|d1: Seq<char>| #[trigger] paired(bv, sv, d1, q) {
                let d1 = choose|d1: Seq<char>| #[trigger] paired(bv, sv, d1, q);
                assert(lookup(dv, d1) == deleted(bv, sv, d1));
                assert(paired(bv, sv, d1, q) && lookup(dv.take(k as int), d1) is Some);
            }
        }
        assert forall|q: Seq<char>| #[trigger] string_views(pd@).contains(q) <==> exists|a1: Seq<char>| #[trigger] paired(bv, sv, q, a1) by {
            if exists|a1: Seq<char>| #[trigger] paired(bv, sv, q, a1) {
                assert(lookup(dv, q) == deleted(bv, sv, q));
            }
        }
    }
    (ops, pa, pd)
}

/// The added paths that were not paired, as `Add` operations.
#[verifier::spinoff_prover]
fn lone_adds(base: &Tree, side: &Tree, adds: &Vec<(String, String)>, paired_adds: &Vec<String>) -> (r: Vec<Op>)
    requires
        sorted_keys(pairs_view(adds@)),
        forall|q: Seq<char>| #[trigger] lookup(pairs_view(adds@), q) == added(base@, side@, q),
        forall|q: Seq<char>| #[trigger] string_views(paired_adds@).contains(q) <==> exists|d: Seq<char>| #[trigger] paired(base@, side@, d, q),
    ensures
        no_dup(ops_view(r@)),
        forall|op: OpV| #[trigger] ops_view(r@).contains(op) <==> (op is Add && in_diff(base@, side@, op)),
{
    let ghost bv = base@;
    let ghost sv = side@;
    let ghost av = pairs_view(adds@);
    let mut ops: Vec<Op> = Vec::new();
    let mut m: usize = 0;
    assert(av.take(0) =~= Seq::<(Seq<char>, Seq<char>)>::empty());
    while m < adds.len()
        invariant
            m <= adds.len(),
            av == pairs_view(adds@),
            av.len() == adds.len(),
            sorted_keys(av),
            forall|q: Seq<char>| #[trigger] lookup(av, q) == added(bv, sv, q),
            no_dup(ops_view(ops@)),
            forall|op: OpV| #[trigger] ops_view(ops@).contains(op) <==> (match op {
                OpV::Add(a) => lookup(av.take(m as int), a) is Some,
                _ => false,
            } && in_diff(bv, sv, op)),
        decreases adds.len() - m,
    {
        let ghost a = av[m as int].0;
        assert(a == adds@[m as int].0@);
        proof {
            lemma_lookup_index(av, m as int);
            assert forall|q: Seq<char>| #[trigger] lookup(av.take(m + 1), q) == match lookup(av.take(m as int), q) {
                Some(v) => Some(v),
                None => if a == q {
                    Some(av[m as int].1)
                } else {
                    None
                },
            } by {
                lemma_take_step(av, m as int, q);
            }
            if lookup(av.take(m as int), a) is Some {
                lemma_before(av, m as int, a);
            }
        }
        let ghost ov0 = ops_view(ops@);
        if !str_list_contains(paired_adds, adds[m].0.as_str()) {
            let op = Op::Add { path: adds[m].0.clone() };
            let ghost opv = op@;
            let ghost o0 = ops@;
            proof { lemma_no_dup_push(ov0, opv); }
            ops.push(op);
            proof {
                lemma_ops_view_push(o0, op);
                assert(ops_view(ops@) == ov0.push(opv));
                assert forall|x: OpV| #[trigger] ops_view(ops@).contains(x) <==> (match x {
                    OpV::Add(a1) => lookup(av.take(m + 1), a1) is Some,
                    _ => false,
                } && in_diff(bv, sv, x)) by {
                    lemma_contains_push(ov0, opv, x);
                }
            }
        } else {
            proof {
                assert forall|x: OpV| #[trigger] ov0.contains(x) <==> (match x {
                    OpV::Add(a1) => lookup(av.take(m + 1), a1) is Some,
                    _ => false,
                } && in_diff(bv, sv, x)) by {
                }
            }
        }
        m += 1;
    }
    assert(av.take(m as int) =~= av);
    ops
}

/// The deleted paths that were not paired, as `Delete` operations.
#[verifier::spinoff_prover]
fn lone_deletes(base: &Tree, side: &Tree, dels: &Vec<(String, String)>, paired_dels: &Vec<String>) -> (r: Vec<Op>)
    requires
        sorted_keys(pairs_view(dels@)),
        forall|q: Seq<char>| #[trigger] lookup(pairs_view(dels@), q) == deleted(base@, side@, q),
        forall|q: Seq<char>| #[trigger] string_views(paired_dels@).contains(q) <==> exists|a: Seq<char>| #[trigger] paired(base@, side@, q, a),
    ensures
        no_dup(ops_view(r@)),
        forall|op: OpV| #[trigger] ops_view(r@).contains(op) <==> (op is Delete && in_diff(base@, side@, op)),
{
    let ghost bv = base@;
    let ghost sv = side@;
    let ghost dv = pairs_view(dels@);
    let mut ops: Vec<Op> = Vec::new();
    let mut m: usize = 0;
    assert(dv.take(0) =~= Seq::<(Seq<char>, Seq<char>)>::empty());
    while m < dels.len()
        invariant
            m <= dels.len(),
            dv == pairs_view(dels@),
            dv.len() == dels.len(),
            sorted_keys(dv),
            forall|q: Seq<char>| #[trigger] lookup(dv, q) == deleted(bv, sv, q),
            no_dup(ops_view(ops@)),
            forall|op: OpV| #[trigger] ops_view(ops@).contains(op) <==> (match op {
                OpV::Delete(d) => lookup(dv.take(m as int), d) is Some,
                _ => false,
            } && in_diff(bv, sv, op)),
        decreases dels.len() - m,
    {
        let ghost d = dv[m as int].0;
        assert(d == dels@[m as int].0@);
        proof {
            lemma_lookup_index(dv, m as int);
            assert forall|q: Seq<char>| #[trigger] lookup(dv.take(m + 1), q) == match lookup(dv.take(m as int), q) {
                Some(v) => Some(v),
                None => if d == q {
                    Some(dv[m as int].1)
                } else {
                    None
                },
            } by {
                lemma_take_step(dv, m as int, q);
            }
            if lookup(dv.take(m as int), d) is Some {
                lemma_before(dv, m as int, d);
            }
        }
        let ghost ov0 = ops_view(ops@);
        if !str_list_contains(paired_dels, dels[m].0.as_str()) {
            let op = Op::Delete { path: dels[m].0.clone() };
            let ghost opv = op@;
            let ghost o0 = ops@;
            proof { lemma_no_dup_push(ov0, opv); }
            ops.push(op);
            proof {
                lemma_ops_view_push(o0, op);
                assert(ops_view(ops@) == ov0.push(opv));
                assert forall|x: OpV| #[trigger] ops_view(ops@).contains(x) <==> (match x {
                    OpV::Delete(d1) => lookup(dv.take(m + 1), d1) is Some,
                    _ => false,
                } && in_diff(bv, sv, x)) by {
                    lemma_contains_push(ov0, opv, x);
                }
            }
        } else {
            proof {
                assert forall|x: OpV| #[trigger] ov0.contains(x) <==> (match x {
                    OpV::Delete(d1) => lookup(dv.take(m + 1), d1) is Some,
                    _ => false,
                } && in_diff(bv, sv, x)) by {
                }
            }
        }
        m += 1;
    }
    assert(dv.take(m as int) =~= dv);
    ops
}

proof fn lemma_contains_concat<A>(a: Seq<A>, b: Seq<A>, x: A)
    ensures
        (a + b).contains(x) == (a.contains(x) || b.contains(x)),
{
    if a.contains(x) {
        let i = choose|i: int| 0 <= i < a.len() && a[i] == x;
        assert((a + b)[i] == x);
    }
    if b.contains(x) {
        let i = choose|i: int| 0 <= i < b.len() && b[i] == x;
        assert((a + b)[a.len() + i] == x);
    }
    if (a + b).contains(x) {
        let i = choose|i: int| 0 <= i < (a + b).len() && (a + b)[i] == x;
        if i < a.len() {
            assert(a[i] == x);
        } else {
            assert(b[i - a.len()] == x);
        }
    }
}

proof fn lemma_no_dup_concat<A>(a: Seq<A>, b: Seq<A>)
    requires
        no_dup(a),
        no_dup(b),
        forall|x: A| a.contains(x) ==> !b.contains(x),
    ensures
        no_dup(a + b),
{
    assert forall|i: int, j: int| 0 <= i < j < (a + b).len() implies (a + b)[i] != (a + b)[j] by {
        if i < a.len() && j >= a.len() {
            assert(a.contains(a[i]));
            assert(b[j - a.len()] == (a + b)[j]);
            if (a + b)[i] == (a + b)[j] {
                assert(b.contains(a[i]));
            }
        } else if i >= a.len() {
            assert((a + b)[i] == b[i - a.len()]);
            assert((a + b)[j] == b[j - a.len()]);
        }
    }
}

fn append_ops(a: Vec<Op>, b: Vec<Op>) -> (r: Vec<Op>)
    ensures
        ops_view(r@) == ops_view(a@) + ops_view(b@),
{
    let mut a = a;
    let mut b = b;
    let ghost a0 = a@;
    let ghost b0 = b@;
    a.append(&mut b);
    assert(ops_view(a@) =~= ops_view(a0) + ops_view(b0));
    a
}

fn op_key_text(op: &Op) -> (r: String)
    ensures
        r@ == op_key(op@),
{
    to_json_text(&op.to_json())
}

/// The operations in non-decreasing order of their JSON text (stable).
#[verifier::spinoff_prover]
fn sort_ops(ops: &Vec<Op>) -> (r: Vec<Op>)
    requires
        no_dup(ops_view(ops@)),
    ensures
        no_dup(ops_view(r@)),
        ops_sorted(ops_view(r@)),
        forall|x: OpV| #[trigger] ops_view(r@).contains(x) <==> ops_view(ops@).contains(x),
{
    let ghost iv = ops_view(ops@);
    let mut keys: Vec<String> = Vec::new();
    let mut out: Vec<Op> = Vec::new();
    let mut i: usize = 0;
    while i < ops.len()
        invariant
            i <= ops.len(),
            iv == ops_view(ops@),
            iv.len() == ops.len(),
            no_dup(iv),
            keys.len() == out.len(),
            forall|j: int| 0 <= j < out.len() ==> (#[trigger] keys@[j])@ == op_key(out@[j]@),
            no_dup(ops_view(out@)),
            ops_sorted(ops_view(out@)),
            forall|x: OpV| #[trigger] ops_view(out@).contains(x) <==> iv.take(i as int).contains(x),
        decreases ops.len() - i,
    {
        let k = op_key_text(&ops[i]);
        let ghost ov = ops_view(out@);
        let mut pos: usize = 0;
        while pos < keys.len() && !str_lt(k.as_str(), keys[pos].as_str())
            invariant
                pos <= keys.len(),
                keys.len() == out.len(),
                ov == ops_view(out@),
                forall|j: int| 0 <= j < out.len() ==> (#[trigger] keys@[j])@ == op_key(out@[j]@),
                forall|j: int| 0 <= j < pos ==> !chars_lt(k@, op_key(#[trigger] ov[j])),
            decreases keys.len() - pos,
        {
            assert(ov[pos as int] == out@[pos as int]@);
            pos += 1;
        }
        let x = ops[i].copy();
        let ghost xv = x@;
        assert(xv == iv[i as int]);
        proof {
            assert(iv.take(i + 1) =~= iv.take(i as int).push(xv));
            if iv.take(i as int).contains(xv) {
                let j = choose|j: int| 0 <= j < iv.take(i as int).len() && iv.take(i as int)[j] == xv;
                assert(iv[j] == iv[i as int]);
            }
            if pos < out.len() {
                assert(ov[pos as int] == out@[pos as int]@);
                assert(chars_lt(k@, op_key(ov[pos as int])));
                lemma_chars_lt_asym(k@, op_key(ov[pos as int]));
            }
        }
        keys.insert(pos, k);
        out.insert(pos, x);
        proof {
            let t = ops_view(out@);
            assert(t =~= ov.insert(pos as int, xv));
            assert forall|j: int| 0 <= j < out.len() implies (#[trigger] keys@[j])@ == op_key(out@[j]@) by {
                if j == pos {
                } else if j < pos {
                } else {
                }
            }
            assert forall|a: int, b: int| 0 <= a < b < t.len() implies !chars_lt(#[trigger] op_key(t[b]), #[trigger] op_key(t[a])) by {
                if b < pos {
                } else if b == pos {
                } else if a < pos {
                    assert(t[b] == ov[b - 1]);

                } else if a == pos {
                    assert(t[b] == ov[b - 1]);
                    if chars_lt(op_key(ov[b - 1]), op_key(xv)) {
                        if b - 1 > pos {
                            lemma_chars_lt_trans(op_key(ov[b - 1]), op_key(xv), op_key(ov[pos as int]));
                        }
                    }
                } else {
                    assert(t[a] == ov[a - 1]);
                    assert(t[b] == ov[b - 1]);
                }
            }
            assert forall|y: OpV| #[trigger] t.contains(y) <==> iv.take(i + 1).contains(y) by {
                lemma_contains_push(iv.take(i as int), xv, y);
                if t.contains(y) {
                    let j = choose|j: int| 0 <= j < t.len() && t[j] == y;
                    if j < pos {
                        assert(ov[j] == y);
                    } else if j > pos {
                        assert(ov[j - 1] == y);
                    }
                }
                if ov.contains(y) {
                    let j = choose|j: int| 0 <= j < ov.len() && ov[j] == y;
                    if j < pos {
                        assert(t[j] == y);
                    } else {
                        assert(t[j + 1] == y);
                    }
                }
                if y == xv {
                    assert(t[pos as int] == y);
                }
            }
            assert forall|a: int, b: int| 0 <= a < b < t.len() implies t[a] != t[b] by {
                if a == pos {
                    assert(t[b] == ov[b - 1]);
                    assert(ov.contains(t[b]));
                } else if b == pos {
                    assert(t[a] == ov[a]);
                    assert(ov.contains(t[a]));
                } else if a < pos && b > pos {
                    assert(t[a] == ov[a]);
                    assert(t[b] == ov[b - 1]);
                } else if a < pos {
                    assert(t[a] == ov[a]);
                    assert(t[b] == ov[b]);
                } else {
                    assert(t[a] == ov[a - 1]);
                    assert(t[b] == ov[b - 1]);
                }
            }
        }
        i += 1;
    }
    assert(iv.take(i as int) =~= iv);
    out
}

/// The operations of the diff `base → side`: the one list that is that
/// diff, where there is one (there is at most one, by `law_diff_unique`).
pub open spec fn diff_ops(base: Seq<(Seq<char>, Seq<char>)>, side: Seq<(Seq<char>, Seq<char>)>) -> Seq<OpV> {
    choose|ops: Seq<OpV>| is_diff(base, side, ops)
}

/// Diff `base → side` as operation classes with rename/move detection,
/// ordered by the operations' JSON text.
pub fn diff(base: &Tree, side: &Tree) -> (r: Vec<Op>)
    requires
        base.wf(),
        side.wf(),
    ensures
        is_diff(base@, side@, ops_view(r@)),
        ops_view(r@) == diff_ops(base@, side@),
{
    let (adds, mods) = split_side(base, side);
    let dels = deletions(base, side);
    let (moves, paired_adds, paired_dels) = relocations(base, side, &adds, &dels);
    let lone_a = lone_adds(base, side, &adds, &paired_adds);
    let lone_d = lone_deletes(base, side, &dels, &paired_dels);
    let ghost m = ops_view(mods@);
    let ghost v = ops_view(moves@);
    let ghost la = ops_view(lone_a@);
    let ghost ld = ops_view(lone_d@);
    let all = append_ops(append_ops(append_ops(mods, moves), lone_a), lone_d);
    proof {
        assert forall|x: OpV| m.contains(x) ==> !v.contains(x) by {}
        lemma_no_dup_concat(m, v);
        assert forall|x: OpV| (m + v).contains(x) ==> !la.contains(x) by {
            lemma_contains_concat(m, v, x);
        }
        lemma_no_dup_concat(m + v, la);
        assert forall|x: OpV| (m + v + la).contains(x) ==> !ld.contains(x) by {
            lemma_contains_concat(m + v, la, x);
            lemma_contains_concat(m, v, x);
        }
        lemma_no_dup_concat(m + v + la, ld);
        assert forall|x: OpV| #[trigger] ops_view(all@).contains(x) <==> in_diff(base@, side@, x) by {
            lemma_contains_concat(m + v + la, ld, x);
            lemma_contains_concat(m + v, la, x);
            lemma_contains_concat(m, v, x);
        }
    }
    let r = sort_ops(&all);
    proof {
        assert(is_diff(base@, side@, ops_view(r@)));
        law_diff_unique(base@, side@, ops_view(r@), diff_ops(base@, side@));
    }
    r
}

// ---------------------------------------------------------------------
// Three-way merge
// ---------------------------------------------------------------------

/// The surviving state of a path: the branch's change when trunk left the
/// path untouched, trunk's state otherwise (trunk's deletion included).
pub open spec fn merge_pick(b: Option<Seq<char>>, br: Option<Seq<char>>, tr: Option<Seq<char>>) -> Option<Seq<char>> {
    if br != b && tr == b {
        br
    } else {
        tr
    }
}

/// Both sides changed the path, differently.
pub open spec fn diverged(b: Option<Seq<char>>, br: Option<Seq<char>>, tr: Option<Seq<char>>) -> bool {
    br != b && tr != b && br != tr
}

/// A path where both sides changed differently. Trunk won; the branch
/// version's hash stays resolvable in the content store.
#[derive(Debug)]
pub struct Conflict {
    pub path: String,
    pub base: Option<String>,
    pub branch: Option<String>,
    pub trunk: Option<String>,
    /// Always `"trunk_wins"` — recorded, not configurable.
    pub resolution: &'static str,
}

pub struct ConflictV {
    pub path: Seq<char>,
    pub base: Option<Seq<char>>,
    pub branch: Option<Seq<char>>,
    pub trunk: Option<Seq<char>>,
    pub resolution: Seq<char>,
}

pub open spec fn opt_str(o: Option<String>) -> Option<Seq<char>> {
    match o {
        Some(s) => Some(s@),
        None => None,
    }
}

impl Conflict {
    pub open spec fn view(&self) -> ConflictV {
        ConflictV {
            path: self.path@,
            base: opt_str(self.base),
            branch: opt_str(self.branch),
            trunk: opt_str(self.trunk),
            resolution: self.resolution@,
        }
    }
}

pub open spec fn conflicts_view(s: Seq<Conflict>) -> Seq<ConflictV> {
    s.map_values(|c: Conflict| c.view())
}

/// The JSON form of an optional hash.
pub open spec fn opt_json(o: Option<Seq<char>>) -> JsonV {
    match o {
        Some(s) => JsonV::Str(s),
        None => JsonV::Null,
    }
}

/// The JSON rendering of a conflict card (fields in key order).
pub open spec fn conflict_json(c: ConflictV) -> JsonV {
    JsonV::Object(
        seq![
            ("base"@, opt_json(c.base)),
            ("branch"@, opt_json(c.branch)),
            ("path"@, JsonV::Str(c.path)),
            ("resolution"@, JsonV::Str(c.resolution)),
            ("trunk"@, opt_json(c.trunk)),
        ],
    )
}

fn opt_json_of(o: &Option<String>) -> (r: Json)
    ensures
        r@ == opt_json(opt_str(*o)),
{
    match o {
        Some(s) => Json::from_str(s.as_str()),
        None => Json::Null,
    }
}

impl Conflict {
    /// The conflict card as JSON.
    pub fn to_json(&self) -> (r: Json)
        ensures
            r@ == conflict_json(self.view()),
    {
        let f = vec![
            ("base".to_owned(), opt_json_of(&self.base)),
            ("branch".to_owned(), opt_json_of(&self.branch)),
            ("path".to_owned(), Json::from_str(self.path.as_str())),
            ("resolution".to_owned(), Json::from_str(self.resolution)),
            ("trunk".to_owned(), opt_json_of(&self.trunk)),
        ];
        proof { lemma_fields_view_len(f@); }
        let r = obj_fields(f);
        assert(fields_view(f@) =~= match conflict_json(self.view()) {
            JsonV::Object(x) => x,
            _ => Seq::empty(),
        });
        r
    }
}

/// The conflict cards of a merge: one per diverged path, in path order,
/// each recording the three versions and that trunk won.
pub open spec fn conflicts_exact(cs: Seq<ConflictV>, base: Seq<(Seq<char>, Seq<char>)>, branch: Seq<(Seq<char>, Seq<char>)>, trunk: Seq<(Seq<char>, Seq<char>)>) -> bool {
    &&& forall|i: int, j: int| 0 <= i < j < cs.len() ==> chars_lt(#[trigger] cs[i].path, #[trigger] cs[j].path)
    &&& forall|i: int| #![trigger cs[i]] 0 <= i < cs.len() ==> {
        &&& cs[i].base == lookup(base, cs[i].path)
        &&& cs[i].branch == lookup(branch, cs[i].path)
        &&& cs[i].trunk == lookup(trunk, cs[i].path)
        &&& cs[i].resolution == "trunk_wins"@
        &&& diverged(cs[i].base, cs[i].branch, cs[i].trunk)
    }
    &&& forall|q: Seq<char>| #[trigger] diverged(lookup(base, q), lookup(branch, q), lookup(trunk, q))
        ==> exists|i: int| 0 <= i < cs.len() && (#[trigger] cs[i]).path == q
}

/// The result of a three-way merge.
#[derive(Debug)]
pub struct MergeResult {
    pub merged: Tree,
    /// What the agent did (branch relative to base), as operation classes.
    pub ops: Vec<Op>,
    /// Paths where both sides changed differently. Trunk won each one.
    pub conflicts: Vec<Conflict>,
}

fn opt_ref_view(o: Option<&String>) -> (r: Option<String>)
    ensures
        opt_str(r) == match o {
            Some(s) => Some(s@),
            None => None,
        },
{
    match o {
        Some(s) => Some(s.clone()),
        None => None,
    }
}

fn opt_eq(a: &Option<String>, b: &Option<String>) -> (r: bool)
    ensures
        r == (opt_str(*a) == opt_str(*b)),
{
    match (a, b) {
        (Some(x), Some(y)) => str_eq(x.as_str(), y.as_str()),
        (None, None) => true,
        _ => false,
    }
}

/// The paths of all three trees, each once, in order.
fn all_paths(base: &Tree, branch: &Tree, trunk: &Tree) -> (r: Tree)
    requires
        base.wf(),
        branch.wf(),
        trunk.wf(),
    ensures
        r.wf(),
        forall|q: Seq<char>| #[trigger] r.at(q) is Some <==> (base.at(q) is Some || branch.at(q) is Some || trunk.at(q) is Some),
{
    let mut u = base.copy();
    let be = branch.entries();
    let te = trunk.entries();
    let mut i: usize = 0;
    assert(branch@.take(0) =~= Seq::<(Seq<char>, Seq<char>)>::empty());
    while i < be.len()
        invariant
            i <= be.len(),
            pairs_view(be@) == branch@,
            u.wf(),
            forall|q: Seq<char>| #[trigger] u.at(q) is Some <==> (base.at(q) is Some || lookup(branch@.take(i as int), q) is Some),
        decreases be.len() - i,
    {
        assert(branch@[i as int] == (be@[i as int].0@, be@[i as int].1@));
        proof {
            assert forall|q: Seq<char>| #[trigger] lookup(branch@.take(i + 1), q) is Some <==> (lookup(branch@.take(i as int), q) is Some || q == branch@[i as int].0) by {
                lemma_take_step(branch@, i as int, q);
            }
        }
        u.insert(be[i].0.clone(), be[i].1.clone());
        i += 1;
    }
    assert(branch@.take(i as int) =~= branch@);
    let mut k: usize = 0;
    assert(trunk@.take(0) =~= Seq::<(Seq<char>, Seq<char>)>::empty());
    while k < te.len()
        invariant
            k <= te.len(),
            pairs_view(te@) == trunk@,
            u.wf(),
            forall|q: Seq<char>| #[trigger] u.at(q) is Some <==> (base.at(q) is Some || branch.at(q) is Some || lookup(trunk@.take(k as int), q) is Some),
        decreases te.len() - k,
    {
        assert(trunk@[k as int] == (te@[k as int].0@, te@[k as int].1@));
        proof {
            assert forall|q: Seq<char>| #[trigger] lookup(trunk@.take(k + 1), q) is Some <==> (lookup(trunk@.take(k as int), q) is Some || q == trunk@[k as int].0) by {
                lemma_take_step(trunk@, k as int, q);
            }
        }
        u.insert(te[k].0.clone(), te[k].1.clone());
        k += 1;
    }
    assert(trunk@.take(k as int) =~= trunk@);
    u
}

/// Two sorted entry sequences with the same lookups are equal.
pub proof fn lemma_sorted_ext(s: Seq<(Seq<char>, Seq<char>)>, t: Seq<(Seq<char>, Seq<char>)>)
    requires
        sorted_keys(s),
        sorted_keys(t),
        forall|q: Seq<char>| #[trigger] lookup(s, q) == lookup(t, q),
    ensures
        s == t,
    decreases s.len() + t.len(),
{
    if s.len() == 0 && t.len() == 0 {
        assert(s =~= t);
    } else if s.len() == 0 {
        lemma_lookup_index(t, 0);
        assert(lookup(s, t[0].0) is None);
    } else if t.len() == 0 {
        lemma_lookup_index(s, 0);
        assert(lookup(t, s[0].0) is None);
    } else {
        lemma_lookup_index(s, 0);
        lemma_lookup_index(t, 0);
        lemma_lookup_sorted(s, t[0].0);
        lemma_lookup_sorted(t, s[0].0);
        if s[0].0 != t[0].0 {
            let j = choose|j: int| 0 <= j < t.len() && (#[trigger] t[j]).0 == s[0].0;
            let m = choose|m: int| 0 <= m < s.len() && (#[trigger] s[m]).0 == t[0].0;
            assert(j > 0 && m > 0);
            assert(chars_lt(t[0].0, t[j].0));
            assert(chars_lt(s[0].0, s[m].0));
            lemma_chars_lt_asym(t[0].0, s[0].0);
        }
        assert(s[0] == t[0]);
        let s1 = s.drop_first();
        let t1 = t.drop_first();
        assert(sorted_keys(s1)) by {
            assert forall|a: int, b: int| 0 <= a < b < s1.len() implies chars_lt(#[trigger] s1[a].0, #[trigger] s1[b].0) by {
                assert(s1[a] == s[a + 1] && s1[b] == s[b + 1]);
            }
        }
        assert(sorted_keys(t1)) by {
            assert forall|a: int, b: int| 0 <= a < b < t1.len() implies chars_lt(#[trigger] t1[a].0, #[trigger] t1[b].0) by {
                assert(t1[a] == t[a + 1] && t1[b] == t[b + 1]);
            }
        }
        assert forall|q: Seq<char>| #[trigger] lookup(s1, q) == lookup(t1, q) by {
            if q == s[0].0 {
                assert forall|i: int| 0 <= i < s1.len() implies (#[trigger] s1[i]).0 != q by {
                    assert(s1[i] == s[i + 1]);
                    assert(chars_lt(s[0].0, s[i + 1].0));
                    lemma_chars_lt_irrefl(q);
                }
                assert forall|i: int| 0 <= i < t1.len() implies (#[trigger] t1[i]).0 != q by {
                    assert(t1[i] == t[i + 1]);
                    assert(chars_lt(t[0].0, t[i + 1].0));
                    lemma_chars_lt_irrefl(q);
                }
                lemma_lookup_absent(s1, q);
                lemma_lookup_absent(t1, q);
            } else {
                assert(lookup(s, q) == lookup(s1, q));
                assert(lookup(t, q) == lookup(t1, q));
            }
        }
        lemma_sorted_ext(s1, t1);
        assert(s =~= seq![s[0]] + s1);
        assert(t =~= seq![t[0]] + t1);
    }
}

/// Three-way merge. For each path: untouched by the agent follows trunk;
/// untouched by the human follows branch; identical changes coincide;
/// divergent changes conflict and trunk wins.
#[verifier::spinoff_prover]
#[verifier::rlimit(40)]
pub fn three_way(base: &Tree, branch: &Tree, trunk: &Tree) -> (r: MergeResult)
    requires
        base.wf(),
        branch.wf(),
        trunk.wf(),
    ensures
        r.merged.wf(),
        forall|q: Seq<char>| #[trigger] r.merged.at(q) == merge_pick(base.at(q), branch.at(q), trunk.at(q)),
        is_diff(base@, branch@, ops_view(r.ops@)),
        ops_view(r.ops@) == diff_ops(base@, branch@),
        conflicts_exact(conflicts_view(r.conflicts@), base@, branch@, trunk@),
        // Conflicts never resolve in the agent's favor.
        forall|q: Seq<char>| diverged(base.at(q), branch.at(q), trunk.at(q)) ==> #[trigger] r.merged.at(q) == trunk.at(q),
        // A change of the agent's lands wherever the human left the path alone.
        forall|q: Seq<char>| trunk.at(q) == base.at(q) ==> #[trigger] r.merged.at(q) == branch.at(q),
        // The agent did nothing: the merge is trunk, without conflicts.
        branch@ == base@ ==> r.merged@ == trunk@ && r.conflicts@.len() == 0,
        // The human did nothing: the merge is the agent's branch.
        trunk@ == base@ ==> r.merged@ == branch@ && r.conflicts@.len() == 0,
{
    let u = all_paths(base, branch, trunk);
    let ue = u.entries();
    let ghost uv = u@;
    let ghost bv = base@;
    let ghost brv = branch@;
    let ghost tv = trunk@;
    let mut merged: Vec<(String, String)> = Vec::new();
    let mut conflicts: Vec<Conflict> = Vec::new();
    let mut i: usize = 0;
    assert(uv.take(0) =~= Seq::<(Seq<char>, Seq<char>)>::empty());
    while i < ue.len()
        invariant
            i <= ue.len(),
            uv == u@,
            pairs_view(ue@) == uv,
            uv.len() == ue.len(),
            sorted_keys(uv),
            bv == base@,
            brv == branch@,
            tv == trunk@,
            sorted_keys(pairs_view(merged@)),
            forall|q: Seq<char>| #[trigger] lookup(pairs_view(merged@), q) == if lookup(uv.take(i as int), q) is Some {
                merge_pick(lookup(bv, q), lookup(brv, q), lookup(tv, q))
            } else {
                None
            },
            forall|j: int| 0 <= j < merged.len() ==> lookup(uv.take(i as int), (#[trigger] pairs_view(merged@)[j]).0) is Some,
            forall|a: int, b: int| 0 <= a < b < conflicts.len() ==> chars_lt(#[trigger] conflicts_view(conflicts@)[a].path, #[trigger] conflicts_view(conflicts@)[b].path),
            forall|a: int| #![trigger conflicts_view(conflicts@)[a]] 0 <= a < conflicts.len() ==> {
                let c = conflicts_view(conflicts@)[a];
                &&& c.base == lookup(bv, c.path)
                &&& c.branch == lookup(brv, c.path)
                &&& c.trunk == lookup(tv, c.path)
                &&& c.resolution == "trunk_wins"@
                &&& diverged(c.base, c.branch, c.trunk)
                &&& lookup(uv.take(i as int), c.path) is Some
            },
            forall|q: Seq<char>| #[trigger] diverged(lookup(bv, q), lookup(brv, q), lookup(tv, q)) && lookup(uv.take(i as int), q) is Some
                ==> exists|a: int| 0 <= a < conflicts.len() && (#[trigger] conflicts_view(conflicts@)[a]).path == q,
        decreases ue.len() - i,
    {
        let ghost p = uv[i as int].0;
        assert(p == ue@[i as int].0@);
        proof {
            assert forall|q: Seq<char>| #[trigger] lookup(uv.take(i + 1), q) is Some <==> (lookup(uv.take(i as int), q) is Some || q == p) by {
                lemma_take_step(uv, i as int, q);
            }
            if lookup(uv.take(i as int), p) is Some {
                lemma_before(uv, i as int, p);
            }
        }
        let path = &ue[i].0;
        let b = opt_ref_view(base.get(path.as_str()));
        let br = opt_ref_view(branch.get(path.as_str()));
        let tr = opt_ref_view(trunk.get(path.as_str()));
        let ghost mv0 = pairs_view(merged@);
        let ghost cv0 = conflicts_view(conflicts@);
        let winner = if opt_eq(&br, &b) {
            tr
        } else if opt_eq(&tr, &b) {
            br
        } else if opt_eq(&br, &tr) {
            tr
        } else {
            let c = Conflict {
                path: path.clone(),
                base: b,
                branch: br,
                trunk: opt_ref_view(trunk.get(path.as_str())),
                resolution: "trunk_wins",
            };
            proof {
                reveal_strlit("trunk_wins");
            }
            let ghost c0 = conflicts@;
            conflicts.push(c);
            proof {
                let cv = conflicts_view(conflicts@);
                assert(cv =~= cv0.push(c.view()));
                assert forall|a: int, b2: int| 0 <= a < b2 < cv.len() implies chars_lt(#[trigger] cv[a].path, #[trigger] cv[b2].path) by {
                    if b2 == cv.len() - 1 {
                        assert(cv[a] == cv0[a]);
                        lemma_before(uv, i as int, cv0[a].path);
                    } else {
                        assert(cv[a] == cv0[a] && cv[b2] == cv0[b2]);
                    }
                }
            }
            tr
        };
        let ghost wv = opt_str(winner);
        assert(wv == merge_pick(lookup(bv, p), lookup(brv, p), lookup(tv, p)));
        match winner {
            Some(h) => {
                merged.push((path.clone(), h));
                proof {
                    let mv = pairs_view(merged@);
                    assert(mv =~= mv0.push((p, wv->0)));
                    assert forall|a: int, b2: int| 0 <= a < b2 < mv.len() implies chars_lt(#[trigger] mv[a].0, #[trigger] mv[b2].0) by {
                        if b2 == mv.len() - 1 {
                            assert(mv[a] == mv0[a]);
                            lemma_before(uv, i as int, mv0[a].0);
                        } else {
                            assert(mv[a] == mv0[a] && mv[b2] == mv0[b2]);
                        }
                    }
                    assert forall|q: Seq<char>| #[trigger] lookup(mv, q) == if lookup(uv.take(i + 1), q) is Some {
                        merge_pick(lookup(bv, q), lookup(brv, q), lookup(tv, q))
                    } else {
                        None
                    } by {
                        lemma_lookup_push(mv0, (p, wv->0), q);
                    }
                    assert forall|j: int| 0 <= j < mv.len() implies lookup(uv.take(i + 1), (#[trigger] mv[j]).0) is Some by {
                        if j < mv0.len() {
                            assert(mv[j] == mv0[j]);
                        }
                    }
                }
            },
            None => {},
        }
        proof {
            let cv = conflicts_view(conflicts@);
            assert forall|a: int| #![trigger cv[a]] 0 <= a < cv.len() implies lookup(uv.take(i + 1), cv[a].path) is Some by {
                if a < cv0.len() {
                    assert(cv[a] == cv0[a]);
                }
            }
            assert forall|q: Seq<char>| #[trigger] diverged(lookup(bv, q), lookup(brv, q), lookup(tv, q)) && lookup(uv.take(i + 1), q) is Some
                implies exists|a: int| 0 <= a < cv.len() && (#[trigger] cv[a]).path == q by {
                if q == p {
                    assert(cv[cv.len() - 1].path == q);
                } else {
                    let a = choose|a: int| 0 <= a < cv0.len() && (#[trigger] cv0[a]).path == q;
                    assert(cv[a] == cv0[a]);
                }
            }
        }
        i += 1;
    }
    assert(uv.take(i as int) =~= uv);
    let ops = diff(base, branch);
    let r = MergeResult { merged: Tree { entries: merged }, ops, conflicts };
    proof {
        let mv = r.merged@;
        assert forall|q: Seq<char>| #[trigger] r.merged.at(q) == merge_pick(base.at(q), branch.at(q), trunk.at(q)) by {
            assert(u.at(q) == lookup(uv, q));
            if lookup(uv, q) is None {
                assert(lookup(bv, q) is None && lookup(brv, q) is None && lookup(tv, q) is None);
            }
        }
        let cs = conflicts_view(r.conflicts@);
        assert forall|q: Seq<char>| #[trigger] diverged(lookup(bv, q), lookup(brv, q), lookup(tv, q))
            implies exists|a: int| 0 <= a < cs.len() && (#[trigger] cs[a]).path == q by {
            assert(u.at(q) == lookup(uv, q));
            assert(lookup(uv, q) is Some);
        }
        assert(conflicts_exact(cs, bv, brv, tv));
        if brv == bv {
            assert forall|q: Seq<char>| #[trigger] lookup(mv, q) == lookup(tv, q) by {
                assert(r.merged.at(q) == merge_pick(base.at(q), branch.at(q), trunk.at(q)));
            }
            lemma_sorted_ext(mv, tv);
            if r.conflicts@.len() > 0 {
                assert(conflicts_view(r.conflicts@)[0].branch == conflicts_view(r.conflicts@)[0].base);
            }
        }
        if tv == bv {
            assert forall|q: Seq<char>| #[trigger] lookup(mv, q) == lookup(brv, q) by {
                assert(r.merged.at(q) == merge_pick(base.at(q), branch.at(q), trunk.at(q)));
            }
            lemma_sorted_ext(mv, brv);
            if r.conflicts@.len() > 0 {
                assert(conflicts_view(r.conflicts@)[0].trunk == conflicts_view(r.conflicts@)[0].base);
            }
        }
    }
    r
}

/// The default promotion policy: auto-promote iff there are no conflicts
/// and every branch operation is `add` or `modify` — the classes whose
/// worst case is revertible clutter. Any delete, move or rename, or any
/// conflict, parks for human approval.
pub fn default_policy_allows(ops: &Vec<Op>, conflicts: &Vec<Conflict>) -> (r: bool)
    ensures
        r == (conflicts@.len() == 0 && forall|i: int| 0 <= i < ops@.len() ==> (op_class(#[trigger] ops@[i]@) == "add"@ || op_class(ops@[i]@) == "modify"@)),
        r == policy_allows(ops_view(ops@), conflicts@.len()),
{
    proof {
        assert forall|i: int| 0 <= i < ops@.len() implies #[trigger] ops_view(ops@)[i] == ops@[i]@ by {}
    }
    if conflicts.len() > 0 {
        return false;
    }
    let mut i: usize = 0;
    while i < ops.len()
        invariant
            i <= ops.len(),
            forall|j: int| 0 <= j < i ==> (op_class(#[trigger] ops@[j]@) == "add"@ || op_class(ops@[j]@) == "modify"@),
        decreases ops.len() - i,
    {
        let c = ops[i].class();
        if !(str_eq(c, "add") || str_eq(c, "modify")) {
            assert(ops_view(ops@)[i as int] == ops@[i as int]@);
            return false;
        }
        i += 1;
    }
    true
}

/// The default promotion policy over the branch's operations and the
/// number of conflict cards.
pub open spec fn policy_allows(ops: Seq<OpV>, conflicts: nat) -> bool {
    conflicts == 0 && forall|i: int| 0 <= i < ops.len() ==> (op_class(#[trigger] ops[i]) == "add"@ || op_class(ops[i]) == "modify"@)
}

/// Every operation's class is the `op` name its JSON rendering carries,
/// and operations of different kinds have different classes.
pub proof fn law_op_classes(x: OpV, y: OpV)
    ensures
        op_json(x).str_at("op"@) == Some(op_class(x)),
        op_class(x) == op_class(y) <==> ((x is Add && y is Add) || (x is Modify && y is Modify) || (x is Delete && y is Delete)
            || (x is Rename && y is Rename) || (x is Move && y is Move)),
{
    reveal_strlit("op");
    reveal_strlit("path");
    reveal_strlit("from");
    reveal_strlit("to");
    reveal_strlit("add");
    reveal_strlit("modify");
    reveal_strlit("delete");
    reveal_strlit("rename");
    reveal_strlit("move");
    assert("add"@ != "modify"@ && "add"@ != "delete"@ && "add"@ != "rename"@ && "add"@ != "move"@) by {
        assert("add"@.len() == 3 && "move"@.len() == 4);
        assert("modify"@[0] != "add"@[0] && "delete"@[0] != "add"@[0] && "rename"@[0] != "add"@[0]);
    }
    assert("modify"@ != "delete"@ && "modify"@ != "rename"@ && "modify"@ != "move"@) by {
        assert("modify"@[0] != "delete"@[0] && "modify"@[0] != "rename"@[0] && "move"@.len() == 4 && "modify"@.len() == 6);
    }
    assert("delete"@ != "rename"@ && "delete"@ != "move"@ && "rename"@ != "move"@) by {
        assert("delete"@[0] != "rename"@[0] && "delete"@[0] != "move"@[0] && "rename"@[0] != "move"@[0]);
    }
    let f = match op_json(x) {
        JsonV::Object(f) => f,
        _ => Seq::empty(),
    };
    assert("op"@ != "path"@ && "op"@ != "from"@) by {
        assert("op"@.len() == 2 && "path"@.len() == 4 && "from"@.len() == 4);
    }
    assert(f.len() >= 2);
    if x is Rename || x is Move {
        assert(f[0].0 == "from"@ && f[1].0 == "op"@);
        assert(f.drop_first()[0] == f[1]);
        assert(field_of(f.drop_first(), "op"@) == Some(f[1].1));
        assert(field_of(f, "op"@) == Some(f[1].1));
        assert(f[1].1 == JsonV::Str(op_class(x)));
    } else {
        assert(f[0].0 == "op"@);
        assert(field_of(f, "op"@) == Some(f[0].1));
        assert(f[0].1 == JsonV::Str(op_class(x)));
    }
}

/// The default policy auto-promotes exactly when there is no conflict and
/// every branch operation adds or modifies a path: any delete, rename or
/// move parks the promotion for human approval.
pub proof fn law_default_policy_parks_destructive_changes(ops: Seq<OpV>, conflicts: nat)
    ensures
        policy_allows(ops, conflicts) <==> (conflicts == 0 && forall|i: int| 0 <= i < ops.len() ==> (#[trigger] ops[i] is Add
            || ops[i] is Modify)),
{
    reveal_strlit("add");
    reveal_strlit("modify");
    reveal_strlit("delete");
    reveal_strlit("rename");
    reveal_strlit("move");
    assert forall|i: int| 0 <= i < ops.len() implies ((op_class(#[trigger] ops[i]) == "add"@ || op_class(ops[i]) == "modify"@)
        <==> (ops[i] is Add || ops[i] is Modify)) by {
        law_op_classes(ops[i], OpV::Add(Seq::empty()));
        law_op_classes(ops[i], OpV::Modify(Seq::empty()));
    }
}

/// The tree an `fs_tree` object describes: each entry with a string `path`
/// and `hash`, later entries overriding earlier ones for the same path.
pub open spec fn entries_at(items: Seq<JsonV>, q: Seq<char>) -> Option<Seq<char>>
    decreases items.len(),
{
    if items.len() == 0 {
        None
    } else {
        let e = items.last();
        if e.str_at("path"@) == Some(q) && e.str_at("hash"@) is Some {
            e.str_at("hash"@)
        } else {
            entries_at(items.drop_last(), q)
        }
    }
}

/// Parse a stored `fs_tree` object into a tree.
pub fn tree_from_object(tree_obj: &Json) -> (r: Tree)
    ensures
        r.wf(),
        forall|q: Seq<char>| #[trigger] r.at(q) == match tree_obj@.at("entries"@).as_array() {
            Some(items) => entries_at(items, q),
            None => None,
        },
{
    let mut t = Tree::new();
    assert forall|q: Seq<char>| #[trigger] t.at(q) is None by {}
    match tree_obj.get("entries") {
        Some(v) => match v.as_array() {
            Some(items) => {
                proof { lemma_elems_view_len(items@); }
                let ghost ev = elems_view(items@);
                let mut i: usize = 0;
                assert(ev.take(0) =~= Seq::<JsonV>::empty());
                while i < items.len()
                    invariant
                        i <= items.len(),
                        ev == elems_view(items@),
                        ev.len() == items.len(),
                        forall|j: int| 0 <= j < items.len() ==> #[trigger] ev[j] == items@[j]@,
                        t.wf(),
                        forall|q: Seq<char>| #[trigger] t.at(q) == entries_at(ev.take(i as int), q),
                    decreases items.len() - i,
                {
                    assert(ev.take(i + 1).drop_last() =~= ev.take(i as int));
                    assert(ev.take(i + 1).last() == ev[i as int]);
                    match (items[i].str_at("path"), items[i].str_at("hash")) {
                        (Some(p), Some(h)) => {
                            t.insert(p.to_owned(), h.to_owned());
                        },
                        _ => {},
                    }
                    i += 1;
                }
                assert(ev.take(i as int) =~= ev);
                t
            },
            None => t,
        },
        None => t,
    }
}

} // verus!
