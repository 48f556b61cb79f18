//! Snapshot trees and the content store's addressing.
//!
//! Content-addressed captures of filesystem trees and sqlite files live in
//! a content store. A filesystem tree is stored as an `fs_tree` object:
//! files only, each with a relative path, a mode (`644` or `755`), a size
//! and the `sha256:` address of its content, in path order. Before a tree
//! is applied anywhere, every path in it must be a safe relative path:
//! non-empty, not absolute, and made only of normal components.

use vstd::prelude::*;
use crate::json::{
    chars_of, elems_view, fields_view, field_of, fields_insert, json_view, lemma_elems_view_len,
    lemma_elems_view_push, lemma_fields_view_len, str_eq, Json, JsonV,
};
use crate::canon::{hex_decoded, hex_lower, insert_field};
use crate::capability::{cat, str_list_contains};
use crate::promote::{lookup, Tree};
use crate::evaluate::pairs_view;

verus! {

#[verifier::external_type_specification]
#[verifier::external_body]
pub struct ExIoError(std::io::Error);

/// Why a capture, a tree or a restore was refused.
#[derive(Debug)]
pub enum SnapError {
    Io { path: String, source: std::io::Error },
    Db(rusqlite::Error),
    Symlink(String),
    MissingBlob(String),
    InvalidHash(String),
    HashMismatch { expected: String, observed: String },
    MalformedTree(String),
    UnsafePath { root: String, path: String },
    MissingRoot(String),
}

/// What kind of store a root is.
#[derive(Debug, Clone, Copy, PartialEq, Eq)]
pub enum StoreKind {
    Fs,
    Sqlite,
}

impl StoreKind {
    /// The kind's name in manifests.
    pub fn as_str(self) -> (r: &'static str)
        ensures
            r@ == (match self {
                StoreKind::Fs => "fs"@,
                StoreKind::Sqlite => "sqlite"@,
            }),
    {
        match self {
            StoreKind::Fs => "fs",
            StoreKind::Sqlite => "sqlite",
        }
    }
}

/// A store registered with the coordinator.
#[derive(Debug)]
pub struct StoreSpec {
    /// Manifest store name, e.g. `fs:vault`, `db:memory`.
    pub store: String,
    pub tier: u8,
    pub kind: StoreKind,
    /// The store's location on disk.
    pub path: String,
}

// ---------------------------------------------------------------------
// Content addresses
// ---------------------------------------------------------------------

/// The bytes a `sha256:<hex>` address names, when it names 32 bytes.
pub open spec fn address_digest(hash: Seq<char>) -> Option<Seq<u8>> {
    if hash.len() >= 7 && hash.take(7) == "sha256:"@ {
        match hex_decoded(hash.skip(7)) {
            Some(b) => if b.len() == 32 {
                Some(b)
            } else {
                None
            },
            None => None,
        }
    } else {
        None
    }
}

/// Where a blob lives under the store directory: a two-digit fan-out
/// directory, then the canonical (lowercase) hex of its digest.
pub open spec fn blob_location(dir: Seq<char>, digest: Seq<u8>) -> Seq<char> {
    let h = hex_lower(digest);
    dir + seq!['/'] + h.take(2) + seq!['/'] + h
}

/// The path of the blob that a `sha256:` address names under `dir`; an
/// address that is not `sha256:` followed by the hex of 32 bytes is
/// refused.
pub fn blob_path(dir: &str, hash: &str) -> (r: Result<String, SnapError>)
    ensures
        match address_digest(hash@) {
            Some(d) => r matches Ok(p) && p@ == blob_location(dir@, d),
            None => r matches Err(SnapError::InvalidHash(h)) && h@ == hash@,
        },
{
    proof { reveal_strlit("sha256:"); }
    let cs = chars_of(hash);
    let prefix = ['s', 'h', 'a', '2', '5', '6', ':'];
    if cs.len() < 7 {
        return Err(SnapError::InvalidHash(hash.to_owned()));
    }
    let mut k: usize = 0;
    while k < 7
        invariant
            k <= 7,
            cs.len() >= 7,
            forall|m: int| 0 <= m < k ==> cs@[m] == "sha256:"@[m],
        decreases 7 - k,
    {
        if cs[k] != prefix[k] {
            assert(cs@.take(7)[k as int] != "sha256:"@[k as int]);
            return Err(SnapError::InvalidHash(hash.to_owned()));
        }
        k += 1;
    }
    assert(cs@.take(7) =~= "sha256:"@);
    let mut raw = String::new();
    let mut i: usize = 7;
    while i < cs.len()
        invariant
            7 <= i <= cs.len(),
            raw@ == cs@.subrange(7, i as int),
        decreases cs.len() - i,
    {
        crate::json::push_char(&mut raw, cs[i]);
        i += 1;
        assert(raw@ =~= cs@.subrange(7, i as int));
    }
    assert(raw@ =~= hash@.skip(7));
    let decoded = match crate::canon::hex_bytes(raw.as_str()) {
        Some(b) => b,
        None => return Err(SnapError::InvalidHash(hash.to_owned())),
    };
    if decoded.len() != 32 {
        return Err(SnapError::InvalidHash(hash.to_owned()));
    }
    let canonical = crate::canon::hex_encode(decoded.as_slice());
    let hc = chars_of(canonical.as_str());
    assert(hc@.len() == 64) by {
        crate::canon::lemma_hex_lower_len(decoded@);
    }
    let mut fan = String::new();
    crate::json::push_char(&mut fan, hc[0]);
    crate::json::push_char(&mut fan, hc[1]);
    assert(fan@ =~= canonical@.take(2));
    let r = cat(&cat(&cat(&cat(dir, "/"), fan.as_str()), "/"), canonical.as_str());
    proof { reveal_strlit("/"); }
    assert(r@ =~= blob_location(dir@, decoded@));
    Ok(r)
}

/// Content-addressed blob store on disk, rooted at a directory (opened or
/// created at the edge).
#[derive(Debug)]
pub struct Cas {
    dir: String,
}

impl Cas {
    /// The store's directory, as text.
    pub closed spec fn view(&self) -> Seq<char> {
        self.dir@
    }

    /// The store rooted at `dir`.
    pub fn at(dir: String) -> (r: Cas)
        ensures
            r@ == dir@,
    {
        Cas { dir }
    }

    /// The store's directory.
    pub fn dir(&self) -> (r: &str)
        ensures
            r@ == self@,
    {
        self.dir.as_str()
    }

    /// Where the blob addressed by `hash` lives in this store.
    pub fn blob_path(&self, hash: &str) -> (r: Result<String, SnapError>)
        ensures
            match address_digest(hash@) {
                Some(d) => r matches Ok(p) && p@ == blob_location(self@, d),
                None => r matches Err(SnapError::InvalidHash(h)) && h@ == hash@,
            },
    {
        blob_path(&self.dir, hash)
    }
}

// ---------------------------------------------------------------------
// Tree paths
// ---------------------------------------------------------------------

/// Position of the first `/` (the length when there is none).
pub open spec fn first_slash(s: Seq<char>) -> int
    decreases s.len(),
{
    if s.len() == 0 || s[0] == '/' {
        0
    } else {
        1 + first_slash(s.drop_first())
    }
}

/// A relative path made only of normal components: non-empty, not
/// absolute, not starting with a `.` component, and with no `..` component
/// anywhere (empty and inner `.` components are normalized away).
pub open spec fn safe_tree_path(rel: Seq<char>) -> bool {
    &&& rel.len() > 0
    &&& rel[0] != '/'
    &&& rel.take(first_slash(rel)) != seq!['.']
    &&& !crate::capability::split_segs(rel).contains(seq!['.', '.'])
}

fn is_dot_dot(s: &str) -> (r: bool)
    ensures
        r == (s@ == seq!['.', '.']),
{
    let c = chars_of(s);
    let r = c.len() == 2 && c[0] == '.' && c[1] == '.';
    proof {
        if r {
            assert(c@ =~= seq!['.', '.']);
        }
    }
    r
}

fn first_segment_is_dot(rel: &str) -> (r: bool)
    ensures
        r == (rel@.take(first_slash(rel@)) == seq!['.']),
{
    let cs = chars_of(rel);
    let mut i: usize = 0;
    assert(cs@.skip(0) =~= cs@);
    while i < cs.len() && cs[i] != '/'
        invariant
            i <= cs.len(),
            first_slash(cs@) == i + first_slash(cs@.skip(i as int)),
        decreases cs.len() - i,
    {
        assert(cs@.skip(i as int).drop_first() =~= cs@.skip(i + 1));
        i += 1;
    }
    if i < cs.len() {
        assert(cs@.skip(i as int)[0] == '/');
    } else {
        assert(cs@.skip(i as int).len() == 0);
    }
    let r = i == 1 && cs[0] == '.';
    proof {
        if r {
            assert(cs@.take(1) =~= seq!['.']);
        } else if i != 1 {
            assert(cs@.take(i as int).len() != 1);
        } else {
            assert(cs@.take(1)[0] != '.');
        }
    }
    r
}

/// Refuse a tree path that could escape or alias the store root.
pub fn validate_tree_path(root: &str, rel: &str) -> (r: Result<(), SnapError>)
    ensures
        r is Ok <==> safe_tree_path(rel@),
        r matches Err(e) ==> e matches SnapError::UnsafePath { root: x, path: p } && x@ == root@ && p@ == rel@,
{
    let unsafe_path = SnapError::UnsafePath { root: root.to_owned(), path: rel.to_owned() };
    let cs = chars_of(rel);
    if cs.len() == 0 || cs[0] == '/' {
        return Err(unsafe_path);
    }
    if first_segment_is_dot(rel) {
        return Err(unsafe_path);
    }
    let segs = crate::capability::split_nonempty(rel);
    let ghost sv = crate::json::string_views(segs@);
    let mut i: usize = 0;
    while i < segs.len()
        invariant
            i <= segs.len(),
            sv == crate::json::string_views(segs@),
            forall|k: int| 0 <= k < i ==> sv[k] != seq!['.', '.'],
        decreases segs.len() - i,
    {
        if is_dot_dot(segs[i].as_str()) {
            assert(sv[i as int] == seq!['.', '.']);
            return Err(unsafe_path);
        }
        i += 1;
    }
    Ok(())
}

// ---------------------------------------------------------------------
// Tree objects
// ---------------------------------------------------------------------

/// A well-formed entry of an `fs_tree`: a safe path, a hash, a mode of
/// `644` or `755`, and a size.
pub open spec fn entry_ok(e: JsonV) -> bool {
    &&& e.at("path"@).as_str() matches Some(p) && safe_tree_path(p)
    &&& e.at("hash"@).as_str() is Some
    &&& (e.at("mode"@).as_str() == Some("644"@) || e.at("mode"@).as_str() == Some("755"@))
    &&& e.at("size"@).as_u64() is Some
}

/// A well-formed `fs_tree` object: the right kind, an entries array of
/// well-formed entries, no path twice.
pub open spec fn tree_object_ok(tree: JsonV) -> bool {
    &&& tree.at("kind"@) == JsonV::Str("fs_tree"@)
    &&& tree.at("entries"@).as_array() matches Some(es) && {
        &&& forall|i: int| 0 <= i < es.len() ==> entry_ok(#[trigger] es[i])
        &&& forall|i: int, j: int| 0 <= i < j < es.len() ==> #[trigger] es[i].at("path"@) != #[trigger] es[j].at("path"@)
    }
}

/// Validate a stored `fs_tree` object before it is applied anywhere.
pub fn validate_tree_object(tree: &Json, root: &str) -> (r: Result<(), SnapError>)
    ensures
        r is Ok <==> tree_object_ok(tree@),
        r matches Err(e) ==> (e is MalformedTree || e is UnsafePath),
{
    let kind_ok = match tree.get("kind") {
        Some(k) => crate::json::json_is_str(k, "fs_tree"),
        None => false,
    };
    if !kind_ok {
        return Err(SnapError::MalformedTree(root.to_owned()));
    }
    let entries = match tree.get("entries") {
        Some(e) => match e.as_array() {
            Some(a) => a,
            None => return Err(SnapError::MalformedTree(root.to_owned())),
        },
        None => return Err(SnapError::MalformedTree(root.to_owned())),
    };
    proof { lemma_elems_view_len(entries@); }
    let ghost es = elems_view(entries@);
    let mut seen: Vec<String> = Vec::new();
    let mut i: usize = 0;
    while i < entries.len()
        invariant
            i <= entries.len(),
            es == elems_view(entries@),
            es.len() == entries.len(),
            tree@.at("entries"@).as_array() == Some(es),
            forall|j: int| 0 <= j < entries.len() ==> #[trigger] es[j] == json_view(entries@[j]),
            forall|j: int| 0 <= j < i ==> entry_ok(#[trigger] es[j]),
            forall|a: int, b: int| 0 <= a < b < i ==> #[trigger] es[a].at("path"@) != #[trigger] es[b].at("path"@),
            crate::json::string_views(seen@).len() == i,
            forall|j: int| 0 <= j < i ==> es[j].at("path"@) == JsonV::Str(#[trigger] crate::json::string_views(seen@)[j]),
        decreases entries.len() - i,
    {
        let e = &entries[i];
        let rel = match e.str_at("path") {
            Some(p) => p,
            None => return Err(SnapError::MalformedTree(root.to_owned())),
        };
        match validate_tree_path(root, rel) {
            Ok(()) => {},
            Err(err) => return Err(err),
        }
        if str_list_contains(&seen, rel) {
            proof {
                let sv = crate::json::string_views(seen@);
                let k = choose|k: int| 0 <= k < sv.len() && sv[k] == rel@;
                assert(es[k].at("path"@) == es[i as int].at("path"@));
            }
            let msg = cat(&cat(root, ": duplicate path "), rel);
            return Err(SnapError::MalformedTree(msg));
        }
        let hash_ok = e.str_at("hash").is_some();
        let mode_ok = match e.str_at("mode") {
            Some(m) => str_eq(m, "644") || str_eq(m, "755"),
            None => false,
        };
        let size_ok = match e.get("size") {
            Some(s) => s.as_u64().is_some(),
            None => false,
        };
        if !(hash_ok && mode_ok && size_ok) {
            return Err(SnapError::MalformedTree(root.to_owned()));
        }
        let ghost s0 = seen@;
        seen.push(rel.to_owned());
        proof {
            let sv = crate::json::string_views(seen@);
            assert(sv =~= crate::json::string_views(s0).push(rel@));
            assert forall|a: int, b: int| 0 <= a < b < i + 1 implies #[trigger] es[a].at("path"@) != #[trigger] es[b].at("path"@) by {
                if b == i {
                    assert(es[a].at("path"@) == JsonV::Str(sv[a]));
                    assert(sv[a] != rel@) by {
                        assert(crate::json::string_views(s0)[a] == sv[a]);
                    }
                }
            }
        }
        i += 1;
    }
    Ok(())
}


// ---------------------------------------------------------------------
// Composing a merged tree
// ---------------------------------------------------------------------

/// The entries of all source trees, source by source.
pub open spec fn source_entries(sources: Seq<JsonV>) -> Seq<JsonV>
    decreases sources.len(),
{
    if sources.len() == 0 {
        Seq::empty()
    } else {
        source_entries(sources.drop_last()) + match sources.last().at("entries"@).as_array() {
            Some(a) => a,
            None => Seq::empty(),
        }
    }
}

/// The first entry carrying `hash` (and, when `exact`, also `path`).
pub open spec fn first_match(es: Seq<JsonV>, path: Seq<char>, hash: Seq<char>, exact: bool) -> Option<JsonV>
    decreases es.len(),
{
    if es.len() == 0 {
        None
    } else if es[0].at("hash"@).as_str() == Some(hash) && (!exact || es[0].at("path"@).as_str() == Some(path)) {
        Some(es[0])
    } else {
        first_match(es.drop_first(), path, hash, exact)
    }
}

/// The source entry a merged `(path, hash)` takes its metadata from: an
/// exact path-and-hash match first (covering moves and renames through
/// the side that has the new path), then any entry with the hash.
pub open spec fn pick_entry(es: Seq<JsonV>, path: Seq<char>, hash: Seq<char>) -> Option<JsonV> {
    match first_match(es, path, hash, true) {
        Some(e) => Some(e),
        None => first_match(es, path, hash, false),
    }
}

/// An entry relocated to `path`.
pub open spec fn with_path(e: JsonV, path: Seq<char>) -> JsonV {
    match e {
        JsonV::Object(f) => JsonV::Object(fields_insert(f, "path"@, JsonV::Str(path))),
        _ => e,
    }
}

/// The entries of the composed tree, one per merged pair, in path order.
pub open spec fn composed_entries(merged: Seq<(Seq<char>, Seq<char>)>, es: Seq<JsonV>) -> Seq<JsonV> {
    Seq::new(merged.len(), |i: int| with_path(pick_entry(es, merged[i].0, merged[i].1)->0, merged[i].0))
}

/// An `fs_tree` object with these entries.
pub open spec fn fs_tree_json(entries: Seq<JsonV>) -> JsonV {
    JsonV::Object(seq![("entries"@, JsonV::Array(entries)), ("kind"@, JsonV::Str("fs_tree"@))])
}

fn collect_entries(sources: &Vec<Json>) -> (r: Vec<Json>)
    ensures
        elems_view(r@) == source_entries(elems_view(sources@)),
{
    proof { lemma_elems_view_len(sources@); }
    let ghost sv = elems_view(sources@);
    let mut out: Vec<Json> = Vec::new();
    let mut i: usize = 0;
    assert(sv.take(0) =~= Seq::<JsonV>::empty());
    while i < sources.len()
        invariant
            i <= sources.len(),
            sv == elems_view(sources@),
            sv.len() == sources.len(),
            forall|j: int| 0 <= j < sources.len() ==> #[trigger] sv[j] == json_view(sources@[j]),
            elems_view(out@) == source_entries(sv.take(i as int)),
        decreases sources.len() - i,
    {
        assert(sv.take(i + 1).drop_last() =~= sv.take(i as int));
        assert(sv.take(i + 1).last() == sv[i as int]);
        let ghost before = elems_view(out@);
        match sources[i].get("entries") {
            Some(e) => match e.as_array() {
                Some(a) => {
                    proof { lemma_elems_view_len(a@); }
                    let mut k: usize = 0;
                    while k < a.len()
                        invariant
                            k <= a.len(),
                            elems_view(a@).len() == a.len(),
                            forall|j: int| 0 <= j < a.len() ==> #[trigger] elems_view(a@)[j] == json_view(a@[j]),
                            elems_view(out@) == before + elems_view(a@).take(k as int),
                        decreases a.len() - k,
                    {
                        let x = a[k].deep_clone();
                        proof { lemma_elems_view_push(out@, x); }
                        out.push(x);
                        k += 1;
                        assert(elems_view(out@) =~= before + elems_view(a@).take(k as int));
                    }
                    assert(elems_view(a@).take(k as int) =~= elems_view(a@));
                },
                None => {
                    assert(elems_view(out@) =~= before + Seq::<JsonV>::empty());
                },
            },
            None => {
                assert(elems_view(out@) =~= before + Seq::<JsonV>::empty());
            },
        }
        i += 1;
    }
    assert(sv.take(i as int) =~= sv);
    out
}

fn find_entry(es: &Vec<Json>, path: &str, hash: &str, exact: bool) -> (r: Option<usize>)
    ensures
        match r {
            Some(k) => k < es.len() && first_match(elems_view(es@), path@, hash@, exact) == Some(elems_view(es@)[k as int]),
            None => first_match(elems_view(es@), path@, hash@, exact) is None,
        },
{
    proof { lemma_elems_view_len(es@); }
    let ghost ev = elems_view(es@);
    let mut i: usize = 0;
    assert(ev.skip(0) =~= ev);
    while i < es.len()
        invariant
            i <= es.len(),
            ev == elems_view(es@),
            ev.len() == es.len(),
            forall|j: int| 0 <= j < es.len() ==> #[trigger] ev[j] == json_view(es@[j]),
            first_match(ev, path@, hash@, exact) == first_match(ev.skip(i as int), path@, hash@, exact),
        decreases es.len() - i,
    {
        assert(ev.skip(i as int).drop_first() =~= ev.skip(i + 1));
        assert(ev.skip(i as int)[0] == ev[i as int]);
        let hash_match = match es[i].str_at("hash") {
            Some(h) => str_eq(h, hash),
            None => false,
        };
        let path_match = match es[i].str_at("path") {
            Some(p) => str_eq(p, path),
            None => false,
        };
        if hash_match && (!exact || path_match) {
            return Some(i);
        }
        i += 1;
    }
    None
}

/// Build the `fs_tree` object for a merged `path → hash` tree, taking each
/// entry's metadata (mode, size) from the source trees in priority order.
/// Every pair of a merge came from one of the sources, so lookup cannot
/// miss on well-formed input; a miss, or an unsafe path, is refused.
pub fn compose_tree_object(merged: &Tree, sources: &Vec<Json>) -> (r: Result<Json, SnapError>)
    ensures
        r is Ok <==> forall|i: int| 0 <= i < merged@.len() ==> safe_tree_path(#[trigger] merged@[i].0)
            && pick_entry(source_entries(elems_view(sources@)), merged@[i].0, merged@[i].1) is Some,
        r matches Ok(t) ==> t@ == fs_tree_json(composed_entries(merged@, source_entries(elems_view(sources@)))),
{
    let es = collect_entries(sources);
    let ghost ev = elems_view(es@);
    let ghost mv = merged@;
    let me = merged.entries();
    let mut out: Vec<Json> = Vec::new();
    let mut i: usize = 0;
    while i < me.len()
        invariant
            i <= me.len(),
            ev == elems_view(es@),
            ev == source_entries(elems_view(sources@)),
            mv == merged@,
            pairs_view(me@) == mv,
            mv.len() == me.len(),
            forall|k: int| 0 <= k < i ==> safe_tree_path(#[trigger] mv[k].0) && pick_entry(ev, mv[k].0, mv[k].1) is Some,
            elems_view(out@) == composed_entries(mv, ev).take(i as int),
        decreases me.len() - i,
    {
        let path = &me[i].0;
        let hash = &me[i].1;
        assert(mv[i as int] == (path@, hash@));
        match validate_tree_path("composed tree", path.as_str()) {
            Ok(()) => {},
            Err(e) => {
                assert(!safe_tree_path(merged@[i as int].0));
                return Err(e);
            },
        }
        let found = match find_entry(&es, path.as_str(), hash.as_str(), true) {
            Some(k) => Some(k),
            None => find_entry(&es, path.as_str(), hash.as_str(), false),
        };
        let k = match found {
            Some(k) => k,
            None => {
                assert(pick_entry(ev, merged@[i as int].0, merged@[i as int].1) is None);
                let msg = cat(&cat(&cat(&cat("merged entry ", path.as_str()), "="), hash.as_str()), " not found in any source tree");
                return Err(SnapError::MalformedTree(msg));
            },
        };
        proof { lemma_elems_view_len(es@); }
        let entry = match &es[k] {
            Json::Object(f) => {
                let mut g: Vec<(String, Json)> = Vec::new();
                let mut m: usize = 0;
                proof { lemma_fields_view_len(f@); }
                while m < f.len()
                    invariant
                        m <= f.len(),
                        fields_view(f@).len() == f.len(),
                        forall|j: int| 0 <= j < f.len() ==> #[trigger] fields_view(f@)[j] == (f@[j].0@, json_view(f@[j].1)),
                        fields_view(g@) == fields_view(f@).take(m as int),
                    decreases f.len() - m,
                {
                    let item = (f[m].0.clone(), f[m].1.deep_clone());
                    proof { crate::json::lemma_fields_view_push(g@, item); }
                    g.push(item);
                    m += 1;
                    assert(fields_view(g@) =~= fields_view(f@).take(m as int));
                }
                assert(fields_view(f@).take(m as int) =~= fields_view(f@));
                insert_field(&mut g, "path".to_owned(), Json::Str(path.clone()));
                Json::Object(g)
            },
            other => other.deep_clone(),
        };
        assert(entry@ == with_path(ev[k as int], path@));
        let ghost before = elems_view(out@);
        proof { lemma_elems_view_push(out@, entry); }
        out.push(entry);
        i += 1;
        assert(elems_view(out@) =~= composed_entries(mv, ev).take(i as int)) by {
            assert(composed_entries(mv, ev).take(i as int) =~= composed_entries(mv, ev).take(i - 1).push(composed_entries(mv, ev)[i - 1]));
        }
    }
    assert(composed_entries(mv, ev).take(i as int) =~= composed_entries(mv, ev));
    let f = vec![("entries".to_owned(), Json::Array(out)), ("kind".to_owned(), Json::from_str("fs_tree"))];
    proof { lemma_fields_view_len(f@); }
    let t = Json::Object(f);
    assert(fields_view(f@) =~= seq![("entries"@, JsonV::Array(composed_entries(mv, ev))), ("kind"@, JsonV::Str("fs_tree"@))]);
    Ok(t)
}


// ---------------------------------------------------------------------
// Capturing a filesystem store
// ---------------------------------------------------------------------

/// A regular file found under a store root: its path relative to the
/// root (with `/` separators), whether any execute bit is set, its size
/// and the address its content was stored under.
#[derive(Debug)]
pub struct FileEntry {
    pub path: String,
    pub executable: bool,
    pub size: u64,
    pub hash: String,
}

/// The mode a tree records: `755` for an executable file, else `644`.
pub open spec fn mode_of(executable: bool) -> Seq<char> {
    if executable {
        "755"@
    } else {
        "644"@
    }
}

/// A captured file's tree entry, fields in key order.
pub open spec fn file_entry_json(e: FileEntry) -> JsonV {
    JsonV::Object(seq![
        ("hash"@, JsonV::Str(e.hash@)),
        ("mode"@, JsonV::Str(mode_of(e.executable))),
        ("path"@, JsonV::Str(e.path@)),
        ("size"@, JsonV::Int(e.size as int)),
    ])
}

/// `a`'s path is not after `b`'s.
pub open spec fn path_le(a: FileEntry, b: FileEntry) -> bool {
    !crate::json::chars_lt(b.path@, a.path@)
}

/// Insert `e` after every entry whose path is not after its own.
pub open spec fn insert_by_path(sorted: Seq<FileEntry>, e: FileEntry) -> Seq<FileEntry>
    decreases sorted.len(),
{
    if sorted.len() == 0 {
        seq![e]
    } else if path_le(sorted.last(), e) {
        sorted.push(e)
    } else {
        insert_by_path(sorted.drop_last(), e).push(sorted.last())
    }
}

/// The files in path order; files with equal paths keep their order.
pub open spec fn sort_by_path(s: Seq<FileEntry>) -> Seq<FileEntry>
    decreases s.len(),
{
    if s.len() == 0 {
        Seq::empty()
    } else {
        insert_by_path(sort_by_path(s.drop_last()), s.last())
    }
}

/// Paths never decrease along `s`.
pub open spec fn path_sorted(s: Seq<FileEntry>) -> bool {
    forall|a: int, b: int| 0 <= a < b < s.len() ==> path_le(#[trigger] s[a], #[trigger] s[b])
}

proof fn lemma_path_le_trans(a: FileEntry, b: FileEntry, c: FileEntry)
    requires
        path_le(a, b),
        path_le(b, c),
    ensures
        path_le(a, c),
{
    if crate::json::chars_lt(c.path@, a.path@) {
        crate::json::lemma_chars_lt_total(b.path@, c.path@);
        if crate::json::chars_lt(b.path@, c.path@) {
            crate::json::lemma_chars_lt_trans(b.path@, c.path@, a.path@);
        }
    }
}

proof fn lemma_path_le_total(a: FileEntry, b: FileEntry)
    ensures
        path_le(a, b) || path_le(b, a),
{
    crate::json::lemma_chars_lt_total(a.path@, b.path@);
    if crate::json::chars_lt(a.path@, b.path@) {
        crate::json::lemma_chars_lt_asym(a.path@, b.path@);
    }
    if a.path@ == b.path@ {
        crate::json::lemma_chars_lt_irrefl(a.path@);
    }
}

spec fn path_pos(s: Seq<FileEntry>, e: FileEntry) -> int
    decreases s.len(),
{
    if s.len() == 0 {
        0
    } else if path_le(s.last(), e) {
        s.len() as int
    } else {
        path_pos(s.drop_last(), e)
    }
}

proof fn lemma_path_pos(s: Seq<FileEntry>, e: FileEntry)
    requires
        path_sorted(s),
    ensures
        0 <= path_pos(s, e) <= s.len(),
        forall|j: int| 0 <= j < path_pos(s, e) ==> path_le(#[trigger] s[j], e),
        path_pos(s, e) < s.len() ==> !path_le(s[path_pos(s, e)], e),
        insert_by_path(s, e) == s.insert(path_pos(s, e), e),
        path_sorted(s.insert(path_pos(s, e), e)),
    decreases s.len(),
{
    if s.len() == 0 {
        assert(s.insert(0, e) =~= seq![e]);
    } else if path_le(s.last(), e) {
        assert forall|j: int| 0 <= j < s.len() implies path_le(#[trigger] s[j], e) by {
            if j < s.len() - 1 {
                lemma_path_le_trans(s[j], s.last(), e);
            }
        }
        assert(s.insert(s.len() as int, e) =~= s.push(e));
    } else {
        let d = s.drop_last();
        assert forall|a: int, b: int| 0 <= a < b < d.len() implies path_le(#[trigger] d[a], #[trigger] d[b]) by {
            assert(d[a] == s[a] && d[b] == s[b]);
        }
        lemma_path_pos(d, e);
        let p = path_pos(d, e);
        assert forall|j: int| 0 <= j < p implies path_le(#[trigger] s[j], e) by {
            assert(d[j] == s[j]);
        }
        if p < d.len() {
            assert(d[p] == s[p]);
        }
        assert(d.insert(p, e).push(s.last()) =~= s.insert(p, e));
        lemma_path_le_total(s.last(), e);
        let t = s.insert(p, e);
        assert forall|a: int, b: int| 0 <= a < b < t.len() implies path_le(#[trigger] t[a], #[trigger] t[b]) by {
            if b == t.len() - 1 {
                if a == p {
                } else if a < p {
                    lemma_path_le_trans(s[a], e, s.last());
                } else {
                    assert(t[a] == s[a - 1]);
                }
            } else {
                assert(t[a] == d.insert(p, e)[a] && t[b] == d.insert(p, e)[b]);
            }
        }
    }
}

proof fn lemma_sort_by_path_sorted(s: Seq<FileEntry>)
    ensures
        path_sorted(sort_by_path(s)),
    decreases s.len(),
{
    if s.len() > 0 {
        lemma_sort_by_path_sorted(s.drop_last());
        lemma_path_pos(sort_by_path(s.drop_last()), s.last());
    }
}

fn copy_file_entry(e: &FileEntry) -> (r: FileEntry)
    ensures
        r == *e,
{
    FileEntry { path: e.path.clone(), executable: e.executable, size: e.size, hash: e.hash.clone() }
}

/// The captured files in path order.
pub fn files_in_path_order(files: &Vec<FileEntry>) -> (r: Vec<FileEntry>)
    ensures
        r@ == sort_by_path(files@),
{
    let mut out: Vec<FileEntry> = Vec::new();
    let mut i: usize = 0;
    while i < files.len()
        invariant
            i <= files@.len(),
            out@ == sort_by_path(files@.take(i as int)),
        decreases files@.len() - i,
    {
        proof {
            assert(files@.take(i + 1).drop_last() =~= files@.take(i as int));
            lemma_sort_by_path_sorted(files@.take(i as int));
            lemma_path_pos(out@, files@[i as int]);
        }
        let mut pos: usize = 0;
        while pos < out.len() && !crate::json::str_lt(files[i].path.as_str(), out[pos].path.as_str())
            invariant
                pos <= out@.len(),
                out@ == sort_by_path(files@.take(i as int)),
                path_sorted(out@),
                forall|j: int| 0 <= j < pos ==> path_le(#[trigger] out@[j], files@[i as int]),
            decreases out@.len() - pos,
        {
            pos += 1;
        }
        proof {
            let s = out@;
            let e = files@[i as int];
            let p = path_pos(s, e);
            if pos < s.len() {
                assert(!path_le(s[pos as int], e));
            }
            // the first entry after `e` in a sorted sequence is unique
            if (pos as int) < p {
                assert(path_le(s[pos as int], e));
            }
            if p < (pos as int) {
                assert(!path_le(s[p], e));
                assert(path_le(s[p], e));
            }
            assert(p == pos as int);
        }
        out.insert(pos, copy_file_entry(&files[i]));
        i += 1;
    }
    assert(files@.take(i as int) =~= files@);
    out
}

fn file_entry_object(e: &FileEntry) -> (r: Json)
    ensures
        r@ == file_entry_json(*e),
{
    let mode = if e.executable {
        "755"
    } else {
        "644"
    };
    let mut f: Vec<(String, Json)> = Vec::new();
    f.push(("hash".to_owned(), Json::from_str(e.hash.as_str())));
    f.push(("mode".to_owned(), Json::from_str(mode)));
    f.push(("path".to_owned(), Json::from_str(e.path.as_str())));
    f.push(("size".to_owned(), Json::from_u64(e.size)));
    proof {
        lemma_fields_view_len(f@);
        assert(fields_view(f@) =~= match file_entry_json(*e) {
            JsonV::Object(x) => x,
            _ => Seq::empty(),
        });
    }
    Json::Object(f)
}

/// The `fs_tree` object of a capture: one entry per file, in path order.
pub open spec fn captured_tree(files: Seq<FileEntry>) -> JsonV {
    fs_tree_json(sort_by_path(files).map_values(|e: FileEntry| file_entry_json(e)))
}

/// Build the `fs_tree` object a filesystem capture stores, and its
/// canonical bytes (whose address is the store's root).
pub fn capture_tree(files: &Vec<FileEntry>) -> (r: Result<(Json, Vec<u8>), crate::canon::CanonError>)
    ensures
        match crate::promotion::jcs_of(captured_tree(files@)) {
            Some(b) => r matches Ok((t, x)) && t@ == captured_tree(files@) && x@ == b,
            None => r is Err,
        },
{
    let sorted = files_in_path_order(files);
    let ghost target = sorted@.map_values(|e: FileEntry| file_entry_json(e));
    let mut entries: Vec<Json> = Vec::new();
    let mut i: usize = 0;
    while i < sorted.len()
        invariant
            i <= sorted@.len(),
            target == sorted@.map_values(|e: FileEntry| file_entry_json(e)),
            elems_view(entries@) == target.take(i as int),
        decreases sorted@.len() - i,
    {
        let ghost prev = entries@;
        entries.push(file_entry_object(&sorted[i]));
        proof {
            lemma_elems_view_push(prev, entries@.last());
            assert(entries@ =~= prev.push(entries@.last()));
            assert(target.take(i + 1) =~= target.take(i as int).push(file_entry_json(sorted@[i as int])));
        }
        i += 1;
    }
    assert(target.take(i as int) =~= target);
    let ghost ev = elems_view(entries@);
    let mut f: Vec<(String, Json)> = Vec::new();
    f.push(("entries".to_owned(), Json::Array(entries)));
    f.push(("kind".to_owned(), Json::from_str("fs_tree")));
    proof {
        lemma_fields_view_len(f@);
        assert(fields_view(f@) =~= seq![("entries"@, JsonV::Array(ev)), ("kind"@, JsonV::Str("fs_tree"@))]);
    }
    let tree = Json::Object(f);
    match crate::canon::jcs_bytes(&tree) {
        Ok(b) => Ok((tree, b)),
        Err(e) => Err(e),
    }
}

// ---------------------------------------------------------------------
// Messages
// ---------------------------------------------------------------------

/// Trusted: the `Display` text of a `std::io::Error`; nothing is claimed
/// of it.
#[verifier::external_body]
pub(crate) fn io_error_text(e: &std::io::Error) -> (r: String) {
    e.to_string()
}

/// How a snapshot failure reads, for every failure that does not carry
/// an outside error.
pub open spec fn snap_error_text(e: SnapError) -> Option<Seq<char>> {
    match e {
        SnapError::Io { .. } => None,
        SnapError::Db(_) => None,
        SnapError::Symlink(p) => Some("symlink "@ + p@ + " unsupported in snapshot roots"@),
        SnapError::MissingBlob(h) => Some("blob "@ + h@ + " missing from CAS"@),
        SnapError::InvalidHash(h) => Some("invalid sha256 CAS address "@ + h@),
        SnapError::HashMismatch { expected, observed } => Some(
            "CAS integrity failure: requested "@ + expected@ + ", read "@ + observed@),
        SnapError::MalformedTree(m) => Some("malformed tree object "@ + m@),
        SnapError::UnsafePath { root, path } => Some("unsafe path \""@ + path@ + "\" in tree object "@ + root@),
        SnapError::MissingRoot(p) => Some("store root "@ + p@ + " does not exist"@),
    }
}

impl SnapError {
    /// The error's message.
    pub fn text(&self) -> (r: String)
        ensures
            snap_error_text(*self) matches Some(t) ==> r@ == t,
    {
        match self {
            SnapError::Io { path, source } => cat(
                &cat(&cat("io at ", path.as_str()), ": "),
                io_error_text(source).as_str(),
            ),
            SnapError::Db(e) => cat("sqlite: ", crate::trace::sqlite_error_text(e).as_str()),
            SnapError::Symlink(p) => cat(&cat("symlink ", p.as_str()), " unsupported in snapshot roots"),
            SnapError::MissingBlob(h) => cat(&cat("blob ", h.as_str()), " missing from CAS"),
            SnapError::InvalidHash(h) => cat("invalid sha256 CAS address ", h.as_str()),
            SnapError::HashMismatch { expected, observed } => cat(
                &cat(&cat("CAS integrity failure: requested ", expected.as_str()), ", read "),
                observed.as_str(),
            ),
            SnapError::MalformedTree(m) => cat("malformed tree object ", m.as_str()),
            SnapError::UnsafePath { root, path } => cat(
                &cat(&cat("unsafe path \"", path.as_str()), "\" in tree object "),
                root.as_str(),
            ),
            SnapError::MissingRoot(p) => cat(&cat("store root ", p.as_str()), " does not exist"),
        }
    }
}

} // verus!
