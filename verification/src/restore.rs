//! Restoring a store to a root: what a restore reads from a tree object,
//! which live files it deletes and which it rewrites, and how a blob read
//! back from the content store is checked against its address.
//!
//! A filesystem restore applies in place: files absent from the tree are
//! deleted, and only files whose content differs are written, so unchanged
//! files keep their times and inodes.

use vstd::prelude::*;
use crate::json::{chars_of, elems_view, lemma_elems_view_len, str_eq, string_of, Json, JsonV};
use crate::snapshot::SnapError;

verus! {

// ---------------------------------------------------------------------
// Reading a tree object
// ---------------------------------------------------------------------

/// A file a tree object asks for.
#[derive(Debug)]
pub struct TreeFile {
    pub path: String,
    pub hash: String,
    pub mode: String,
}

/// A tree entry's file: its path and hash, and its mode (`644` when
/// absent); `None` when the path or hash is missing.
pub open spec fn entry_file(e: JsonV) -> Option<(Seq<char>, Seq<char>, Seq<char>)> {
    match (e.str_at("hash"@), e.str_at("path"@)) {
        (Some(h), Some(p)) => Some((p, h, match e.str_at("mode"@) {
            Some(m) => m,
            None => "644"@,
        })),
        _ => None,
    }
}

/// The files of a tree's entries, in order; `None` at the first entry
/// without a path or hash.
pub open spec fn entry_files(es: Seq<JsonV>) -> Option<Seq<(Seq<char>, Seq<char>, Seq<char>)>>
    decreases es.len(),
{
    if es.len() == 0 {
        Some(Seq::empty())
    } else {
        match entry_files(es.drop_last()) {
            None => None,
            Some(fs) => match entry_file(es.last()) {
                None => None,
                Some(f) => Some(fs.push(f)),
            },
        }
    }
}

/// The files of a tree object, when it is readable.
pub open spec fn tree_files_of(tree: JsonV) -> Option<Seq<(Seq<char>, Seq<char>, Seq<char>)>> {
    match tree.at("entries"@).as_array() {
        Some(es) => entry_files(es),
        None => None,
    }
}

/// A file as characters.
pub open spec fn file_view(f: TreeFile) -> (Seq<char>, Seq<char>, Seq<char>) {
    (f.path@, f.hash@, f.mode@)
}

proof fn lemma_files_none_sticks(es: Seq<JsonV>, k: int)
    requires
        0 <= k <= es.len(),
        entry_files(es.take(k)) is None,
    ensures
        entry_files(es) is None,
    decreases es.len() - k,
{
    if k < es.len() {
        assert(es.take(k + 1).drop_last() =~= es.take(k));
        lemma_files_none_sticks(es, k + 1);
    } else {
        assert(es.take(k) =~= es);
    }
}

/// The files a tree object asks for, in its order: each entry's path and
/// hash, and its mode (`644` when absent). A tree without an entries
/// array, or an entry without a path or hash, is malformed.
pub fn tree_files(tree: &Json, root: &str) -> (r: Result<Vec<TreeFile>, SnapError>)
    ensures
        match tree_files_of(tree@) {
            Some(fs) => r matches Ok(v) && v@.map_values(|f: TreeFile| file_view(f)) == fs,
            None => r matches Err(SnapError::MalformedTree(m)) && m@ == root@,
        },
{
    proof {
        reveal_strlit("entries");
        reveal_strlit("644");
    }
    let items = match tree.get("entries") {
        Some(v) => v.as_array(),
        None => None,
    };
    let items = match items {
        Some(a) => a,
        None => return Err(SnapError::MalformedTree(root.to_owned())),
    };
    proof { lemma_elems_view_len(items@); }
    let ghost es = elems_view(items@);
    let mut out: Vec<TreeFile> = Vec::new();
    let mut i: usize = 0;
    assert(es.take(0) =~= Seq::<JsonV>::empty());
    assert(out@.map_values(|f: TreeFile| file_view(f)) =~= Seq::<(Seq<char>, Seq<char>, Seq<char>)>::empty());
    while i < items.len()
        invariant
            i <= items@.len(),
            es == elems_view(items@),
            es.len() == items@.len(),
            entry_files(es.take(i as int)) == Some(out@.map_values(|f: TreeFile| file_view(f))),
        decreases items@.len() - i,
    {
        assert(es.take(i + 1).drop_last() =~= es.take(i as int));
        assert(es.take(i + 1).last() == items@[i as int]@);
        let hash = match items[i].str_at("hash") {
            Some(h) => h,
            None => {
                proof { lemma_files_none_sticks(es, i + 1); }
                return Err(SnapError::MalformedTree(root.to_owned()));
            },
        };
        let path = match items[i].str_at("path") {
            Some(p) => p,
            None => {
                proof { lemma_files_none_sticks(es, i + 1); }
                return Err(SnapError::MalformedTree(root.to_owned()));
            },
        };
        let mode = match items[i].str_at("mode") {
            Some(m) => m,
            None => "644",
        };
        let ghost prev = out@;
        out.push(TreeFile { path: path.to_owned(), hash: hash.to_owned(), mode: mode.to_owned() });
        proof {
            assert(out@.map_values(|f: TreeFile| file_view(f)) =~= prev.map_values(|f: TreeFile| file_view(f)).push(
                (path@, hash@, mode@)));
        }
        i += 1;
    }
    assert(es.take(i as int) =~= es);
    Ok(out)
}

// ---------------------------------------------------------------------
// Applying in place
// ---------------------------------------------------------------------

/// Some file of `files` has path `p`.
pub open spec fn wanted(files: Seq<TreeFile>, p: Seq<char>) -> bool {
    exists|i: int| 0 <= i < files.len() && (#[trigger] files[i]).path@ == p
}

/// The live files a restore deletes: those the tree does not contain, in
/// the order they were found.
pub fn files_to_delete(live: &Vec<String>, files: &Vec<TreeFile>) -> (r: Vec<String>)
    ensures
        crate::json::string_views(r@) == crate::json::string_views(live@).filter(|p: Seq<char>| !wanted(files@, p)),
{
    let ghost lv = crate::json::string_views(live@);
    let mut out: Vec<String> = Vec::new();
    let mut i: usize = 0;
    assert(lv.take(0) =~= Seq::<Seq<char>>::empty());
    assert(crate::json::string_views(out@) =~= Seq::<Seq<char>>::empty());
    while i < live.len()
        invariant
            i <= live@.len(),
            lv == crate::json::string_views(live@),
            lv.len() == live@.len(),
            crate::json::string_views(out@) == lv.take(i as int).filter(|p: Seq<char>| !wanted(files@, p)),
        decreases live@.len() - i,
    {
        assert(lv.take(i + 1).drop_last() =~= lv.take(i as int));
        proof { reveal(Seq::filter); }
        let mut k: usize = 0;
        let mut found = false;
        while k < files.len()
            invariant
                k <= files@.len(),
                found ==> wanted(files@, live@[i as int]@),
                !found ==> forall|j: int| 0 <= j < k ==> (#[trigger] files@[j]).path@ != live@[i as int]@,
            decreases files@.len() - k,
        {
            if !found && str_eq(files[k].path.as_str(), live[i].as_str()) {
                found = true;
            }
            k += 1;
        }
        assert(lv[i as int] == live@[i as int]@);
        if !found {
            let ghost prev = out@;
            out.push(live[i].clone());
            assert(crate::json::string_views(out@) =~= crate::json::string_views(prev).push(live@[i as int]@));
        }
        i += 1;
    }
    assert(lv.take(i as int) =~= lv);
    out
}

/// Whether a restore writes a file: unless the live file already holds
/// the wanted content (its content address is the file's hash).
pub fn needs_write(existing: Option<&str>, hash: &str) -> (r: bool)
    ensures
        r == !(existing matches Some(x) && x@ == hash@),
{
    match existing {
        Some(x) => !str_eq(x, hash),
        None => true,
    }
}

/// The permission bits a restored file gets: `0o755` for mode `755`,
/// else `0o644`.
pub fn mode_bits(mode: &str) -> (r: u32)
    ensures
        r == (if mode@ == "755"@ {
            0o755u32
        } else {
            0o644u32
        }),
{
    proof { reveal_strlit("755"); }
    if str_eq(mode, "755") {
        0o755
    } else {
        0o644
    }
}

// ---------------------------------------------------------------------
// Sqlite staging
// ---------------------------------------------------------------------

/// `root` without its `sha256:` prefix.
pub open spec fn digest_text(root: Seq<char>) -> Seq<char> {
    if crate::authority::has_prefix(root, "sha256:"@) {
        root.skip(7)
    } else {
        root
    }
}

/// The staging file a sqlite restore materializes beside the live store:
/// `.asf-staging-<file name>-<first twelve digest characters>`.
pub fn staging_name(file_name: &str, root: &str) -> (r: String)
    requires
        digest_text(root@).len() >= 12,
    ensures
        r@ == ".asf-staging-"@ + file_name@ + "-"@ + digest_text(root@).take(12),
{
    proof { reveal_strlit("sha256:"); }
    let cs = chars_of(root);
    let start: usize = if crate::authority::starts_with(root, "sha256:") {
        7
    } else {
        0
    };
    let mut head: Vec<char> = Vec::new();
    let mut i: usize = 0;
    while i < 12
        invariant
            i <= 12,
            cs@ == root@,
            digest_text(root@) == cs@.skip(start as int),
            cs@.len() >= start + 12,
            head@ == cs@.skip(start as int).take(i as int),
        decreases 12 - i,
    {
        head.push(cs[start + i]);
        assert(cs@.skip(start as int).take(i + 1) =~= cs@.skip(start as int).take(i as int).push(cs@[start + i]));
        i += 1;
    }
    crate::capability::cat(&crate::capability::cat(&crate::capability::cat(".asf-staging-", file_name), "-"), string_of(&head).as_str())
}

// ---------------------------------------------------------------------
// Reading blobs back
// ---------------------------------------------------------------------

/// ASCII letters in lower case; other characters unchanged.
pub open spec fn ascii_lower(s: Seq<char>) -> Seq<char> {
    s.map_values(|c: char| if 'A' <= c && c <= 'Z' {
        ((c as u8) + 32) as char
    } else {
        c
    })
}

fn lower_ascii(s: &str) -> (r: String)
    ensures
        r@ == ascii_lower(s@),
{
    let cs = chars_of(s);
    let mut out: Vec<char> = Vec::new();
    let mut i: usize = 0;
    while i < cs.len()
        invariant
            i <= cs@.len(),
            cs@ == s@,
            out@ == ascii_lower(cs@).take(i as int),
        decreases cs@.len() - i,
    {
        let c = cs[i];
        let d = if 'A' <= c && c <= 'Z' {
            ((c as u8) + 32) as char
        } else {
            c
        };
        out.push(d);
        assert(ascii_lower(cs@).take(i + 1) =~= ascii_lower(cs@).take(i as int).push(d));
        i += 1;
    }
    assert(ascii_lower(cs@).take(i as int) =~= ascii_lower(cs@));
    string_of(&out)
}

/// Check bytes read back from the content store against the address they
/// were requested under: their address must be the requested one (in
/// lower case). An existing address is not proof that its bytes are
/// intact.
pub fn verify_blob(hash: &str, bytes: &[u8]) -> (r: Result<(), SnapError>)
    ensures
        crate::promotion::address_of(bytes@) == ascii_lower(hash@) ==> r is Ok,
        crate::promotion::address_of(bytes@) != ascii_lower(hash@) ==> (r matches Err(SnapError::HashMismatch { expected, observed })
            && expected@ == hash@ && observed@ == crate::promotion::address_of(bytes@)),
{
    let observed = crate::canon::sha256_hex(bytes);
    let want = lower_ascii(hash);
    if str_eq(observed.as_str(), want.as_str()) {
        Ok(())
    } else {
        Err(SnapError::HashMismatch { expected: hash.to_owned(), observed })
    }
}

} // verus!
