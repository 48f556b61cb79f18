//! The trace substrate's verification logic.
//!
//! Events are signed fabric objects, chained per span (`seq` from 0,
//! `prev` linking each event to its predecessor) and stored in rows whose
//! index columns repeat signed fields. Authority never consumes a row's
//! columns directly: the signed object is verified first, and every
//! materialized column must agree with it. The operator ledger keeps every
//! retained row either as a verified event or as an explicit finding.

use vstd::prelude::*;
use crate::json::{str_eq, Json, JsonV};
use crate::capability::cat;
use crate::authority::has_prefix;
use crate::canon::{verify, verify_with_key, verifies_under, CanonError, admit_fabric_json};
use crate::promote::Tree;
use crate::json_text::{int_text, push_int};
use crate::json::string_of;

verus! {

#[verifier::external_type_specification]
#[verifier::external_body]
pub struct ExSqliteError(rusqlite::Error);

/// Why the trace refused an operation or a row.
#[derive(Debug)]
pub enum TraceError {
    Db(rusqlite::Error),
    Canon(CanonError),
    UnknownKind(String),
    ChainBroken { span: String, seq: i64, detail: String },
    MalformedEventField { id: String, field: &'static str },
    EventIndexMismatch { id: String, field: &'static str },
    LedgerIntegrity(String),
    ObjectNotFound(String),
    ObjectIdMismatch { requested: String, signed: String },
    ObjectPrefixMismatch { id: String, expected: String, actual: String },
    ObjectKindMismatch { id: String, expected: String, actual: String },
}

/// Event kinds of the substrate.
pub open spec fn spec_event_kinds() -> Seq<Seq<char>> {
    seq![
        "tool_call"@,
        "verdict"@,
        "escalation"@,
        "ratification"@,
        "promotion"@,
        "revert"@,
        "compensation"@,
        "grant"@,
        "revoke"@,
        "snapshot"@,
        "drift"@,
        "shred"@,
        "amendment"@,
        "remanifest"@,
        "register"@,
        "intent"@,
        "approval"@,
    ]
}

/// The event kinds of the substrate: the §6 kinds plus `register`,
/// `intent` and `approval`; `revoke` is the signed early closure of a
/// grant.
pub fn event_kinds() -> (r: Vec<&'static str>)
    ensures
        r@.map_values(|s: &str| s@) == spec_event_kinds(),
{
    let v = vec![
        "tool_call",
        "verdict",
        "escalation",
        "ratification",
        "promotion",
        "revert",
        "compensation",
        "grant",
        "revoke",
        "snapshot",
        "drift",
        "shred",
        "amendment",
        "remanifest",
        "register",
        "intent",
        "approval",
    ];
    assert(v@.map_values(|s: &str| s@) =~= spec_event_kinds());
    v
}

/// Whether `kind` is an event kind of the substrate.
pub fn is_event_kind(kind: &str) -> (r: bool)
    ensures
        r == spec_event_kinds().contains(kind@),
{
    let kinds = event_kinds();
    let ghost m = kinds@.map_values(|s: &str| s@);
    let mut i: usize = 0;
    while i < kinds.len()
        invariant
            i <= kinds.len(),
            m == kinds@.map_values(|s: &str| s@),
            m == spec_event_kinds(),
            forall|j: int| 0 <= j < i ==> m[j] != kind@,
        decreases kinds.len() - i,
    {
        if str_eq(kinds[i], kind) {
            assert(m[i as int] == kind@);
            return true;
        }
        i += 1;
    }
    false
}

/// The unsigned object of an event, fields in key order.
pub open spec fn event_fields(
    span: Seq<char>,
    seq: int,
    prev: Option<Seq<char>>,
    manifest: Option<Seq<char>>,
    at: Seq<char>,
    kind: Seq<char>,
    body: JsonV,
) -> Seq<(Seq<char>, JsonV)> {
    seq![
        ("at"@, JsonV::Str(at)),
        ("body"@, body),
        ("kind"@, JsonV::Str(kind)),
        ("manifest"@, match manifest {
            Some(m) => JsonV::Str(m),
            None => JsonV::Null,
        }),
        ("prev"@, match prev {
            Some(p) => JsonV::Str(p),
            None => JsonV::Null,
        }),
        ("seq"@, JsonV::Int(seq)),
        ("span"@, JsonV::Str(span)),
    ]
}

/// An event ready to store: its chain position, its id and its sealed
/// object.
#[derive(Debug)]
pub struct PreparedEvent {
    pub seq: i64,
    pub prev: Option<String>,
    pub id: String,
    pub sealed: Vec<(String, Json)>,
}

/// Prepare the next event of a span whose tip is `tip` (its id and seq):
/// the first event of a span has seq 0 and no `prev`; each later one
/// follows its tip. The object is sealed with `sk` under the `evt` prefix.
/// An unknown kind is refused.
pub fn prepare_event(
    sk: &[u8; 32],
    span: &str,
    manifest: Option<&str>,
    kind: &str,
    body: Json,
    at: &str,
    tip: Option<(String, i64)>,
) -> (r: Result<PreparedEvent, TraceError>)
    requires
        tip matches Some((_, s)) ==> s < i64::MAX,
    ensures
        !spec_event_kinds().contains(kind@) ==> (r matches Err(TraceError::UnknownKind(k)) && k@ == kind@),
        spec_event_kinds().contains(kind@) ==> {
            let seq: int = match tip {
                Some((_, s)) => s + 1,
                None => 0,
            };
            let prev = match tip {
                Some((id, _)) => Some(id@),
                None => None,
            };
            let obj = crate::canon::hash_body(event_fields(span@, seq, prev, match manifest {
                Some(m) => Some(m@),
                None => None,
            }, at@, kind@, body@));
            match crate::promotion::jcs_of(JsonV::Object(obj)) {
                Some(b) => r matches Ok(p) && p.seq == seq && opt_chars(p.prev) == prev
                    && p.id@ == crate::canon::id_text("evt"@, b) && crate::canon::sealed_as(obj, p.id@, sk@, crate::json::fields_view(p.sealed@)),
                None => r matches Err(TraceError::Canon(_)),
            }
        },
{
    if !is_event_kind(kind) {
        return Err(TraceError::UnknownKind(kind.to_owned()));
    }
    let (seq, prev) = match tip {
        Some((id, s)) => (s + 1, Some(id)),
        None => (0i64, None),
    };
    let ghost pv = opt_chars(prev);
    let mj = match manifest {
        Some(m) => Json::from_str(m),
        None => Json::Null,
    };
    let pj = match &prev {
        Some(p) => Json::from_str(p.as_str()),
        None => Json::Null,
    };
    let ghost bv = body@;
    let mut f: Vec<(String, Json)> = Vec::new();
    f.push(("at".to_owned(), Json::from_str(at)));
    f.push(("body".to_owned(), body));
    f.push(("kind".to_owned(), Json::from_str(kind)));
    f.push(("manifest".to_owned(), mj));
    f.push(("prev".to_owned(), pj));
    f.push(("seq".to_owned(), Json::from_i64(seq)));
    f.push(("span".to_owned(), Json::from_str(span)));
    proof {
        crate::json::lemma_fields_view_len(f@);
        assert(crate::json::fields_view(f@) =~= event_fields(span@, seq as int, pv, match manifest {
            Some(m) => Some(m@),
            None => None,
        }, at@, kind@, bv));
    }
    let id = match crate::canon::compute_id("evt", &f) {
        Ok(id) => id,
        Err(e) => return Err(TraceError::Canon(e)),
    };
    let sealed = match crate::canon::seal("evt", f, sk) {
        Ok(x) => x,
        Err(e) => return Err(TraceError::Canon(e)),
    };
    Ok(PreparedEvent { seq, prev, id, sealed })
}

/// The result of appending an event.
#[derive(Debug)]
pub struct Appended {
    pub id: String,
    pub offset: i64,
    pub span: String,
    pub seq: i64,
}

/// A decoded event row: its index columns and its signed raw object.
#[derive(Debug)]
pub struct EventRow {
    pub offset: i64,
    pub id: String,
    pub span: String,
    pub seq: i64,
    pub prev: Option<String>,
    pub manifest: Option<String>,
    pub at: String,
    pub kind: String,
    pub raw: Json,
}

/// An event whose signed raw object has been verified and whose every
/// index column agrees with that object. `offset` remains storage
/// metadata; every other field is the signed one.
#[derive(Debug)]
pub struct VerifiedEvent {
    pub offset: i64,
    pub id: String,
    pub span: String,
    pub seq: i64,
    pub prev: Option<String>,
    pub manifest: Option<String>,
    pub at: String,
    pub kind: String,
    pub raw: Json,
}

/// The fields of an event row or a verified event.
pub struct EventV {
    pub offset: int,
    pub id: Seq<char>,
    pub span: Seq<char>,
    pub seq: int,
    pub prev: Option<Seq<char>>,
    pub manifest: Option<Seq<char>>,
    pub at: Seq<char>,
    pub kind: Seq<char>,
    pub raw: JsonV,
}

pub open spec fn opt_chars(o: Option<String>) -> Option<Seq<char>> {
    match o {
        Some(s) => Some(s@),
        None => None,
    }
}

impl EventRow {
    pub open spec fn view(&self) -> EventV {
        EventV {
            offset: self.offset as int,
            id: self.id@,
            span: self.span@,
            seq: self.seq as int,
            prev: opt_chars(self.prev),
            manifest: opt_chars(self.manifest),
            at: self.at@,
            kind: self.kind@,
            raw: self.raw@,
        }
    }
}

impl VerifiedEvent {
    pub open spec fn view(&self) -> EventV {
        EventV {
            offset: self.offset as int,
            id: self.id@,
            span: self.span@,
            seq: self.seq as int,
            prev: opt_chars(self.prev),
            manifest: opt_chars(self.manifest),
            at: self.at@,
            kind: self.kind@,
            raw: self.raw@,
        }
    }
}

pub open spec fn events_view(s: Seq<VerifiedEvent>) -> Seq<EventV> {
    s.map_values(|e: VerifiedEvent| e.view())
}

/// The fields of each stored row, in order.
pub open spec fn rows_view(s: Seq<EventRow>) -> Seq<EventV> {
    s.map_values(|e: EventRow| e.view())
}

// ---------------------------------------------------------------------
// Row selectors against the signed object
// ---------------------------------------------------------------------

/// How a row fails its selector check.
pub enum RowFault {
    /// A signed field is absent or of the wrong type.
    Malformed(Seq<char>, Seq<char>),
    /// An index column disagrees with the signed field.
    Mismatch(Seq<char>, Seq<char>),
}

/// A signed optional string: `null` reads as absent; anything else that is
/// not a string is malformed.
pub open spec fn signed_opt(raw: JsonV, field: Seq<char>) -> Option<Option<Seq<char>>> {
    match raw.get(field) {
        Some(JsonV::Null) => Some(None),
        Some(JsonV::Str(s)) => Some(Some(s)),
        _ => None,
    }
}

/// The selector check of a row whose raw object verified: each signed
/// field is read (in the order id, span, seq, prev, manifest, at, kind),
/// then each index column is compared with it in the same order.
pub open spec fn row_fault(row: EventV) -> Option<RowFault> {
    let raw = row.raw;
    match raw.str_at("id"@) {
        None => Some(RowFault::Malformed(row.id, "id"@)),
        Some(id) => if raw.str_at("span"@) is None {
            Some(RowFault::Malformed(id, "span"@))
        } else if raw.at("seq"@).as_i64() is None {
            Some(RowFault::Malformed(id, "seq"@))
        } else if signed_opt(raw, "prev"@) is None {
            Some(RowFault::Malformed(id, "prev"@))
        } else if signed_opt(raw, "manifest"@) is None {
            Some(RowFault::Malformed(id, "manifest"@))
        } else if raw.str_at("at"@) is None {
            Some(RowFault::Malformed(id, "at"@))
        } else if raw.str_at("kind"@) is None {
            Some(RowFault::Malformed(id, "kind"@))
        } else if row.id != id {
            Some(RowFault::Mismatch(id, "id"@))
        } else if Some(row.span) != raw.str_at("span"@) {
            Some(RowFault::Mismatch(id, "span"@))
        } else if row.seq != raw.at("seq"@).as_i64()->0 {
            Some(RowFault::Mismatch(id, "seq"@))
        } else if Some(row.prev) != signed_opt(raw, "prev"@) {
            Some(RowFault::Mismatch(id, "prev"@))
        } else if Some(row.manifest) != signed_opt(raw, "manifest"@) {
            Some(RowFault::Mismatch(id, "manifest"@))
        } else if Some(row.at) != raw.str_at("at"@) {
            Some(RowFault::Mismatch(id, "at"@))
        } else if Some(row.kind) != raw.str_at("kind"@) {
            Some(RowFault::Mismatch(id, "kind"@))
        } else {
            None
        }
    }
}

/// The outcome of the selector check, as the error it is reported with.
pub open spec fn row_check_matches(r: Result<VerifiedEvent, TraceError>, row: EventV) -> bool {
    match row_fault(row) {
        None => r matches Ok(ev) && ev.view() == row,
        Some(RowFault::Malformed(id, f)) => r matches Err(TraceError::MalformedEventField { id: i, field: g })
            && i@ == id && g@ == f,
        Some(RowFault::Mismatch(id, f)) => r matches Err(TraceError::EventIndexMismatch { id: i, field: g })
            && i@ == id && g@ == f,
    }
}

fn opt_string_eq(a: &Option<String>, b: &Option<String>) -> (r: bool)
    ensures
        r == (opt_chars(*a) == opt_chars(*b)),
{
    match (a, b) {
        (Some(x), Some(y)) => str_eq(x.as_str(), y.as_str()),
        (None, None) => true,
        _ => false,
    }
}

fn read_opt(raw: &Json, field: &str) -> (r: Option<Option<String>>)
    ensures
        match r {
            None => signed_opt(raw@, field@) is None,
            Some(o) => signed_opt(raw@, field@) == Some(opt_chars(o)),
        },
{
    match raw.get(field) {
        Some(Json::Null) => Some(None),
        Some(Json::Str(s)) => Some(Some(s.clone())),
        _ => None,
    }
}

/// Prove that every index column of a row agrees with its signed raw
/// object (which the caller has verified), and build the verified event.
pub fn check_row_selectors(row: &EventRow) -> (r: Result<VerifiedEvent, TraceError>)
    ensures
        row_check_matches(r, row.view()),
{
    let raw = &row.raw;
    let id = match raw.str_at("id") {
        Some(s) => s.to_owned(),
        None => return Err(TraceError::MalformedEventField { id: row.id.clone(), field: "id" }),
    };
    let span = match raw.str_at("span") {
        Some(s) => s.to_owned(),
        None => return Err(TraceError::MalformedEventField { id, field: "span" }),
    };
    let seq = match raw.get("seq") {
        Some(v) => match v.as_i64() {
            Some(n) => n,
            None => return Err(TraceError::MalformedEventField { id, field: "seq" }),
        },
        None => return Err(TraceError::MalformedEventField { id, field: "seq" }),
    };
    let prev = match read_opt(raw, "prev") {
        Some(p) => p,
        None => return Err(TraceError::MalformedEventField { id, field: "prev" }),
    };
    let manifest = match read_opt(raw, "manifest") {
        Some(m) => m,
        None => return Err(TraceError::MalformedEventField { id, field: "manifest" }),
    };
    let at = match raw.str_at("at") {
        Some(s) => s.to_owned(),
        None => return Err(TraceError::MalformedEventField { id, field: "at" }),
    };
    let kind = match raw.str_at("kind") {
        Some(s) => s.to_owned(),
        None => return Err(TraceError::MalformedEventField { id, field: "kind" }),
    };
    if !str_eq(row.id.as_str(), id.as_str()) {
        return Err(TraceError::EventIndexMismatch { id, field: "id" });
    }
    if !str_eq(row.span.as_str(), span.as_str()) {
        return Err(TraceError::EventIndexMismatch { id, field: "span" });
    }
    if row.seq != seq {
        return Err(TraceError::EventIndexMismatch { id, field: "seq" });
    }
    if !opt_string_eq(&row.prev, &prev) {
        return Err(TraceError::EventIndexMismatch { id, field: "prev" });
    }
    if !opt_string_eq(&row.manifest, &manifest) {
        return Err(TraceError::EventIndexMismatch { id, field: "manifest" });
    }
    if !str_eq(row.at.as_str(), at.as_str()) {
        return Err(TraceError::EventIndexMismatch { id, field: "at" });
    }
    if !str_eq(row.kind.as_str(), kind.as_str()) {
        return Err(TraceError::EventIndexMismatch { id, field: "kind" });
    }
    Ok(VerifiedEvent { offset: row.offset, id, span, seq, prev, manifest, at, kind, raw: raw.deep_clone() })
}

/// Verify the signed raw object of a row under the key `pk`, then prove that every
/// index column agrees with it. A row that fails signature or id
/// verification is reported as a `Canon` error; otherwise the outcome is
/// the selector check's.
pub fn verified_event_from_row(row: &EventRow, pk: &[u8; 32]) -> (r: Result<VerifiedEvent, TraceError>)
    ensures
        r matches Err(TraceError::Canon(_)) || row_check_matches(r, row.view()),
        row_verdict(r, row.view(), pk@),
{
    event_from_row_key(row, pk.as_slice())
}

/// What reading a row under the public key `pk` gives: a `Canon` error when
/// its raw object does not verify, else the selector check's outcome.
pub open spec fn row_verdict(r: Result<VerifiedEvent, TraceError>, row: EventV, pk: Seq<u8>) -> bool {
    if verifies_under(row.raw, pk) {
        row_check_matches(r, row)
    } else {
        r matches Err(TraceError::Canon(_))
    }
}

/// A row read under a public key given by its bytes.
fn event_from_row_key(row: &EventRow, pk: &[u8]) -> (r: Result<VerifiedEvent, TraceError>)
    requires
        pk@.len() == 32,
    ensures
        row_verdict(r, row.view(), pk@),
        r matches Err(TraceError::Canon(_)) || row_check_matches(r, row.view()),
{
    match verify_with_key(&row.raw, pk) {
        Err(e) => Err(TraceError::Canon(e)),
        Ok(()) => check_row_selectors(row),
    }
}


// ---------------------------------------------------------------------
// Per-span chains
// ---------------------------------------------------------------------

/// The events of a span form a chain: their seqs are distinct and lie in
/// `0..n`, the event at seq 0 has no `prev`, and every other event's `prev`
/// is the id of the event one seq before it.
pub open spec fn chain_ok(evs: Seq<EventV>) -> bool {
    &&& forall|i: int| 0 <= i < evs.len() ==> 0 <= #[trigger] evs[i].seq < evs.len()
    &&& forall|i: int, j: int| 0 <= i < j < evs.len() ==> #[trigger] evs[i].seq != #[trigger] evs[j].seq
    &&& forall|i: int| 0 <= i < evs.len() && #[trigger] evs[i].seq == 0 ==> evs[i].prev is None
    &&& forall|i: int, j: int| 0 <= i < evs.len() && 0 <= j < evs.len() && #[trigger] evs[j].seq == #[trigger] evs[i].seq + 1
        ==> evs[j].prev == Some(evs[i].id)
}

/// `order` lists the positions of `ev` sorted by seq, and `pos_of` is its
/// inverse: each event sits at exactly one place in the order.
#[verifier::opaque]
pub open spec fn stable_seq_order(ev: Seq<EventV>, order: Seq<usize>, pos_of: Seq<int>) -> bool {
    &&& order.len() == ev.len()
    &&& pos_of.len() == ev.len()
    &&& forall|a: int| 0 <= a < order.len() ==> (#[trigger] order[a]) < ev.len() && pos_of[order[a] as int] == a
    &&& forall|m: int| 0 <= m < ev.len() ==> 0 <= #[trigger] pos_of[m] < ev.len() && order[pos_of[m]] == m
    &&& forall|a: int, b: int| 0 <= a < b < order.len() ==> ev[#[trigger] order[a] as int].seq <= ev[#[trigger] order[b] as int].seq
}

/// Stable order of `evs` by seq, as indices.
fn order_by_seq(evs: &Vec<VerifiedEvent>) -> (r: (Vec<usize>, Ghost<Seq<int>>))
    ensures
        r.0.len() == evs.len(),
        forall|a: int| 0 <= a < r.0.len() ==> (#[trigger] r.0@[a]) < evs.len(),
        stable_seq_order(events_view(evs@), r.0@, r.1@),
{
    let mut order: Vec<usize> = Vec::new();
    let ghost mut pos_of: Seq<int> = Seq::empty();
    let mut i: usize = 0;
    while i < evs.len()
        invariant
            i <= evs.len(),
            order.len() == i,
            pos_of.len() == i,
            forall|a: int| 0 <= a < order.len() ==> (#[trigger] order@[a]) < i && pos_of[order@[a] as int] == a,
            forall|m: int| 0 <= m < i ==> 0 <= #[trigger] pos_of[m] < i && order@[pos_of[m]] == m,
            forall|a: int, b: int| 0 <= a < b < order.len() ==> evs@[#[trigger] order@[a] as int].seq <= evs@[#[trigger] order@[b] as int].seq,
        decreases evs.len() - i,
    {
        let key = evs[i].seq;
        let mut pos: usize = 0;
        while pos < order.len() && evs[order[pos]].seq <= key
            invariant
                pos <= order.len(),
                order.len() == i,
                i < evs.len(),
                forall|a: int| 0 <= a < order.len() ==> (#[trigger] order@[a]) < i,
                forall|a: int| 0 <= a < pos ==> evs@[#[trigger] order@[a] as int].seq <= key,
            decreases order.len() - pos,
        {
            pos += 1;
        }
        let ghost old_order = order@;
        let ghost old_pos = pos_of;
        order.insert(pos, i);
        proof {
            pos_of = Seq::new((i + 1) as nat, |m: int| if m == i {
                pos as int
            } else if old_pos[m] >= pos {
                old_pos[m] + 1
            } else {
                old_pos[m]
            });
            assert(order@ =~= old_order.insert(pos as int, i));
            assert forall|a: int| 0 <= a < order.len() implies (#[trigger] order@[a]) < i + 1 && pos_of[order@[a] as int] == a by {
                if a < pos {
                    assert(order@[a] == old_order[a]);
                } else if a > pos {
                    assert(order@[a] == old_order[a - 1]);
                }
            }
            assert forall|m: int| 0 <= m < i + 1 implies 0 <= #[trigger] pos_of[m] < i + 1 && order@[pos_of[m]] == m by {
                if m < i {
                    if old_pos[m] >= pos {
                        assert(order@[old_pos[m] + 1] == old_order[old_pos[m]]);
                    } else {
                        assert(order@[old_pos[m]] == old_order[old_pos[m]]);
                    }
                }
            }
            assert forall|a: int, b: int| 0 <= a < b < order.len() implies evs@[#[trigger] order@[a] as int].seq <= evs@[#[trigger] order@[b] as int].seq by {
                if b < pos {
                    assert(order@[a] == old_order[a] && order@[b] == old_order[b]);
                } else if b == pos {
                    assert(order@[a] == old_order[a]);
                } else if a < pos {
                    assert(order@[a] == old_order[a] && order@[b] == old_order[b - 1]);
                } else if a == pos {
                    assert(order@[b] == old_order[b - 1]);
                    if pos < old_order.len() {
                        assert(evs@[old_order[pos as int] as int].seq > key);
                        if b - 1 > pos {
                            assert(evs@[old_order[pos as int] as int].seq <= evs@[old_order[b - 1] as int].seq);
                        }
                    }
                } else {
                    assert(order@[a] == old_order[a - 1] && order@[b] == old_order[b - 1]);
                }
            }
        }
        i += 1;
    }
    proof {
        reveal(stable_seq_order);
        let ev = events_view(evs@);
        assert forall|a: int, b: int| 0 <= a < b < order.len() implies ev[#[trigger] order@[a] as int].seq <= ev[#[trigger] order@[b] as int].seq by {
            assert(ev[order@[a] as int] == evs@[order@[a] as int].view());
            assert(ev[order@[b] as int] == evs@[order@[b] as int].view());
        }
    }
    (order, Ghost(pos_of))
}

/// A strictly increasing run of `n` integers inside `0..n` is `0, 1, …`.
proof fn lemma_tight_run(s: Seq<int>)
    requires
        forall|i: int| 0 <= i < s.len() ==> 0 <= #[trigger] s[i] < s.len(),
        forall|i: int, j: int| 0 <= i < j < s.len() ==> #[trigger] s[i] < #[trigger] s[j],
    ensures
        forall|i: int| 0 <= i < s.len() ==> #[trigger] s[i] == i,
{
    assert forall|i: int| 0 <= i < s.len() implies #[trigger] s[i] >= i by {
        lemma_run_low(s, i);
    }
    assert forall|i: int| 0 <= i < s.len() implies #[trigger] s[i] <= i by {
        lemma_run_high(s, i);
    }
}

proof fn lemma_run_low(s: Seq<int>, i: int)
    requires
        0 <= i < s.len(),
        forall|k: int| 0 <= k < s.len() ==> 0 <= #[trigger] s[k] < s.len(),
        forall|a: int, b: int| 0 <= a < b < s.len() ==> #[trigger] s[a] < #[trigger] s[b],
    ensures
        s[i] >= i,
    decreases i,
{
    if i > 0 {
        lemma_run_low(s, i - 1);
        assert(s[i - 1] < s[i]);
    }
}

proof fn lemma_run_high(s: Seq<int>, i: int)
    requires
        0 <= i < s.len(),
        forall|k: int| 0 <= k < s.len() ==> 0 <= #[trigger] s[k] < s.len(),
        forall|a: int, b: int| 0 <= a < b < s.len() ==> #[trigger] s[a] < #[trigger] s[b],
    ensures
        s[i] <= i,
    decreases s.len() - i,
{
    if i < s.len() - 1 {
        lemma_run_high(s, i + 1);
        assert(s[i] < s[i + 1]);
    }
}

fn seq_text(n: i64) -> (r: String)
    ensures
        r@ == int_text(n as int),
{
    let mut out: Vec<char> = Vec::new();
    push_int(&mut out, n as i128);
    assert(out@ =~= int_text(n as int));
    string_of(&out)
}

/// The debug form of an optional id: `Some("…")` or `None`.
pub open spec fn debug_opt_text(o: Option<Seq<char>>) -> Seq<char> {
    match o {
        Some(s) => "Some(\""@ + s + "\")"@,
        None => "None"@,
    }
}

/// `Some("…")` or `None`, the debug form of an optional id.
fn debug_opt(o: &Option<String>) -> (r: String)
    ensures
        r@ == debug_opt_text(opt_chars(*o)),
{
    match o {
        Some(s) => cat(&cat("Some(\"", s.as_str()), "\")"),
        None => "None".to_owned(),
    }
}

pub(crate) fn copy_opt(o: &Option<String>) -> (r: Option<String>)
    ensures
        opt_chars(r) == opt_chars(*o),
{
    match o {
        Some(s) => Some(s.clone()),
        None => None,
    }
}

/// Verify a span's chain: ordered by seq (stably), the events must carry
/// seq 0, 1, … in turn, the first with no `prev` and each later one linked
/// to its predecessor's id. The first break is reported.
fn seq_detail(idx: usize, seq: i64) -> (r: String)
    ensures
        r@ == "expected seq "@ + int_text(idx as int) + ", found "@ + int_text(seq as int),
{
    let mut at: Vec<char> = Vec::new();
    push_int(&mut at, idx as i128);
    assert(at@ =~= int_text(idx as int));
    cat(&cat(&cat("expected seq ", string_of(&at).as_str()), ", found "), seq_text(seq).as_str())
}

fn prev_detail(prev: &Option<String>, expected: &Option<String>) -> (r: String)
    ensures
        r@ == "prev "@ + debug_opt_text(opt_chars(*prev)) + " != expected "@ + debug_opt_text(opt_chars(*expected)),
{
    cat(&cat(&cat("prev ", debug_opt(prev).as_str()), " != expected "), debug_opt(expected).as_str())
}

/// Verify a span's chain: ordered by seq (stably), the events must carry
/// seq 0, 1, … in turn, the first with no `prev` and each later one linked
/// to its predecessor's id. The first break is reported.
#[verifier::loop_isolation(true)]
pub fn verify_verified_chain(span: &str, events: &Vec<VerifiedEvent>) -> (r: Result<(), TraceError>)
    ensures
        r is Ok <==> chain_ok(events_view(events@)),
        r matches Err(e) ==> e matches TraceError::ChainBroken { span: s, .. } && s@ == span@,
{
    let ghost ev = events_view(events@);
    assert forall|m: int| 0 <= m < events.len() implies #[trigger] ev[m] == events@[m].view() by {}
    let (order, Ghost(pos_of)) = order_by_seq(events);
    let mut expected_prev: Option<String> = None;
    let mut idx: usize = 0;
    while idx < order.len()
        invariant
            idx <= order.len(),
            order.len() == events.len(),
            ev == events_view(events@),
            stable_seq_order(ev, order@, pos_of),
            forall|m: int| 0 <= m < events.len() ==> #[trigger] ev[m] == events@[m].view(),
            forall|a: int| 0 <= a < order.len() ==> (#[trigger] order@[a]) < events.len(),
            forall|a: int| 0 <= a < idx ==> events@[#[trigger] order@[a] as int].seq == a,
            forall|a: int| 0 < a < idx ==> opt_chars(events@[#[trigger] order@[a] as int].prev) == Some(events@[order@[a - 1] as int].id@),
            idx > 0 ==> events@[order@[0] as int].prev is None,
            idx == 0 ==> expected_prev is None,
            idx > 0 ==> opt_chars(expected_prev) == Some(events@[order@[idx - 1] as int].id@),
        decreases order.len() - idx,
    {
        let e = &events[order[idx]];
        if !(e.seq >= 0 && e.seq as u64 == idx as u64) {
            let detail = seq_detail(idx, e.seq);
            proof { lemma_chain_rejects(ev, order@, pos_of, idx as int); }
            return Err(TraceError::ChainBroken { span: span.to_owned(), seq: e.seq, detail });
        }
        if !opt_string_eq(&e.prev, &expected_prev) {
            let detail = prev_detail(&e.prev, &expected_prev);
            proof { lemma_chain_rejects(ev, order@, pos_of, idx as int); }
            return Err(TraceError::ChainBroken { span: span.to_owned(), seq: e.seq, detail });
        }
        expected_prev = Some(e.id.clone());
        idx += 1;
    }
    proof { lemma_chain_accepts(ev, order@, pos_of); }
    Ok(())
}

/// A stable seq order carrying seq 0, 1, … with linked `prev`s is a chain.
proof fn lemma_chain_accepts(ev: Seq<EventV>, order: Seq<usize>, pos_of: Seq<int>)
    requires
        stable_seq_order(ev, order, pos_of),
        forall|a: int| 0 <= a < order.len() ==> ev[#[trigger] order[a] as int].seq == a,
        forall|a: int| 0 < a < order.len() ==> ev[#[trigger] order[a] as int].prev == Some(ev[order[a - 1] as int].id),
        order.len() > 0 ==> ev[order[0] as int].prev is None,
    ensures
        chain_ok(ev),
{
    reveal(stable_seq_order);
    assert forall|i: int| 0 <= i < ev.len() implies 0 <= #[trigger] ev[i].seq < ev.len() by {
        assert(ev[order[pos_of[i]] as int].seq == pos_of[i]);
    }
    assert forall|i: int, j: int| 0 <= i < j < ev.len() implies #[trigger] ev[i].seq != #[trigger] ev[j].seq by {
        assert(ev[order[pos_of[i]] as int].seq == pos_of[i]);
        assert(ev[order[pos_of[j]] as int].seq == pos_of[j]);
    }
    assert forall|i: int| 0 <= i < ev.len() && #[trigger] ev[i].seq == 0 implies ev[i].prev is None by {
        assert(ev[order[pos_of[i]] as int].seq == pos_of[i]);
    }
    assert forall|i: int, j: int| 0 <= i < ev.len() && 0 <= j < ev.len() && #[trigger] ev[j].seq == #[trigger] ev[i].seq + 1
        implies ev[j].prev == Some(ev[i].id) by {
        assert(ev[order[pos_of[i]] as int].seq == pos_of[i]);
        assert(ev[order[pos_of[j]] as int].seq == pos_of[j]);
        assert(pos_of[j] == pos_of[i] + 1);
    }
}

/// A chain whose stable seq order breaks at position `idx` is no chain.
proof fn lemma_chain_rejects(ev: Seq<EventV>, order: Seq<usize>, pos_of: Seq<int>, idx: int)
    requires
        0 <= idx < order.len(),
        stable_seq_order(ev, order, pos_of),
        forall|a: int| 0 <= a < idx ==> ev[#[trigger] order[a] as int].seq == a,
        forall|a: int| 0 < a < idx ==> ev[#[trigger] order[a] as int].prev == Some(ev[order[a - 1] as int].id),
        idx > 0 ==> ev[order[0] as int].prev is None,
        ev[order[idx] as int].seq != idx || ev[order[idx] as int].prev != (if idx == 0 {
            None
        } else {
            Some(ev[order[idx - 1] as int].id)
        }),
    ensures
        !chain_ok(ev),
{
    reveal(stable_seq_order);
    if chain_ok(ev) {
        let s = Seq::new(ev.len(), |a: int| ev[order[a] as int].seq);
        assert forall|a: int| 0 <= a < s.len() implies 0 <= #[trigger] s[a] < s.len() by {
            assert(0 <= ev[order[a] as int].seq < ev.len());
        }
        assert forall|a: int, b: int| 0 <= a < b < s.len() implies #[trigger] s[a] < #[trigger] s[b] by {
            assert(order[a] != order[b]) by {
                if order[a] == order[b] {
                    assert(pos_of[order[a] as int] == a && pos_of[order[b] as int] == b);
                }
            }
            if order[a] < order[b] {
                assert(ev[order[a] as int].seq != ev[order[b] as int].seq);
            } else {
                assert(ev[order[b] as int].seq != ev[order[a] as int].seq);
            }
        }
        lemma_tight_run(s);
        assert(s[idx] == idx);
        if idx == 0 {
            assert(ev[order[0] as int].seq == 0);
        } else {
            assert(s[idx - 1] == idx - 1);
            assert(ev[order[idx] as int].seq == ev[order[idx - 1] as int].seq + 1);
        }
    }
}


// ---------------------------------------------------------------------
// Messages
// ---------------------------------------------------------------------

/// Trusted: the `Display` text of a `rusqlite::Error`; nothing is claimed
/// of it.
#[verifier::external_body]
pub(crate) fn sqlite_error_text(e: &rusqlite::Error) -> (r: String) {
    e.to_string()
}

impl TraceError {
    /// The error's message.
    pub fn text(&self) -> (r: String)
        ensures
            self matches TraceError::LedgerIntegrity(m) ==> r@ == "ledger integrity failure: "@ + m@,
    {
        match self {
            TraceError::Db(e) => cat("sqlite: ", sqlite_error_text(e).as_str()),
            TraceError::Canon(e) => cat("canon: ", e.text().as_str()),
            TraceError::UnknownKind(k) => cat("unknown event kind ", k.as_str()),
            TraceError::ChainBroken { span, seq, detail } => cat(
                &cat(&cat(&cat(&cat("span ", span.as_str()), " chain broken at seq "), seq_text(*seq).as_str()), ": "),
                detail.as_str(),
            ),
            TraceError::MalformedEventField { id, field } => cat(
                &cat(&cat(&cat("signed event ", id.as_str()), " has malformed `"), field),
                "`",
            ),
            TraceError::EventIndexMismatch { id, field } => cat(
                &cat(&cat(&cat("event ", id.as_str()), " index column `"), field),
                "` disagrees with the signed object (RF-16; fail closed)",
            ),
            TraceError::LedgerIntegrity(m) => cat("ledger integrity failure: ", m.as_str()),
            TraceError::ObjectNotFound(id) => cat(&cat("object ", id.as_str()), " not found"),
            TraceError::ObjectIdMismatch { requested, signed } => cat(
                &cat(&cat(&cat("object row ", requested.as_str()), " contains signed object "), signed.as_str()),
                " (RF-19; fail closed)",
            ),
            TraceError::ObjectPrefixMismatch { id, expected, actual } => cat(
                &cat(
                    &cat(&cat(&cat(&cat("object ", id.as_str()), " has prefix "), actual.as_str()), ", expected "),
                    expected.as_str(),
                ),
                " (RF-19; fail closed)",
            ),
            TraceError::ObjectKindMismatch { id, expected, actual } => cat(
                &cat(
                    &cat(&cat(&cat(&cat("object ", id.as_str()), " has stored kind "), actual.as_str()), ", expected "),
                    expected.as_str(),
                ),
                " (RF-19; fail closed)",
            ),
        }
    }
}

// ---------------------------------------------------------------------
// The operator ledger's retained-row view
// ---------------------------------------------------------------------

/// One retained-row anomaly: a location for forensic inspection (not an
/// authenticated claim) and what is wrong there.
#[derive(Debug, PartialEq, Eq)]
pub struct TraceIntegrityFinding {
    pub offset: Option<i64>,
    pub span: Option<String>,
    pub detail: String,
}

/// A finding as one line: its location (when known), then the detail.
pub open spec fn finding_text(f: TraceIntegrityFinding) -> Seq<char> {
    match (f.offset, f.span) {
        (Some(o), Some(s)) => "offset "@ + int_text(o as int) + ", span location "@ + s@ + ": "@ + f.detail@,
        (Some(o), None) => "offset "@ + int_text(o as int) + ": "@ + f.detail@,
        (None, Some(s)) => "span "@ + s@ + ": "@ + f.detail@,
        (None, None) => f.detail@,
    }
}

/// Findings joined by `; `, in order.
pub open spec fn findings_text(fs: Seq<TraceIntegrityFinding>) -> Seq<char>
    decreases fs.len(),
{
    if fs.len() == 0 {
        Seq::empty()
    } else if fs.len() == 1 {
        finding_text(fs[0])
    } else {
        findings_text(fs.drop_last()) + "; "@ + finding_text(fs.last())
    }
}

impl TraceIntegrityFinding {
    /// The finding as one line: its location (when known), then the detail.
    pub fn text(&self) -> (r: String)
        ensures
            r@ == finding_text(*self),
    {
        match (self.offset, &self.span) {
            (Some(offset), Some(span)) => cat(
                &cat(&cat(&cat(&cat("offset ", seq_text(offset).as_str()), ", span location "), span.as_str()), ": "),
                self.detail.as_str(),
            ),
            (Some(offset), None) => cat(&cat(&cat("offset ", seq_text(offset).as_str()), ": "), self.detail.as_str()),
            (None, Some(span)) => cat(&cat(&cat("span ", span.as_str()), ": "), self.detail.as_str()),
            (None, None) => self.detail.clone(),
        }
    }
}

/// The exact raw text observed for one retained row.
#[derive(Debug)]
pub struct LedgerStoredRecord {
    pub offset: i64,
    pub raw: String,
}

/// The operator-facing retained-row view. `events` holds individually
/// verified records for display; callers must call
/// [`LedgerEventView::w19_require_clean`] before using them for accounting.
#[derive(Debug)]
pub struct LedgerEventView {
    pub events: Vec<VerifiedEvent>,
    pub findings: Vec<TraceIntegrityFinding>,
    pub records: Vec<LedgerStoredRecord>,
}

fn join_findings(fs: &Vec<TraceIntegrityFinding>) -> (r: String)
    ensures
        r@ == findings_text(fs@),
{
    let mut out = String::new();
    let mut i: usize = 0;
    while i < fs.len()
        invariant
            i <= fs.len(),
            out@ == findings_text(fs@.take(i as int)),
        decreases fs.len() - i,
    {
        if i > 0 {
            out = cat(out.as_str(), "; ");
        }
        out = cat(out.as_str(), fs[i].text().as_str());
        assert(fs@.take(i + 1).drop_last() =~= fs@.take(i as int));
        proof {
            if i == 0 {
                assert(out@ =~= findings_text(fs@.take(1)));
            }
        }
        i += 1;
    }
    assert(fs@.take(i as int) =~= fs@);
    out
}

impl LedgerEventView {
    /// No diagnostic accounting or drift-attribution write may proceed while
    /// any retained-row doubt exists: clean exactly when there are no
    /// findings; otherwise the findings, joined, are the error.
    pub fn w19_require_clean(&self) -> (r: Result<(), TraceError>)
        ensures
            r is Ok <==> self.findings@.len() == 0,
            r matches Err(e) ==> e is LedgerIntegrity,
    {
        if self.findings.len() == 0 {
            return Ok(());
        }
        Err(TraceError::LedgerIntegrity(join_findings(&self.findings)))
    }
}

/// A retained event row exactly as stored: index columns and raw text.
#[derive(Debug)]
pub struct StoredEventRow {
    pub offset: i64,
    pub id: String,
    pub span: String,
    pub seq: i64,
    pub prev: Option<String>,
    pub manifest: Option<String>,
    pub at: String,
    pub kind: String,
    pub raw: String,
}

/// A span no event carries has no events.
proof fn lemma_span_events_absent(evs: Seq<EventV>, span: Seq<char>)
    requires
        forall|k: int| 0 <= k < evs.len() ==> (#[trigger] evs[k]).span != span,
    ensures
        span_events(evs, span).len() == 0,
    decreases evs.len(),
{
    if evs.len() > 0 {
        assert(evs.last().span != span);
        assert forall|k: int| 0 <= k < evs.drop_last().len() implies (#[trigger] evs.drop_last()[k]).span != span by {
            assert(evs.drop_last()[k] == evs[k]);
        }
        lemma_span_events_absent(evs.drop_last(), span);
    }
}

/// The events of `evs` on `span`, in order.
pub open spec fn span_events(evs: Seq<EventV>, span: Seq<char>) -> Seq<EventV>
    decreases evs.len(),
{
    if evs.len() == 0 {
        Seq::empty()
    } else if evs.last().span == span {
        span_events(evs.drop_last(), span).push(evs.last())
    } else {
        span_events(evs.drop_last(), span)
    }
}

pub(crate) fn copy_event(e: &VerifiedEvent) -> (r: VerifiedEvent)
    ensures
        r.view() == e.view(),
{
    VerifiedEvent {
        offset: e.offset,
        id: e.id.clone(),
        span: e.span.clone(),
        seq: e.seq,
        prev: copy_opt(&e.prev),
        manifest: copy_opt(&e.manifest),
        at: e.at.clone(),
        kind: e.kind.clone(),
        raw: e.raw.deep_clone(),
    }
}

/// The events on one span, in order.
fn events_on(events: &Vec<VerifiedEvent>, span: &str) -> (r: Vec<VerifiedEvent>)
    ensures
        events_view(r@) == span_events(events_view(events@), span@),
{
    let ghost ev = events_view(events@);
    let mut out: Vec<VerifiedEvent> = Vec::new();
    let mut i: usize = 0;
    assert(ev.take(0) =~= Seq::<EventV>::empty());
    while i < events.len()
        invariant
            i <= events.len(),
            ev == events_view(events@),
            events_view(out@) == span_events(ev.take(i as int), span@),
        decreases events.len() - i,
    {
        assert(ev.take(i + 1).drop_last() =~= ev.take(i as int));
        assert(ev.take(i + 1).last() == events@[i as int].view());
        let ghost before = out@;
        if str_eq(events[i].span.as_str(), span) {
            out.push(copy_event(&events[i]));
            assert(events_view(out@) =~= events_view(before).push(events@[i as int].view()));
        }
        i += 1;
    }
    assert(ev.take(i as int) =~= ev);
    out
}

/// The distinct spans of `events`, in span order.
fn spans_of(events: &Vec<VerifiedEvent>) -> (r: Tree)
    ensures
        r.wf(),
        forall|q: Seq<char>| #[trigger] r.at(q) is Some <==> exists|i: int| 0 <= i < events.len() && events@[i].span@ == q,
{
    let mut t = Tree::new();
    let mut i: usize = 0;
    while i < events.len()
        invariant
            i <= events.len(),
            t.wf(),
            forall|q: Seq<char>| #[trigger] t.at(q) is Some <==> exists|k: int| 0 <= k < i && events@[k].span@ == q,
        decreases events.len() - i,
    {
        t.insert(events[i].span.clone(), String::new());
        proof {
            assert forall|q: Seq<char>| #[trigger] t.at(q) is Some <==> exists|k: int| 0 <= k < i + 1 && events@[k].span@ == q by {
                if q == events@[i as int].span@ {
                    assert(events@[i as int].span@ == q);
                }
            }
        }
        i += 1;
    }
    t
}

/// The offset of the first event with `seq`, else of the first event.
fn chain_break_offset(evs: &Vec<VerifiedEvent>, seq: i64) -> (r: Option<i64>)
    ensures
        (exists|i: int| 0 <= i < evs@.len() && #[trigger] evs@[i].seq == seq) ==> (r matches Some(o) && exists|i: int|
            0 <= i < evs@.len() && #[trigger] evs@[i].seq == seq && evs@[i].offset == o
            && forall|j: int| 0 <= j < i ==> (#[trigger] evs@[j]).seq != seq),
        !(exists|i: int| 0 <= i < evs@.len() && #[trigger] evs@[i].seq == seq) ==> r == (if evs@.len() > 0 {
            Some(evs@[0].offset)
        } else {
            None
        }),
{
    let mut i: usize = 0;
    while i < evs.len()
        invariant
            i <= evs.len(),
            forall|j: int| 0 <= j < i ==> (#[trigger] evs@[j]).seq != seq,
        decreases evs.len() - i,
    {
        if evs[i].seq == seq {
            return Some(evs[i].offset);
        }
        i += 1;
    }
    if evs.len() > 0 {
        Some(evs[0].offset)
    } else {
        None
    }
}

/// Signed per-span seqs follow storage order: consecutive events differ by
/// exactly one.
pub open spec fn seq_follows_storage(evs: Seq<EventV>) -> bool {
    forall|k: int| 0 <= k < evs.len() - 1 ==> #[trigger] evs[k + 1].seq == evs[k].seq + 1
}

/// The first adjacent pair breaking storage order, if any.
fn first_inversion(evs: &Vec<VerifiedEvent>) -> (r: Option<usize>)
    ensures
        r is None <==> seq_follows_storage(events_view(evs@)),
        r matches Some(k) ==> k + 1 < evs.len(),
{
    let ghost ev = events_view(evs@);
    let mut k: usize = 0;
    while k < evs.len() && evs.len() - k > 1
        invariant
            ev == events_view(evs@),
            ev.len() == evs.len(),
            forall|m: int| 0 <= m < k && m + 1 < ev.len() ==> #[trigger] ev[m + 1].seq == ev[m].seq + 1,
        decreases evs.len() - k,
    {
        assert(ev[k as int] == evs@[k as int].view() && ev[k + 1] == evs@[k + 1].view());
        let ok = match evs[k].seq.checked_add(1) {
            Some(n) => n == evs[k + 1].seq,
            None => false,
        };
        if !ok {
            assert(ev[k + 1].seq != ev[k as int].seq + 1);
            return Some(k);
        }
        k += 1;
    }
    None
}

/// What the ledger view found on one span: a storage-order inversion and a
/// chain break each become a finding.
fn span_findings(span: &str, evs: &Vec<VerifiedEvent>, findings: &mut Vec<TraceIntegrityFinding>)
    ensures
        final(findings)@.len() == old(findings)@.len() <==> span_clean(events_view(evs@)),
        final(findings)@.len() >= old(findings)@.len(),
        final(findings)@.take(old(findings)@.len() as int) == old(findings)@,
{
    let ghost f0 = findings@;
    match first_inversion(evs) {
        Some(k) => {
            let detail = cat(
                &cat(
                    &cat("unsigned offset order contradicts signed per-span sequence: seq ", seq_text(evs[k].seq).as_str()),
                    " precedes seq ",
                ),
                seq_text(evs[k + 1].seq).as_str(),
            );
            findings.push(TraceIntegrityFinding { offset: Some(evs[k + 1].offset), span: Some(span.to_owned()), detail });
        },
        None => {},
    }
    let ghost f1 = findings@;
    assert(f1.take(f0.len() as int) =~= f0);
    match verify_verified_chain(span, evs) {
        Ok(()) => {},
        Err(e) => {
            let seq = match &e {
                TraceError::ChainBroken { seq, .. } => *seq,
                _ => 0,
            };
            let offset = chain_break_offset(evs, seq);
            let detail = cat("per-span chain verification failed: ", e.text().as_str());
            findings.push(TraceIntegrityFinding { offset, span: Some(span.to_owned()), detail });
            assert(findings@.take(f0.len() as int) =~= f0);
        },
    }
}

/// A span's verified events follow storage order and form a chain.
pub open spec fn span_clean(evs: Seq<EventV>) -> bool {
    seq_follows_storage(evs) && chain_ok(evs)
}

/// The event row a stored row reads as, once its raw text is admitted.
fn row_of(stored: &StoredEventRow, raw: Json) -> (r: EventRow)
    ensures
        r.offset == stored.offset && r.id@ == stored.id@ && r.span@ == stored.span@ && r.seq == stored.seq
            && opt_chars(r.prev) == opt_chars(stored.prev) && opt_chars(r.manifest) == opt_chars(stored.manifest)
            && r.at@ == stored.at@ && r.kind@ == stored.kind@ && r.raw@ == raw@,
{
    EventRow {
        offset: stored.offset,
        id: stored.id.clone(),
        span: stored.span.clone(),
        seq: stored.seq,
        prev: copy_opt(&stored.prev),
        manifest: copy_opt(&stored.manifest),
        at: stored.at.clone(),
        kind: stored.kind.clone(),
        raw,
    }
}

/// The records of stored rows: offset and raw text.
pub open spec fn records_match(records: Seq<LedgerStoredRecord>, rows: Seq<StoredEventRow>) -> bool {
    &&& records.len() == rows.len()
    &&& forall|i: int| 0 <= i < rows.len() ==> (#[trigger] records[i]).offset == rows[i].offset && records[i].raw@ == rows[i].raw@
}

/// The event a stored row reads as once its raw text is admitted as `v`.
pub open spec fn stored_event_view(s: StoredEventRow, v: JsonV) -> EventV {
    EventV {
        offset: s.offset as int,
        id: s.id@,
        span: s.span@,
        seq: s.seq as int,
        prev: opt_chars(s.prev),
        manifest: opt_chars(s.manifest),
        at: s.at@,
        kind: s.kind@,
        raw: v,
    }
}

/// The verified event a stored row gives under `pk`: its raw text is
/// admitted, verifies under `pk`, and every index column agrees with it.
pub open spec fn row_event(s: StoredEventRow, parsed: Result<Json, String>, pk: Seq<u8>) -> Option<EventV> {
    match admitted(s.raw@, parsed) {
        None => None,
        Some(v) => if verifies_under(v, pk) && row_fault(stored_event_view(s, v)) is None {
            Some(stored_event_view(s, v))
        } else {
            None
        },
    }
}

/// A row is clean: it gives a verified event of a known kind whose body is
/// an object.
pub open spec fn row_clean(s: StoredEventRow, parsed: Result<Json, String>, pk: Seq<u8>) -> bool {
    match row_event(s, parsed, pk) {
        Some(e) => spec_event_kinds().contains(e.kind) && e.raw.get("body"@) matches Some(JsonV::Object(_)),
        None => false,
    }
}

/// The verified events of the first `n` rows, in storage order.
pub open spec fn ledger_events(rows: Seq<StoredEventRow>, parsed: Seq<Result<Json, String>>, pk: Seq<u8>, n: int) -> Seq<EventV>
    decreases n,
{
    if n <= 0 {
        Seq::empty()
    } else {
        match row_event(rows[n - 1], parsed[n - 1], pk) {
            Some(e) => ledger_events(rows, parsed, pk, n - 1).push(e),
            None => ledger_events(rows, parsed, pk, n - 1),
        }
    }
}

/// A finding located at a stored row: its offset and its span.
pub open spec fn located_at(f: TraceIntegrityFinding, s: StoredEventRow) -> bool {
    f.offset == Some(s.offset) && opt_chars(f.span) == Some(s.span@)
}

/// How many findings a stored row gives on its own: one when its raw text
/// is not admitted or its event does not verify; otherwise one for a kind
/// outside the vocabulary and one for a body that is not an object.
pub open spec fn row_finding_count(s: StoredEventRow, parsed: Result<Json, String>, pk: Seq<u8>) -> nat {
    match row_event(s, parsed, pk) {
        None => 1,
        Some(e) => (if spec_event_kinds().contains(e.kind) { 0nat } else { 1nat }) + (if e.raw.get("body"@) matches Some(
            JsonV::Object(_),
        ) {
            0nat
        } else {
            1nat
        }),
    }
}

/// The findings the first `n` rows give on their own, counted.
pub open spec fn findings_before(rows: Seq<StoredEventRow>, parsed: Seq<Result<Json, String>>, pk: Seq<u8>, n: int) -> nat
    decreases n,
{
    if n <= 0 {
        0
    } else {
        findings_before(rows, parsed, pk, n - 1) + row_finding_count(rows[n - 1], parsed[n - 1], pk)
    }
}

/// `fs` are exactly the findings the stored row `s` gives on its own, each
/// located at the row: a malformed raw text, or a failed verification, is
/// one finding saying so; a verified event of an unknown kind is one
/// naming the kind, and a verified event whose body is not an object is
/// one saying so, in that order.
pub open spec fn row_findings_ok(fs: Seq<TraceIntegrityFinding>, s: StoredEventRow, parsed: Result<Json, String>, pk: Seq<u8>) -> bool {
    &&& fs.len() == row_finding_count(s, parsed, pk)
    &&& forall|m: int| 0 <= m < fs.len() ==> located_at(#[trigger] fs[m], s)
    &&& match admitted(s.raw@, parsed) {
        None => has_prefix(fs[0].detail@, "raw fabric JSON is malformed: "@),
        Some(_) => match row_event(s, parsed, pk) {
            None => has_prefix(fs[0].detail@, "event verification failed: "@),
            Some(e) => {
                &&& !spec_event_kinds().contains(e.kind) ==> fs[0].detail@ == "signed event has unknown kind `"@ + e.kind + "`"@
                &&& !(e.raw.get("body"@) matches Some(JsonV::Object(_))) ==> fs[fs.len() - 1].detail@
                    == "signed event body is not an object"@
            },
        },
    }
}

/// A text starts with what was put in front of it.
proof fn lemma_prefix_of_cat(p: Seq<char>, t: Seq<char>)
    ensures
        has_prefix(p + t, p),
{
    assert((p + t).subrange(0, p.len() as int) =~= p);
}

/// Counting findings row by row never goes back.
proof fn lemma_findings_before_mono(rows: Seq<StoredEventRow>, parsed: Seq<Result<Json, String>>, pk: Seq<u8>, a: int, b: int)
    requires
        0 <= a <= b,
    ensures
        findings_before(rows, parsed, pk, a) <= findings_before(rows, parsed, pk, b),
    decreases b,
{
    if a < b {
        lemma_findings_before_mono(rows, parsed, pk, a, b - 1);
    }
}

/// The operator ledger's view of retained rows, given each row's raw text
/// parse (objects in document order, every name kept, or the parser's
/// complaint) and the fabric key's 32 public-key bytes. A row whose raw
/// text is admitted, verifies under the key and agrees with every index
/// column is an event, in storage order; any other row, and a verified row
/// of unknown kind or with a non-object body, gives a finding at its
/// offset; then per span (in span order) a storage-order inversion and a
/// chain break each give a finding. There are no findings exactly when
/// every row is clean and every span's events follow storage order and
/// form a chain.
#[verifier::loop_isolation(true)]
#[verifier::spinoff_prover]
#[verifier::rlimit(80)]
pub fn w19_ledger_event_view_from_rows(
    rows: &Vec<StoredEventRow>,
    parsed: Vec<Result<Json, String>>,
    pk: &[u8; 32],
) -> (r: LedgerEventView)
    requires
        parsed.len() == rows.len(),
    ensures
        records_match(r.records@, rows@),
        events_view(r.events@) == ledger_events(rows@, parsed@, pk@, rows@.len() as int),
        findings_before(rows@, parsed@, pk@, rows@.len() as int) <= r.findings@.len(),
        forall|i: int| 0 <= i < rows@.len() ==> row_findings_ok(
            r.findings@.subrange(findings_before(rows@, parsed@, pk@, i) as int, findings_before(rows@, parsed@, pk@, i + 1) as int),
            #[trigger] rows@[i],
            parsed@[i],
            pk@,
        ),
        forall|i: int| 0 <= i < rows@.len() && !row_clean(#[trigger] rows@[i], parsed@[i], pk@) ==> exists|m: int|
            0 <= m < r.findings@.len() && (#[trigger] r.findings@[m]).offset == Some(rows@[i].offset),
        r.findings@.len() == 0 <==> {
            &&& forall|i: int| 0 <= i < rows@.len() ==> row_clean(#[trigger] rows@[i], parsed@[i], pk@)
            &&& forall|s: Seq<char>| span_clean(#[trigger] span_events(ledger_events(rows@, parsed@, pk@, rows@.len() as int), s))
        },
{
    let ghost pkv = pk@;
    let mut records: Vec<LedgerStoredRecord> = Vec::new();
    let mut events: Vec<VerifiedEvent> = Vec::new();
    let mut findings: Vec<TraceIntegrityFinding> = Vec::new();
    let mut i: usize = 0;
    assert(rows@.take(0).len() == 0);
    while i < rows.len()
        invariant
            i <= rows.len(),
            parsed.len() == rows.len(),
            pk@ == pkv,
            records_match(records@, rows@.take(i as int)),
            events_view(events@) == ledger_events(rows@, parsed@, pkv, i as int),
            findings@.len() == 0 <==> forall|k: int| 0 <= k < i ==> row_clean(#[trigger] rows@[k], parsed@[k], pkv),
            findings@.len() == findings_before(rows@, parsed@, pkv, i as int),
            forall|k: int| 0 <= k < i ==> row_findings_ok(
                findings@.subrange(findings_before(rows@, parsed@, pkv, k) as int, findings_before(rows@, parsed@, pkv, k + 1) as int),
                #[trigger] rows@[k],
                parsed@[k],
                pkv,
            ),
            forall|k: int| 0 <= k < i && !row_clean(#[trigger] rows@[k], parsed@[k], pkv) ==> exists|m: int|
                0 <= m < findings@.len() && (#[trigger] findings@[m]).offset == Some(rows@[k].offset),
        decreases rows.len() - i,
    {
        let stored = &rows[i];
        let ghost rec0 = records@;
        let ghost fs0 = findings@;
        records.push(LedgerStoredRecord { offset: stored.offset, raw: stored.raw.clone() });
        proof {
            assert(rows@.take(i + 1) =~= rows@.take(i as int).push(rows@[i as int]));
            assert forall|k: int| 0 <= k < i + 1 implies (#[trigger] records@[k]).offset == rows@.take(i + 1)[k].offset
                && records@[k].raw@ == rows@.take(i + 1)[k].raw@ by {
                if k < i {
                    assert(records@[k] == rec0[k]);
                    assert(rows@.take(i as int)[k] == rows@.take(i + 1)[k]);
                }
            }
        }
        let doc = match &parsed[i] {
            Ok(d) => Ok(d.deep_clone()),
            Err(m) => Err(m.clone()),
        };
        proof {
            assert(admitted(stored.raw@, doc) == admitted(stored.raw@, parsed@[i as int]));
        }
        let ghost e0 = events@;
        match admit_fabric_json(stored.raw.as_str(), doc) {
            Err(e) => {
                let et = e.text();
                let detail = cat("raw fabric JSON is malformed: ", et.as_str());
                findings.push(TraceIntegrityFinding { offset: Some(stored.offset), span: Some(stored.span.clone()), detail });
                proof {
                    assert(row_event(rows@[i as int], parsed@[i as int], pkv) is None);
                    assert(!row_clean(rows@[i as int], parsed@[i as int], pkv));
                    assert(admitted(rows@[i as int].raw@, parsed@[i as int]) is None);
                    lemma_prefix_of_cat("raw fabric JSON is malformed: "@, et@);
                    let nf = findings@.subrange(fs0.len() as int, findings@.len() as int);
                    assert(nf[0] == findings@.last());
                    assert(row_findings_ok(nf, rows@[i as int], parsed@[i as int], pkv));
                }
            },
            Ok(raw) => {
                let row = row_of(stored, raw);
                assert(row.view() == stored_event_view(rows@[i as int], row.raw@));
                match verified_event_from_row(&row, pk) {
                    Ok(ev) => {
                        proof {
                            assert(row_event(rows@[i as int], parsed@[i as int], pkv) == Some(ev.view()));
                        }
                        let known = is_event_kind(ev.kind.as_str());
                        if !known {
                            let detail = cat(&cat("signed event has unknown kind `", ev.kind.as_str()), "`");
                            findings.push(TraceIntegrityFinding { offset: Some(ev.offset), span: Some(ev.span.clone()), detail });
                        }
                        let ghost fk = findings@;
                        let has_body = match ev.raw.get("body") {
                            Some(Json::Object(_)) => true,
                            _ => false,
                        };
                        if !has_body {
                            findings.push(TraceIntegrityFinding {
                                offset: Some(ev.offset),
                                span: Some(ev.span.clone()),
                                detail: "signed event body is not an object".to_owned(),
                            });
                        }
                        proof {
                            assert(row_event(rows@[i as int], parsed@[i as int], pkv) == Some(ev.view()));
                            assert(has_body == (ev.view().raw.get("body"@) matches Some(JsonV::Object(_))));
                            assert(admitted(rows@[i as int].raw@, parsed@[i as int]) is Some);
                            let nf = findings@.subrange(fs0.len() as int, findings@.len() as int);
                            assert(fk.len() == fs0.len() + (if known { 0int } else { 1int }));
                            assert forall|m: int| 0 <= m < nf.len() implies located_at(#[trigger] nf[m], rows@[i as int]) by {
                                assert(nf[m] == findings@[fs0.len() + m]);
                                if fs0.len() + m < fk.len() {
                                    assert(findings@[fs0.len() + m] == fk[fs0.len() + m]);
                                }
                            }
                            if !known {
                                assert(nf[0] == fk[fs0.len() as int]);
                            }
                            assert(row_findings_ok(nf, rows@[i as int], parsed@[i as int], pkv));
                        }
                        events.push(ev);
                        assert(events_view(events@) =~= events_view(e0).push(events@.last().view()));
                    },
                    Err(e) => {
                        let et = e.text();
                        let detail = cat("event verification failed: ", et.as_str());
                        findings.push(TraceIntegrityFinding { offset: Some(row.offset), span: Some(row.span.clone()), detail });
                        proof {
                            assert(row_event(rows@[i as int], parsed@[i as int], pkv) is None);
                            assert(admitted(rows@[i as int].raw@, parsed@[i as int]) is Some);
                            lemma_prefix_of_cat("event verification failed: "@, et@);
                            let nf = findings@.subrange(fs0.len() as int, findings@.len() as int);
                            assert(nf[0] == findings@.last());
                            assert(row_findings_ok(nf, rows@[i as int], parsed@[i as int], pkv));
                        }
                    },
                }
            },
        }
        proof {
            let fb = |n: int| findings_before(rows@, parsed@, pkv, n) as int;
            assert(findings_before(rows@, parsed@, pkv, i + 1) == findings_before(rows@, parsed@, pkv, i as int)
                + row_finding_count(rows@[i as int], parsed@[i as int], pkv));
            assert forall|k: int| 0 <= k < i + 1 implies row_findings_ok(
                findings@.subrange(fb(k), fb(k + 1)),
                #[trigger] rows@[k],
                parsed@[k],
                pkv,
            ) by {
                if k < i {
                    lemma_findings_before_mono(rows@, parsed@, pkv, k + 1, i as int);
                    lemma_findings_before_mono(rows@, parsed@, pkv, k, k + 1);
                    assert(findings@.subrange(fb(k), fb(k + 1)) =~= fs0.subrange(fb(k), fb(k + 1)));
                }
            }
            assert forall|k: int| 0 <= k < i + 1 && !row_clean(#[trigger] rows@[k], parsed@[k], pkv) implies exists|m: int|
                0 <= m < findings@.len() && (#[trigger] findings@[m]).offset == Some(rows@[k].offset) by {
                if k < i {
                    let m = choose|m: int| 0 <= m < fs0.len() && (#[trigger] fs0[m]).offset == Some(rows@[k].offset);
                    assert(findings@[m] == fs0[m]);
                } else {
                    assert(findings@[fs0.len() as int].offset == Some(rows@[k].offset));
                }
            }
            if findings@.len() == 0 {
                assert forall|k: int| 0 <= k < i + 1 implies row_clean(#[trigger] rows@[k], parsed@[k], pkv) by {}
            }
        }
        i += 1;
    }
    assert(rows@.take(i as int) =~= rows@);
    let ghost ev = events_view(events@);
    let ghost fsnap = findings@;
    let spans = spans_of(&events);
    let se = spans.entries();
    let mut j: usize = 0;
    while j < se.len()
        invariant
            j <= se.len(),
            ev == events_view(events@),
            spans.wf(),
            crate::evaluate::pairs_view(se@) == spans@,
            records_match(records@, rows@),
            findings@.len() >= fsnap.len(),
            findings@.take(fsnap.len() as int) == fsnap,
            findings@.len() == fsnap.len() <==> forall|k: int| 0 <= k < j ==> span_clean(#[trigger] span_events(ev, spans@[k].0)),
            fsnap.len() == findings_before(rows@, parsed@, pkv, rows@.len() as int),
            forall|k: int| 0 <= k < rows@.len() ==> row_findings_ok(
                fsnap.subrange(findings_before(rows@, parsed@, pkv, k) as int, findings_before(rows@, parsed@, pkv, k + 1) as int),
                #[trigger] rows@[k],
                parsed@[k],
                pkv,
            ),
            pk@ == pkv,
            parsed.len() == rows.len(),
            forall|k: int| 0 <= k < rows@.len() && !row_clean(#[trigger] rows@[k], parsed@[k], pkv) ==> exists|m: int|
                0 <= m < fsnap.len() && (#[trigger] fsnap[m]).offset == Some(rows@[k].offset),
        decreases se.len() - j,
    {
        assert(spans@[j as int].0 == se@[j as int].0@);
        let evs = events_on(&events, se[j].0.as_str());
        let ghost fj = findings@;
        span_findings(se[j].0.as_str(), &evs, &mut findings);
        proof {
            assert(findings@.take(fsnap.len() as int) =~= fj.take(fsnap.len() as int)) by {
                assert forall|m: int| 0 <= m < fsnap.len() implies findings@[m] == fj[m] by {
                    assert(findings@.take(fj.len() as int)[m] == fj[m]);
                }
            }
        }
        j += 1;
    }
    proof {
        assert forall|m: int| 0 <= m < fsnap.len() implies #[trigger] findings@[m] == fsnap[m] by {
            assert(findings@.take(fsnap.len() as int)[m] == fsnap[m]);
        }
        assert forall|k: int| 0 <= k < rows@.len() && !row_clean(#[trigger] rows@[k], parsed@[k], pk@) implies exists|m: int|
            0 <= m < findings@.len() && (#[trigger] findings@[m]).offset == Some(rows@[k].offset) by {
            let m = choose|m: int| 0 <= m < fsnap.len() && (#[trigger] fsnap[m]).offset == Some(rows@[k].offset);
            assert(findings@[m] == fsnap[m]);
            assert(findings@[m].offset == Some(rows@[k].offset));
        }
        assert forall|s: Seq<char>| spans.at(s) is None implies span_clean(#[trigger] span_events(ev, s)) by {
            assert forall|k: int| 0 <= k < ev.len() implies (#[trigger] ev[k]).span != s by {
                assert(ev[k] == events@[k].view());
            }
            lemma_span_events_absent(ev, s);
        }
        if findings@.len() == fsnap.len() {
            assert forall|s: Seq<char>| span_clean(#[trigger] span_events(ev, s)) by {
                if spans.at(s) is Some {
                    crate::promote::lemma_lookup_found(spans@, s);
                }
            }
        } else {
            let k = choose|k: int| 0 <= k < se.len() && !span_clean(#[trigger] span_events(ev, spans@[k].0));
            assert(!span_clean(span_events(ev, spans@[k].0)));
        }
    }
    proof {
        assert forall|k: int| 0 <= k < rows@.len() implies row_findings_ok(
            findings@.subrange(findings_before(rows@, parsed@, pkv, k) as int, findings_before(rows@, parsed@, pkv, k + 1) as int),
            #[trigger] rows@[k],
            parsed@[k],
            pkv,
        ) by {
            lemma_findings_before_mono(rows@, parsed@, pkv, k + 1, rows@.len() as int);
            lemma_findings_before_mono(rows@, parsed@, pkv, k, k + 1);
            assert(findings@.subrange(findings_before(rows@, parsed@, pkv, k) as int, findings_before(rows@, parsed@, pkv, k + 1) as int)
                =~= fsnap.subrange(findings_before(rows@, parsed@, pkv, k) as int, findings_before(rows@, parsed@, pkv, k + 1) as int));
        }
    }
    let ghost fv = findings@;
    let view = LedgerEventView { events, findings, records };
    assert(view.findings@ == fv);
    assert forall|k: int| 0 <= k < rows@.len() && !row_clean(#[trigger] rows@[k], parsed@[k], pk@) implies exists|m: int|
        0 <= m < view.findings@.len() && (#[trigger] view.findings@[m]).offset == Some(rows@[k].offset) by {
        let m = choose|m: int| 0 <= m < fv.len() && (#[trigger] fv[m]).offset == Some(rows@[k].offset);
        assert(view.findings@[m] == fv[m]);
    }
    view
}


// ---------------------------------------------------------------------
// Verified snapshots, span verification and typed object loading
// ---------------------------------------------------------------------

/// One statement's snapshot of verified events, and the storage head it
/// observed.
#[derive(Debug)]
pub struct VerifiedEventSnapshot {
    pub events: Vec<VerifiedEvent>,
    pub head: i64,
}

/// The head observed by a set of rows ordered by offset: the last row's
/// offset, 0 when there are none.
pub fn w11_observed_head(rows: &Vec<EventRow>) -> (r: i64)
    ensures
        r == (if rows@.len() == 0 {
            0
        } else {
            rows@.last().offset
        }),
{
    if rows.len() == 0 {
        0
    } else {
        rows[rows.len() - 1].offset
    }
}

/// The signed event view authority consumes, from one snapshot of rows:
/// rows whose raw object does not verify contribute no authority and are
/// left out; a verified row whose selectors disagree fails the whole view;
/// every span of the kept events must form a chain.
#[verifier::loop_isolation(true)]
pub fn verified_snapshot_from_rows(rows: &Vec<EventRow>, pk: &[u8; 32]) -> (r: Result<VerifiedEventSnapshot, TraceError>)
    ensures
        r matches Ok(snap) ==> {
            &&& snap.head == (if rows@.len() == 0 {
                0
            } else {
                rows@.last().offset
            })
            &&& forall|k: int| 0 <= k < snap.events@.len() ==> exists|i: int| 0 <= i < rows@.len() && (#[trigger] snap.events@[k]).view() == rows@[i].view()
            &&& forall|s: Seq<char>| chain_ok(#[trigger] span_events(events_view(snap.events@), s))
        },
        snapshot_outcome(r, rows_view(rows@), pk@),
{
    let ghost pkv = pk@;
    let ghost rv = rows_view(rows@);
    let head = w11_observed_head(rows);
    let mut events: Vec<VerifiedEvent> = Vec::new();
    let mut i: usize = 0;
    assert(rv.take(0) =~= Seq::<EventV>::empty());
    while i < rows.len()
        invariant
            i <= rows.len(),
            pk@ == pkv,
            pkv.len() == 32,
            rv == rows_view(rows@),
            events_view(events@) == verified_rows(rv.take(i as int), pkv),
            forall|k: int| 0 <= k < i && verifies_under(#[trigger] rv[k].raw, pkv) ==> row_fault(rv[k]) is None,
            forall|k: int| 0 <= k < events@.len() ==> exists|m: int| 0 <= m < i && (#[trigger] events@[k]).view() == rows@[m].view(),
        decreases rows.len() - i,
    {
        let ghost e0 = events@;
        let res = event_from_row_key(&rows[i], pk.as_slice());
        proof {
            assert(rv[i as int] == rows@[i as int].view());
            assert(rv.take(i + 1).drop_last() =~= rv.take(i as int));
            assert(rv.take(i + 1).last() == rv[i as int]);
        }
        match res {
            Ok(ev) => {
                events.push(ev);
                assert(events_view(events@) =~= events_view(e0).push(rv[i as int]));
                proof {
                    assert forall|k: int| 0 <= k < events@.len() implies exists|m: int| 0 <= m < i + 1 && (#[trigger] events@[k]).view() == rows@[m].view() by {
                        if k < e0.len() {
                            assert(events@[k] == e0[k]);
                        } else {
                            assert(events@[k].view() == rows@[i as int].view());
                        }
                    }
                }
            },
            Err(TraceError::Canon(_)) => {
                assert(events_view(events@) =~= verified_rows(rv.take(i + 1), pkv));
            },
            Err(e) => {
                assert(verifies_under(rv[i as int].raw, pkv) && row_fault(rv[i as int]) is Some);
                assert(!snapshot_ok(rv, pkv));
                let r: Result<VerifiedEventSnapshot, TraceError> = Err(e);
                assert(snapshot_outcome(r, rv, pkv));
                return r;
            },
        }
        i += 1;
    }
    assert(rv.take(i as int) =~= rv);
    let ghost ev = events_view(events@);
    let spans = spans_of(&events);
    let se = spans.entries();
    let mut j: usize = 0;
    while j < se.len()
        invariant
            j <= se.len(),
            ev == events_view(events@),
            ev == verified_rows(rv, pkv),
            pk@ == pkv,
            pkv.len() == 32,
            rv == rows_view(rows@),
            spans.wf(),
            crate::evaluate::pairs_view(se@) == spans@,
            forall|q: Seq<char>| #[trigger] spans.at(q) is Some <==> exists|k: int| 0 <= k < events@.len() && events@[k].span@ == q,
            forall|k: int| 0 <= k < j ==> chain_ok(#[trigger] span_events(ev, spans@[k].0)),
        decreases se.len() - j,
    {
        assert(spans@[j as int].0 == se@[j as int].0@);
        let evs = events_on(&events, se[j].0.as_str());
        match verify_verified_chain(se[j].0.as_str(), &evs) {
            Ok(()) => {},
            Err(e) => {
                assert(!chain_ok(span_events(ev, se@[j as int].0@)));
                let r: Result<VerifiedEventSnapshot, TraceError> = Err(e);
                assert(snapshot_outcome(r, rv, pkv));
                return r;
            },
        }
        j += 1;
    }
    proof {
        assert forall|s: Seq<char>| chain_ok(#[trigger] span_events(ev, s)) by {
            if spans.at(s) is Some {
                crate::promote::lemma_lookup_found(spans@, s);
            } else {
                assert forall|k: int| 0 <= k < ev.len() implies (#[trigger] ev[k]).span != s by {
                    assert(ev[k] == events@[k].view());
                }
                lemma_span_events_absent(ev, s);
            }
        }
    }
    let r: Result<VerifiedEventSnapshot, TraceError> = Ok(VerifiedEventSnapshot { events, head });
    assert(snapshot_outcome(r, rv, pkv));
    r
}

/// The rows, in order, whose raw object verifies under `pk`.
pub open spec fn verified_rows(rows: Seq<EventV>, pk: Seq<u8>) -> Seq<EventV>
    decreases rows.len(),
{
    if rows.len() == 0 {
        Seq::empty()
    } else if verifies_under(rows.last().raw, pk) {
        verified_rows(rows.drop_last(), pk).push(rows.last())
    } else {
        verified_rows(rows.drop_last(), pk)
    }
}

/// A snapshot of rows is usable under `pk`: every row that verifies agrees
/// with its signed object, and the verified rows of each span form a chain.
pub open spec fn snapshot_ok(rows: Seq<EventV>, pk: Seq<u8>) -> bool {
    &&& forall|i: int| 0 <= i < rows.len() && verifies_under(#[trigger] rows[i].raw, pk) ==> row_fault(rows[i]) is None
    &&& forall|s: Seq<char>| chain_ok(#[trigger] span_events(verified_rows(rows, pk), s))
}

/// The view built from `rows` under `pk`: it exists exactly when the rows
/// are usable, and then holds the verified rows in storage order.
pub open spec fn snapshot_outcome(r: Result<VerifiedEventSnapshot, TraceError>, rows: Seq<EventV>, pk: Seq<u8>) -> bool {
    &&& r is Ok <==> snapshot_ok(rows, pk)
    &&& r matches Ok(snap) ==> events_view(snap.events@) == verified_rows(rows, pk)
}

/// Verify one span's rows end to end: every row's raw object verifies
/// (a failure is reported as a chain break at that row's seq), every index
/// column agrees with it, and the events form a chain. Returns the number
/// of verified events.
pub fn verify_span_rows(span: &str, rows: &Vec<EventRow>, pk: &[u8; 32]) -> (r: Result<usize, TraceError>)
    ensures
        r matches Ok(n) ==> n == rows@.len() && chain_ok(rows_view(rows@))
            && forall|i: int| 0 <= i < rows@.len() ==> row_fault(#[trigger] rows@[i].view()) is None,
        (exists|i: int| 0 <= i < rows@.len() && row_fault(#[trigger] rows@[i].view()) is Some) ==> r is Err,
        !chain_ok(rows_view(rows@)) ==> r is Err,
        r is Ok <==> span_rows_ok(rows_view(rows@), pk@),
{
    let ghost pkv = pk@;
    let ghost rv = rows_view(rows@);
    let mut verified: Vec<VerifiedEvent> = Vec::new();
    let mut i: usize = 0;
    while i < rows.len()
        invariant
            i <= rows.len(),
            pk@ == pkv,
            pkv.len() == 32,
            rv == rows_view(rows@),
            verified@.len() == i,
            events_view(verified@) == rows_view(rows@).take(i as int),
            forall|k: int| 0 <= k < i ==> row_fault(#[trigger] rows@[k].view()) is None,
            forall|k: int| 0 <= k < i ==> verifies_under(#[trigger] rv[k].raw, pkv),
        decreases rows.len() - i,
    {
        let res = event_from_row_key(&rows[i], pk.as_slice());
        proof {
            assert(rv[i as int] == rows@[i as int].view());
            if res is Err {
                assert(!span_rows_ok(rv, pkv));
            }
        }
        match res {
            Ok(ev) => {
                let ghost v0 = verified@;
                verified.push(ev);
                assert(events_view(verified@) =~= rows_view(rows@).take(i + 1)) by {
                    assert(verified@ =~= v0.push(verified@.last()));
                }
            },
            Err(TraceError::Canon(c)) => {
                return Err(TraceError::ChainBroken { span: span.to_owned(), seq: rows[i].seq, detail: c.text() });
            },
            Err(e) => return Err(e),
        }
        i += 1;
    }
    assert(rows_view(rows@).take(rows@.len() as int) =~= rows_view(rows@));
    let r = match verify_verified_chain(span, &verified) {
        Ok(()) => Ok(verified.len()),
        Err(e) => Err(e),
    };
    assert(r is Ok <==> span_rows_ok(rv, pkv));
    r
}

/// Every row of a span verifies under `pk`, agrees with its signed object,
/// and the rows form a chain.
pub open spec fn span_rows_ok(rows: Seq<EventV>, pk: Seq<u8>) -> bool {
    &&& forall|i: int| 0 <= i < rows.len() ==> verifies_under(#[trigger] rows[i].raw, pk) && row_fault(rows[i]) is None
    &&& chain_ok(rows)
}

/// The namespace before the first `:`, if there is a colon.
pub open spec fn split_prefix(s: Seq<char>) -> Option<Seq<char>> {
    if crate::canon::first_colon(s) < s.len() {
        Some(s.take(crate::canon::first_colon(s)))
    } else {
        None
    }
}

fn split_prefix_of(s: &str) -> (r: Option<String>)
    ensures
        opt_chars(r) == split_prefix(s@),
{
    let cs = crate::json::chars_of(s);
    let mut i: usize = 0;
    assert(cs@.skip(0) =~= cs@);
    while i < cs.len() && cs[i] != ':'
        invariant
            i <= cs.len(),
            crate::canon::first_colon(cs@) == i + crate::canon::first_colon(cs@.skip(i as int)),
        decreases cs.len() - i,
    {
        assert(cs@.skip(i as int).drop_first() =~= cs@.skip(i + 1));
        i += 1;
    }
    if i == cs.len() {
        assert(cs@.skip(i as int).len() == 0);
        None
    } else {
        assert(cs@.skip(i as int)[0] == ':');
        let mut out: Vec<char> = Vec::new();
        let mut k: usize = 0;
        while k < i
            invariant
                k <= i,
                i < cs.len(),
                out@ == cs@.take(k as int),
            decreases i - k,
        {
            out.push(cs[k]);
            k += 1;
            assert(out@ =~= cs@.take(k as int));
        }
        Some(string_of(&out))
    }
}

/// The requested row id is the signed id.
pub fn w14_object_id_matches(requested: &str, signed: &str) -> (r: bool)
    ensures
        r == (requested@ == signed@),
{
    str_eq(requested, signed)
}

/// The signed id's namespace is the expected one.
pub fn w14_object_prefix_matches(signed: &str, expected: &str) -> (r: bool)
    ensures
        r == (split_prefix(signed@) == Some(expected@)),
{
    match split_prefix_of(signed) {
        Some(p) => str_eq(p.as_str(), expected),
        None => false,
    }
}

/// The stored kind column is the expected kind.
pub fn w14_object_kind_matches(stored: &str, expected: &str) -> (r: bool)
    ensures
        r == (stored@ == expected@),
{
    str_eq(stored, expected)
}

/// The value raw text is admitted as, given its parse: none when a number
/// token is outside the domain, the parse failed, or the value does not
/// normalize into the fabric input domain.
pub open spec fn admitted(raw: Seq<char>, parsed: Result<Json, String>) -> Option<JsonV> {
    if crate::canon::raw_scan(raw, 0, false, false, None) is Some {
        None
    } else {
        match parsed {
            Err(_) => None,
            Ok(doc) => crate::canon::fabric_norm(doc@),
        }
    }
}

/// The typed verification boundary for an authority-bearing object row,
/// given its id, stored kind column and raw text (with the text's parse):
/// the raw text must be admissible fabric JSON and verify under `pk`; its
/// signed id must be the requested id; the signed id's namespace and the
/// stored kind must be the expected ones. Checks run in that order.
pub fn w14_verified_object(
    id: &str,
    expected_prefix: &str,
    expected_kind: &str,
    stored_kind: &str,
    raw: &str,
    parsed: Result<Json, String>,
    pk: &[u8; 32],
) -> (r: Result<Json, TraceError>)
    ensures
        r matches Ok(obj) ==> {
            &&& obj@.str_at("id"@) == Some(id@)
            &&& split_prefix(id@) == Some(expected_prefix@)
            &&& stored_kind@ == expected_kind@
        },
        r matches Err(TraceError::ObjectKindMismatch { id: i, expected: x, actual: a }) ==> i@ == id@ && x@ == expected_kind@
            && a@ == stored_kind@ && stored_kind@ != expected_kind@,
        r matches Err(TraceError::ObjectIdMismatch { requested: q, .. }) ==> q@ == id@,
        match admitted(raw@, parsed) {
            None => r matches Err(TraceError::Canon(_)),
            Some(v) => if !verifies_under(v, pk@) {
                r matches Err(TraceError::Canon(_))
            } else if v.str_at("id"@) != Some(id@) {
                r matches Err(TraceError::ObjectIdMismatch { .. })
            } else if split_prefix(id@) != Some(expected_prefix@) {
                r matches Err(TraceError::ObjectPrefixMismatch { .. })
            } else if stored_kind@ != expected_kind@ {
                r matches Err(TraceError::ObjectKindMismatch { .. })
            } else {
                r matches Ok(obj) && obj@ == v
            },
        },
{
    let object = match admit_fabric_json(raw, parsed) {
        Ok(o) => o,
        Err(e) => return Err(TraceError::Canon(e)),
    };
    match verify(&object, pk) {
        Ok(()) => {},
        Err(e) => return Err(TraceError::Canon(e)),
    }
    let signed_id = match object.str_at("id") {
        Some(s) => s.to_owned(),
        None => return Err(TraceError::Canon(CanonError::MissingField("id"))),
    };
    if !w14_object_id_matches(id, signed_id.as_str()) {
        return Err(TraceError::ObjectIdMismatch { requested: id.to_owned(), signed: signed_id });
    }
    if !w14_object_prefix_matches(signed_id.as_str(), expected_prefix) {
        let actual = match split_prefix_of(signed_id.as_str()) {
            Some(p) => p,
            None => String::new(),
        };
        return Err(TraceError::ObjectPrefixMismatch { id: id.to_owned(), expected: expected_prefix.to_owned(), actual });
    }
    if !w14_object_kind_matches(stored_kind, expected_kind) {
        return Err(TraceError::ObjectKindMismatch { id: id.to_owned(), expected: expected_kind.to_owned(), actual: stored_kind.to_owned() });
    }
    Ok(object)
}

} // verus!
