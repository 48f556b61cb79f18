//! Authority as the signed trace establishes it.
//!
//! Grant activation, revocation closure, approval headroom and budget
//! consumption are all rebuilt from verified events, never from mutable
//! tables: a grant activates a capability only from the fabric-lifetime
//! span and only in its exact signed form; a verified revoke closes the id
//! it names wherever it was emitted; a liveness question is answered at an
//! offset, so a later revoke never retro-fails earlier work.

use vstd::prelude::*;
use crate::json::{str_eq, chars_of, string_of, Json, JsonV, elems_view, lemma_elems_view_len};
use crate::json_text::{int_text, push_int};
use crate::capability::{auth_rank, spec_auth_rank, cat};
use crate::trace::{VerifiedEvent, EventV, events_view, copy_event, opt_chars};
use crate::evaluate::{evaluate, spec_evaluate, CallCtx, CtxV, CheckV, OutcomeV, Outcome, meters_view, pairs_view, checks_view};
use crate::tools::{find_action, registered_action};
use crate::promote::{Tree, sorted_keys, lookup, lemma_lookup_found, lemma_lookup_absent};
use crate::capability::as_str_set;
use crate::json::{string_views, JsonNumber};

verus! {

/// What promoting a manifest did: merged and recorded under an event, or
/// parked for human approval as a pending promotion.
#[derive(Debug)]
pub enum PromotionOutcome {
    Applied { event: String },
    Parked { promotion: i64 },
}

/// Failures of the broker's authority decisions.
#[derive(Debug)]
pub enum BrokerError {
    /// The recorded trace (or the signed authority it rests on) does not
    /// support what was done; nothing is merged or granted.
    GateTraceViolation(String),
    /// The approving channel is weaker than the capability's
    /// `approval.min_auth`.
    ChannelTooWeak { have: String, need: String },
    /// A signed object the decision needs could not be loaded (the
    /// loader's message).
    Unavailable(String),
    /// The capability id is closed: revoked ids never reactivate.
    CapabilityClosed(String),
    /// A capability would reach a store its manifest's roots do not cover.
    M1 { store: String, manifest: String },
    /// A capability that allows nothing is a bug, not a grant.
    NoActionAllow,
    /// A revocation request that names no valid target or provenance.
    InvalidRevocation(String),
    /// The capability body is refused.
    Cap(crate::capability::CapError),
    /// The object cannot be sealed.
    Canon(crate::canon::CanonError),
    /// A store snapshot or tree is refused.
    Snapshot(crate::snapshot::SnapError),
    /// A parked promotion has no valid immutable candidate.
    MalformedPromotion { id: i64, detail: String },
    /// No promotion with this id is pending.
    NoSuchPromotion(i64),
    /// No escalation with this id is pending.
    NoSuchEscalation(i64),
    /// A store the manifest names is not registered, or has no root on a
    /// side the merge needs.
    UnknownStore(String),
    /// A manifest lacks a field the operation needs.
    MalformedManifest { id: String, detail: String },
}

/// A broker error as values.
pub enum BrokerErrV {
    Violation(Seq<char>),
    TooWeak { have: Seq<char>, need: Seq<char> },
    Unavailable(Seq<char>),
    Closed(Seq<char>),
    M1 { store: Seq<char>, manifest: Seq<char> },
    NoActionAllow,
    InvalidRevocation(Seq<char>),
    Cap(Seq<char>),
    Canon(Option<Seq<char>>),
    Snapshot(Option<Seq<char>>),
    MalformedPromotion { id: i64, detail: Seq<char> },
    NoSuchPromotion(i64),
    NoSuchEscalation(i64),
    UnknownStore(Seq<char>),
    MalformedManifest { id: Seq<char>, detail: Seq<char> },
}

impl BrokerError {
    pub open spec fn view(&self) -> BrokerErrV {
        match self {
            BrokerError::GateTraceViolation(m) => BrokerErrV::Violation(m@),
            BrokerError::ChannelTooWeak { have, need } => BrokerErrV::TooWeak { have: have@, need: need@ },
            BrokerError::Unavailable(m) => BrokerErrV::Unavailable(m@),
            BrokerError::CapabilityClosed(m) => BrokerErrV::Closed(m@),
            BrokerError::M1 { store, manifest } => BrokerErrV::M1 { store: store@, manifest: manifest@ },
            BrokerError::NoActionAllow => BrokerErrV::NoActionAllow,
            BrokerError::InvalidRevocation(m) => BrokerErrV::InvalidRevocation(m@),
            BrokerError::Cap(e) => BrokerErrV::Cap(crate::capability::cap_error_text(*e)),
            BrokerError::Canon(e) => BrokerErrV::Canon(crate::canon::canon_error_text(*e)),
            BrokerError::Snapshot(e) => BrokerErrV::Snapshot(crate::snapshot::snap_error_text(*e)),
            BrokerError::MalformedPromotion { id, detail } => BrokerErrV::MalformedPromotion { id: *id, detail: detail@ },
            BrokerError::NoSuchPromotion(id) => BrokerErrV::NoSuchPromotion(*id),
            BrokerError::NoSuchEscalation(id) => BrokerErrV::NoSuchEscalation(*id),
            BrokerError::UnknownStore(m) => BrokerErrV::UnknownStore(m@),
            BrokerError::MalformedManifest { id, detail } => BrokerErrV::MalformedManifest { id: id@, detail: detail@ },
        }
    }
}

// ---------------------------------------------------------------------
// Small text and lookup helpers
// ---------------------------------------------------------------------

/// `p` is a prefix of `s`.
pub open spec fn has_prefix(s: Seq<char>, p: Seq<char>) -> bool {
    p.len() <= s.len() && s.subrange(0, p.len() as int) == p
}

/// Whether `s` starts with `p`.
pub fn starts_with(s: &str, p: &str) -> (r: bool)
    ensures
        r == has_prefix(s@, p@),
{
    let sc = chars_of(s);
    let pc = chars_of(p);
    if pc.len() > sc.len() {
        return false;
    }
    let mut i: usize = 0;
    while i < pc.len()
        invariant
            i <= pc.len(),
            pc.len() <= sc.len(),
            sc@ == s@,
            pc@ == p@,
            forall|j: int| 0 <= j < i ==> sc@[j] == pc@[j],
        decreases pc.len() - i,
    {
        if sc[i] != pc[i] {
            assert(s@.subrange(0, p@.len() as int)[i as int] != p@[i as int]);
            return false;
        }
        i += 1;
    }
    assert(sc@.subrange(0, pc.len() as int) =~= pc@);
    true
}

/// The decimal text of `n`.
pub fn int_string(n: i64) -> (r: String)
    ensures
        r@ == int_text(n as int),
{
    let mut v: Vec<char> = Vec::new();
    push_int(&mut v, n as i128);
    assert(v@ =~= int_text(n as int));
    string_of(&v)
}

/// The value first associated with `k` in an association list.
pub open spec fn assoc_get<K, V>(s: Seq<(K, V)>, k: K) -> Option<V>
    decreases s.len(),
{
    if s.len() == 0 {
        None
    } else {
        match assoc_get(s.drop_last(), k) {
            Some(v) => Some(v),
            None => if s.last().0 == k {
                Some(s.last().1)
            } else {
                None
            },
        }
    }
}

pub proof fn lemma_assoc_none<K, V>(s: Seq<(K, V)>, k: K)
    requires
        forall|j: int| 0 <= j < s.len() ==> (#[trigger] s[j]).0 != k,
    ensures
        assoc_get(s, k) is None,
    decreases s.len(),
{
    if s.len() > 0 {
        lemma_assoc_none(s.drop_last(), k);
    }
}

pub proof fn lemma_assoc_first<K, V>(s: Seq<(K, V)>, k: K, i: int)
    requires
        0 <= i < s.len(),
        s[i].0 == k,
        forall|j: int| 0 <= j < i ==> (#[trigger] s[j]).0 != k,
    ensures
        assoc_get(s, k) == Some(s[i].1),
    decreases s.len(),
{
    if i < s.len() - 1 {
        lemma_assoc_first(s.drop_last(), k, i);
    } else {
        lemma_assoc_none(s.drop_last(), k);
    }
}

/// Offsets keyed by capability id, as character sequences.
pub open spec fn offsets_view(s: Seq<(String, i64)>) -> Seq<(Seq<char>, int)> {
    s.map_values(|p: (String, i64)| (p.0@, p.1 as int))
}

/// The key of an exact grant binding: capability, manifest and parent.
pub type BindingKey = (Seq<char>, Seq<char>, Option<Seq<char>>);

pub open spec fn bindings_view(s: Seq<((String, String, Option<String>), i64)>) -> Seq<(BindingKey, int)> {
    s.map_values(|p: ((String, String, Option<String>), i64)| ((p.0.0@, p.0.1@, opt_chars(p.0.2)), p.1 as int))
}

/// Index of the first entry keyed `k`.
fn find_offset(s: &Vec<(String, i64)>, k: &str) -> (r: Option<usize>)
    ensures
        match r {
            Some(i) => i < s.len() && offsets_view(s@)[i as int].0 == k@
                && assoc_get(offsets_view(s@), k@) == Some(s@[i as int].1 as int),
            None => assoc_get(offsets_view(s@), k@) is None,
        },
{
    let ghost v = offsets_view(s@);
    let mut i: usize = 0;
    while i < s.len()
        invariant
            i <= s.len(),
            v == offsets_view(s@),
            forall|j: int| 0 <= j < i ==> (#[trigger] v[j]).0 != k@,
        decreases s.len() - i,
    {
        if str_eq(&s[i].0, k) {
            proof { lemma_assoc_first(v, k@, i as int); }
            return Some(i);
        }
        i += 1;
    }
    proof { lemma_assoc_none(v, k@); }
    None
}

fn opt_str_eq(a: &Option<String>, b: &Option<String>) -> (r: bool)
    ensures
        r == (opt_chars(*a) == opt_chars(*b)),
{
    match (a, b) {
        (Some(x), Some(y)) => str_eq(x, y),
        (None, None) => true,
        _ => false,
    }
}

/// Index of the first binding keyed `(cap, man, parent)`.
fn find_binding(
    s: &Vec<((String, String, Option<String>), i64)>,
    cap: &str,
    man: &str,
    parent: &Option<String>,
) -> (r: Option<usize>)
    ensures
        match r {
            Some(i) => i < s.len() && assoc_get(bindings_view(s@), (cap@, man@, opt_chars(*parent)))
                == Some(s@[i as int].1 as int),
            None => assoc_get(bindings_view(s@), (cap@, man@, opt_chars(*parent))) is None,
        },
{
    let ghost v = bindings_view(s@);
    let ghost k = (cap@, man@, opt_chars(*parent));
    let mut i: usize = 0;
    while i < s.len()
        invariant
            i <= s.len(),
            v == bindings_view(s@),
            k == (cap@, man@, opt_chars(*parent)),
            forall|j: int| 0 <= j < i ==> (#[trigger] v[j]).0 != k,
        decreases s.len() - i,
    {
        if str_eq(&s[i].0.0, cap) && str_eq(&s[i].0.1, man) && opt_str_eq(&s[i].0.2, parent) {
            proof { lemma_assoc_first(v, k, i as int); }
            return Some(i);
        }
        i += 1;
    }
    proof { lemma_assoc_none(v, k); }
    None
}

/// `body` of an event's signed raw object (`Null` when absent).
fn body_of(ev: &VerifiedEvent) -> (r: Option<&Json>)
    ensures
        match r {
            Some(b) => b@ == ev.raw@.at("body"@),
            None => ev.raw@.at("body"@) == JsonV::Null,
        },
{
    ev.raw.get("body")
}

/// The string at `key` of the signed body.
fn body_str<'a>(ev: &'a VerifiedEvent, key: &str) -> (r: Option<&'a str>)
    ensures
        r is Some <==> ev.raw@.at("body"@).str_at(key@) is Some,
        r matches Some(s) ==> ev.raw@.at("body"@).str_at(key@) == Some(s@),
{
    match ev.raw.get("body") {
        Some(b) => b.str_at(key),
        None => None,
    }
}

fn opt_is(o: &Option<String>, s: &str) -> (r: bool)
    ensures
        r == (opt_chars(*o) == Some(s@)),
{
    match o {
        Some(x) => str_eq(x, s),
        None => false,
    }
}

// ---------------------------------------------------------------------
// A span's events in signed sequence
// ---------------------------------------------------------------------

/// Insert `e` into `sorted` after every element whose seq is not greater.
pub open spec fn insert_by_seq(sorted: Seq<EventV>, e: EventV) -> Seq<EventV>
    decreases sorted.len(),
{
    if sorted.len() == 0 {
        seq![e]
    } else if sorted.last().seq <= e.seq {
        sorted.push(e)
    } else {
        insert_by_seq(sorted.drop_last(), e).push(sorted.last())
    }
}

/// The events of `span`, stably ordered by their signed sequence number.
pub open spec fn signed_sequence(evs: Seq<EventV>, span: Seq<char>) -> Seq<EventV>
    decreases evs.len(),
{
    if evs.len() == 0 {
        Seq::empty()
    } else if evs.last().span == span {
        insert_by_seq(signed_sequence(evs.drop_last(), span), evs.last())
    } else {
        signed_sequence(evs.drop_last(), span)
    }
}

/// First index whose seq exceeds `key`, for a sequence sorted by seq.
pub open spec fn seq_sorted(s: Seq<EventV>) -> bool {
    forall|a: int, b: int| 0 <= a < b < s.len() ==> (#[trigger] s[a]).seq <= (#[trigger] s[b]).seq
}

proof fn lemma_insert_at(sorted: Seq<EventV>, e: EventV, pos: int)
    requires
        seq_sorted(sorted),
        0 <= pos <= sorted.len(),
        forall|j: int| 0 <= j < pos ==> (#[trigger] sorted[j]).seq <= e.seq,
        pos < sorted.len() ==> sorted[pos].seq > e.seq,
    ensures
        insert_by_seq(sorted, e) == sorted.insert(pos, e),
        seq_sorted(sorted.insert(pos, e)),
    decreases sorted.len(),
{
    if sorted.len() == 0 {
        assert(sorted.insert(pos, e) =~= seq![e]);
    } else if sorted.last().seq <= e.seq {
        if pos < sorted.len() {
            assert(sorted[pos].seq <= sorted.last().seq);
        }
        assert(pos == sorted.len());
        assert(sorted.insert(pos, e) =~= sorted.push(e));
    } else {
        assert(pos < sorted.len());
        lemma_insert_at(sorted.drop_last(), e, pos);
        assert(sorted.drop_last().insert(pos, e).push(sorted.last()) =~= sorted.insert(pos, e));
    }
}

proof fn lemma_signed_sequence_sorted(evs: Seq<EventV>, span: Seq<char>)
    ensures
        seq_sorted(signed_sequence(evs, span)),
    decreases evs.len(),
{
    if evs.len() > 0 {
        lemma_signed_sequence_sorted(evs.drop_last(), span);
        if evs.last().span == span {
            let s = signed_sequence(evs.drop_last(), span);
            let e = evs.last();
            let pos = choose_pos(s, e);
            lemma_choose_pos(s, e);
            lemma_insert_at(s, e, pos);
        }
    }
}

/// The insertion point of `e` in a sorted sequence.
spec fn choose_pos(s: Seq<EventV>, e: EventV) -> int
    decreases s.len(),
{
    if s.len() == 0 {
        0
    } else if s.last().seq <= e.seq {
        s.len() as int
    } else {
        choose_pos(s.drop_last(), e)
    }
}

proof fn lemma_choose_pos(s: Seq<EventV>, e: EventV)
    requires
        seq_sorted(s),
    ensures
        0 <= choose_pos(s, e) <= s.len(),
        forall|j: int| 0 <= j < choose_pos(s, e) ==> (#[trigger] s[j]).seq <= e.seq,
        choose_pos(s, e) < s.len() ==> s[choose_pos(s, e)].seq > e.seq,
    decreases s.len(),
{
    if s.len() > 0 && !(s.last().seq <= e.seq) {
        lemma_choose_pos(s.drop_last(), e);
        let p = choose_pos(s.drop_last(), e);
        assert forall|j: int| 0 <= j < p implies (#[trigger] s[j]).seq <= e.seq by {
            assert(s.drop_last()[j] == s[j]);
        }
        if p < s.len() - 1 {
            assert(s.drop_last()[p] == s[p]);
        }
    } else if s.len() > 0 {
        assert forall|j: int| 0 <= j < s.len() implies (#[trigger] s[j]).seq <= e.seq by {
            if j < s.len() - 1 {
                assert(s[j].seq <= s.last().seq);
            }
        }
    }
}

/// The events of `span`, in the span's signed sequence order; events with
/// equal sequence numbers keep their order of storage.
pub fn w11_span_events_in_signed_sequence(events: &Vec<VerifiedEvent>, span: &str) -> (r: Vec<VerifiedEvent>)
    ensures
        events_view(r@) == signed_sequence(events_view(events@), span@),
{
    let ghost ev = events_view(events@);
    let mut out: Vec<VerifiedEvent> = Vec::new();
    let mut i: usize = 0;
    while i < events.len()
        invariant
            i <= events.len(),
            ev == events_view(events@),
            events_view(out@) == signed_sequence(ev.subrange(0, i as int), span@),
        decreases events.len() - i,
    {
        proof {
            assert(ev.subrange(0, i + 1).drop_last() =~= ev.subrange(0, i as int));
            lemma_signed_sequence_sorted(ev.subrange(0, i as int), span@);
        }
        if str_eq(&events[i].span, span) {
            let key = events[i].seq;
            let mut pos: usize = 0;
            while pos < out.len() && out[pos].seq <= key
                invariant
                    pos <= out.len(),
                    forall|j: int| 0 <= j < pos ==> (#[trigger] events_view(out@)[j]).seq <= key,
                decreases out.len() - pos,
            {
                pos += 1;
            }
            let ghost old_out = events_view(out@);
            let e = copy_event(&events[i]);
            out.insert(pos, e);
            proof {
                assert(events_view(out@) =~= old_out.insert(pos as int, ev[i as int]));
                lemma_insert_at(old_out, ev[i as int], pos as int);
            }
        } else {
            assert(events_view(out@) =~= signed_sequence(ev.subrange(0, i + 1), span@));
        }
        i += 1;
    }
    assert(ev.subrange(0, events.len() as int) =~= ev);
    out
}

/// The last event of kind `tool_call` in a sequence.
pub open spec fn last_tool_call(s: Seq<EventV>) -> Option<EventV>
    decreases s.len(),
{
    if s.len() == 0 {
        None
    } else if s.last().kind == "tool_call"@ {
        Some(s.last())
    } else {
        last_tool_call(s.drop_last())
    }
}

/// The final call of a span: the last tool call in its signed sequence.
pub fn w11_final_tool_call(events: &Vec<VerifiedEvent>, span: &str) -> (r: Option<VerifiedEvent>)
    ensures
        match r {
            Some(e) => last_tool_call(signed_sequence(events_view(events@), span@)) == Some(e.view()),
            None => last_tool_call(signed_sequence(events_view(events@), span@)) is None,
        },
{
    let ordered = w11_span_events_in_signed_sequence(events, span);
    let ghost ov = events_view(ordered@);
    let mut i: usize = ordered.len();
    assert(ov.subrange(0, i as int) =~= ov);
    while i > 0
        invariant
            i <= ordered.len(),
            ov == events_view(ordered@),
            last_tool_call(ov) == last_tool_call(ov.subrange(0, i as int)),
        decreases i,
    {
        proof { assert(ov.subrange(0, i as int).drop_last() =~= ov.subrange(0, i - 1)); }
        if str_eq(&ordered[i - 1].kind, "tool_call") {
            return Some(copy_event(&ordered[i - 1]));
        }
        i -= 1;
    }
    None
}

// ---------------------------------------------------------------------
// Grant activation and revocation closure
// ---------------------------------------------------------------------

/// The capability a grant for `manifest` on the substrate span activates.
pub open spec fn manifest_grant(e: EventV, substrate: Seq<char>, manifest: Seq<char>) -> Option<Seq<char>> {
    if e.span == substrate && e.kind == "grant"@ && e.manifest == Some(manifest) {
        e.raw.at("body"@).str_at("capability"@)
    } else {
        None
    }
}

/// Earliest grant offset per capability bound to `manifest`, in order of
/// first grant.
pub open spec fn manifest_grant_offsets(evs: Seq<EventV>, substrate: Seq<char>, manifest: Seq<char>) -> Seq<(Seq<char>, int)>
    decreases evs.len(),
{
    if evs.len() == 0 {
        Seq::empty()
    } else {
        let m = manifest_grant_offsets(evs.drop_last(), substrate, manifest);
        match manifest_grant(evs.last(), substrate, manifest) {
            Some(c) => if assoc_get(m, c) is None {
                m.push((c, evs.last().offset))
            } else {
                m
            },
            None => m,
        }
    }
}

/// The activation view for one manifest: the earliest verified grant
/// offset of each capability bound to it on the fabric-lifetime span.
pub fn m7_grant_offsets(events: &Vec<VerifiedEvent>, substrate_span: &str, manifest_id: &str) -> (r: Vec<(String, i64)>)
    ensures
        offsets_view(r@) == manifest_grant_offsets(events_view(events@), substrate_span@, manifest_id@),
{
    let ghost ev = events_view(events@);
    let mut grants: Vec<(String, i64)> = Vec::new();
    let mut i: usize = 0;
    while i < events.len()
        invariant
            i <= events.len(),
            ev == events_view(events@),
            offsets_view(grants@) == manifest_grant_offsets(ev.subrange(0, i as int), substrate_span@, manifest_id@),
        decreases events.len() - i,
    {
        proof { assert(ev.subrange(0, i + 1).drop_last() =~= ev.subrange(0, i as int)); }
        let e = &events[i];
        if str_eq(&e.span, substrate_span) && str_eq(&e.kind, "grant") && opt_is(&e.manifest, manifest_id) {
            match body_str(e, "capability") {
                Some(cap) => {
                    if find_offset(&grants, cap).is_none() {
                        grants.push((cap.to_owned(), e.offset));
                        assert(offsets_view(grants@) =~= manifest_grant_offsets(ev.subrange(0, i + 1), substrate_span@, manifest_id@));
                    }
                },
                None => {},
            }
        }
        i += 1;
    }
    assert(ev.subrange(0, events.len() as int) =~= ev);
    grants
}

/// The capability a verified revoke names, wherever it was emitted.
pub open spec fn revoke_target(e: EventV) -> Option<Seq<char>> {
    if e.kind == "revoke"@ {
        e.raw.at("body"@).str_at("capability"@)
    } else {
        None
    }
}

/// Earliest revoke offset per capability id, across the whole substrate.
pub open spec fn revoke_offsets(evs: Seq<EventV>) -> Seq<(Seq<char>, int)>
    decreases evs.len(),
{
    if evs.len() == 0 {
        Seq::empty()
    } else {
        let m = revoke_offsets(evs.drop_last());
        match revoke_target(evs.last()) {
            Some(c) => if assoc_get(m, c) is None {
                m.push((c, evs.last().offset))
            } else {
                m
            },
            None => m,
        }
    }
}

/// The closure view: the earliest verified revoke of each capability id,
/// never filtered by span or manifest (doubt narrows authority).
pub fn a22_revoke_offsets(events: &Vec<VerifiedEvent>) -> (r: Vec<(String, i64)>)
    ensures
        offsets_view(r@) == revoke_offsets(events_view(events@)),
{
    let ghost ev = events_view(events@);
    let mut revokes: Vec<(String, i64)> = Vec::new();
    let mut i: usize = 0;
    while i < events.len()
        invariant
            i <= events.len(),
            ev == events_view(events@),
            offsets_view(revokes@) == revoke_offsets(ev.subrange(0, i as int)),
        decreases events.len() - i,
    {
        proof { assert(ev.subrange(0, i + 1).drop_last() =~= ev.subrange(0, i as int)); }
        let e = &events[i];
        if str_eq(&e.kind, "revoke") {
            match body_str(e, "capability") {
                Some(cap) => {
                    if find_offset(&revokes, cap).is_none() {
                        revokes.push((cap.to_owned(), e.offset));
                        assert(offsets_view(revokes@) =~= revoke_offsets(ev.subrange(0, i + 1)));
                    }
                },
                None => {},
            }
        }
        i += 1;
    }
    assert(ev.subrange(0, events.len() as int) =~= ev);
    revokes
}

/// The parent a grant's body names: `Some(None)` for an explicit `null`,
/// `Some(Some(p))` for a string; `None` when absent or of another type.
pub open spec fn grant_parent(body: JsonV) -> Option<Option<Seq<char>>> {
    match body.get("parent"@) {
        Some(JsonV::Null) => Some(None),
        Some(JsonV::Str(p)) => Some(Some(p)),
        _ => None,
    }
}

/// The exact binding a grant on the substrate span activates.
pub open spec fn grant_binding(e: EventV, substrate: Seq<char>) -> Option<BindingKey> {
    if e.kind == "grant"@ && e.span == substrate {
        let body = e.raw.at("body"@);
        match (body.str_at("capability"@), e.manifest, grant_parent(body)) {
            (Some(c), Some(m), Some(p)) => Some((c, m, p)),
            _ => None,
        }
    } else {
        None
    }
}

/// Earliest grant offset per exact (capability, manifest, parent) binding.
pub open spec fn grant_bindings(evs: Seq<EventV>, substrate: Seq<char>) -> Seq<(BindingKey, int)>
    decreases evs.len(),
{
    if evs.len() == 0 {
        Seq::empty()
    } else {
        let m = grant_bindings(evs.drop_last(), substrate);
        match grant_binding(evs.last(), substrate) {
            Some(k) => if assoc_get(m, k) is None {
                m.push((k, evs.last().offset))
            } else {
                m
            },
            None => m,
        }
    }
}

fn grant_parent_of(body: Option<&Json>) -> (r: Option<Option<String>>)
    ensures
        match body {
            Some(b) => match r {
                Some(p) => grant_parent(b@) == Some(opt_chars(p)),
                None => grant_parent(b@) is None,
            },
            None => r is None,
        },
{
    match body {
        Some(b) => match b.get("parent") {
            Some(Json::Null) => Some(None),
            Some(Json::Str(p)) => Some(Some(p.clone())),
            _ => None,
        },
        None => None,
    }
}

/// The activation view for ancestry checks: the earliest verified grant of
/// each exact (capability, manifest, parent) binding. A grant activates
/// only from the fabric-lifetime span, and the binding is read from the
/// signed raw object.
pub fn a22_grant_bindings(events: &Vec<VerifiedEvent>, substrate_span: &str) -> (r: Vec<((String, String, Option<String>), i64)>)
    ensures
        bindings_view(r@) == grant_bindings(events_view(events@), substrate_span@),
{
    let ghost ev = events_view(events@);
    let mut grants: Vec<((String, String, Option<String>), i64)> = Vec::new();
    let mut i: usize = 0;
    while i < events.len()
        invariant
            i <= events.len(),
            ev == events_view(events@),
            bindings_view(grants@) == grant_bindings(ev.subrange(0, i as int), substrate_span@),
        decreases events.len() - i,
    {
        proof { assert(ev.subrange(0, i + 1).drop_last() =~= ev.subrange(0, i as int)); }
        let e = &events[i];
        if str_eq(&e.kind, "grant") && str_eq(&e.span, substrate_span) {
            let body = body_of(e);
            let parent = grant_parent_of(body);
            proof {
                if body is None {
                    assert(JsonV::Null.get("parent"@) is None);
                }
            }
            match (body_str(e, "capability"), &e.manifest, parent) {
                (Some(cap), Some(man), Some(p)) => {
                    if find_binding(&grants, cap, man, &p).is_none() {
                        grants.push(((cap.to_owned(), man.clone(), p), e.offset));
                        assert(bindings_view(grants@) =~= grant_bindings(ev.subrange(0, i + 1), substrate_span@));
                    }
                },
                _ => {},
            }
        }
        i += 1;
    }
    assert(ev.subrange(0, events.len() as int) =~= ev);
    grants
}

// ---------------------------------------------------------------------
// Liveness of a capability at an offset
// ---------------------------------------------------------------------

/// An ancestry chain, leaf first: (capability id, bound manifest) per hop.
pub open spec fn chain_view(c: Seq<(String, String)>) -> Seq<(Seq<char>, Seq<char>)> {
    c.map_values(|p: (String, String)| (p.0@, p.1@))
}

/// The first link of `chain` (leaf first) revoked before offset `o`, with
/// the revoke's offset.
pub open spec fn first_revoked(chain: Seq<(Seq<char>, Seq<char>)>, o: int, revokes: Seq<(Seq<char>, int)>) -> Option<(Seq<char>, int)>
    decreases chain.len(),
{
    if chain.len() == 0 {
        None
    } else {
        match assoc_get(revokes, chain[0].0) {
            Some(r) => if r < o {
                Some((chain[0].0, r))
            } else {
                first_revoked(chain.drop_first(), o, revokes)
            },
            None => first_revoked(chain.drop_first(), o, revokes),
        }
    }
}

/// The parent the signed ancestry gives the link at `i`.
pub open spec fn expected_parent(chain: Seq<(Seq<char>, Seq<char>)>, i: int) -> Option<Seq<char>> {
    if i + 1 < chain.len() {
        Some(chain[i + 1].0)
    } else {
        None
    }
}

/// The exact binding the link at `i` must have been granted under.
pub open spec fn link_binding(chain: Seq<(Seq<char>, Seq<char>)>, i: int) -> BindingKey {
    (chain[i].0, chain[i].1, expected_parent(chain, i))
}

/// How an optional parent is written in messages.
pub open spec fn debug_opt(p: Option<Seq<char>>) -> Seq<char> {
    match p {
        None => "None"@,
        Some(x) => "Some(\""@ + x + "\")"@,
    }
}

/// The first activation failure walking the chain from link `i` towards
/// the root, where `child` is the grant offset of link `i - 1`: a link with
/// no exact-binding grant, or a link granted no earlier than its child.
pub open spec fn activation_fault(chain: Seq<(Seq<char>, Seq<char>)>, grants: Seq<(BindingKey, int)>, i: int, child: Option<int>) -> Option<Seq<char>>
    decreases chain.len() - i,
{
    if i < 0 || i >= chain.len() {
        None
    } else {
        match assoc_get(grants, link_binding(chain, i)) {
            None => Some("no verified grant binds "@ + chain[i].0 + " to "@ + chain[i].1 + " with parent "@
                + debug_opt(expected_parent(chain, i)) + " (A21/M7, fail closed)"@),
            Some(g) => match child {
                Some(cg) => if g >= cg {
                    Some("ancestry grants out of order: "@ + chain[i].0 + " granted at "@ + int_text(g)
                        + ", its child at "@ + int_text(cg) + " (§5.4, fail closed)"@)
                } else {
                    activation_fault(chain, grants, i + 1, Some(g))
                },
                None => activation_fault(chain, grants, i + 1, Some(g)),
            },
        }
    }
}

/// Liveness of the leaf of `chain` for an operation at offset `o`: no link
/// revoked before `o` (closure is permanent per id and cascades from any
/// ancestor); every link granted under its exact binding, ancestors strictly
/// before their children; and the leaf granted before `o`.
pub open spec fn state_at(chain: Seq<(Seq<char>, Seq<char>)>, o: int, grants: Seq<(BindingKey, int)>, revokes: Seq<(Seq<char>, int)>) -> Result<(), Seq<char>> {
    match first_revoked(chain, o, revokes) {
        Some((id, r)) => Err("capability "@ + id + " revoked at offset "@ + int_text(r)
            + " (§5.4; closure is permanent for the id)"@),
        None => match activation_fault(chain, grants, 0, None) {
            Some(m) => Err(m),
            None => if chain.len() == 0 {
                Err("empty capability ancestry (fail closed)"@)
            } else {
                let g = assoc_get(grants, link_binding(chain, 0))->0;
                if g < o {
                    Ok(())
                } else {
                    Err("operation at offset "@ + int_text(o) + " precedes the grant of "@ + chain[0].0 + " at "@
                        + int_text(g) + " (M7 ordering)"@)
                }
            },
        },
    }
}

fn debug_opt_string(p: &Option<String>) -> (r: String)
    ensures
        r@ == debug_opt(opt_chars(*p)),
{
    match p {
        None => "None".to_owned(),
        Some(x) => cat(&cat("Some(\"", x), "\")"),
    }
}

/// Liveness of the leaf of `chain` (leaf first, root last) for an
/// operation whose durable authorization offset is `o`. Closure is checked
/// first and dominates activation.
pub fn a22_state_at(
    chain: &Vec<(String, String)>,
    o: i64,
    grants: &Vec<((String, String, Option<String>), i64)>,
    revokes: &Vec<(String, i64)>,
) -> (r: Result<(), String>)
    ensures
        match state_at(chain_view(chain@), o as int, bindings_view(grants@), offsets_view(revokes@)) {
            Ok(()) => r is Ok,
            Err(m) => r matches Err(x) && x@ == m,
        },
{
    let ghost cv = chain_view(chain@);
    let ghost gv = bindings_view(grants@);
    let ghost rv = offsets_view(revokes@);
    let mut i: usize = 0;
    assert(cv.skip(0) =~= cv);
    while i < chain.len()
        invariant
            i <= chain.len(),
            cv == chain_view(chain@),
            first_revoked(cv, o as int, rv) == first_revoked(cv.skip(i as int), o as int, rv),
        decreases chain.len() - i,
    {
        proof { assert(cv.skip(i as int).drop_first() =~= cv.skip(i + 1)); }
        match find_offset(revokes, &chain[i].0) {
            Some(k) => {
                let r = revokes[k].1;
                if r < o {
                    let msg = cat(&cat(&cat(&cat("capability ", &chain[i].0), " revoked at offset "), &int_string(r)),
                        " (§5.4; closure is permanent for the id)");
                    return Err(msg);
                }
            },
            None => {},
        }
        i += 1;
    }
    proof {
        assert(cv.skip(chain.len() as int).len() == 0);
    }
    let mut child_grant: Option<i64> = None;
    let mut leaf_grant: i64 = 0;
    let mut index: usize = 0;
    while index < chain.len()
        invariant
            index <= chain.len(),
            cv == chain_view(chain@),
            gv == bindings_view(grants@),
            activation_fault(cv, gv, 0, None) == activation_fault(cv, gv, index as int,
                match child_grant { Some(c) => Some(c as int), None => None }),
            index == 0 <==> child_grant is None,
            index > 0 ==> assoc_get(gv, link_binding(cv, 0)) == Some(leaf_grant as int),
        decreases chain.len() - index,
    {
        let expected: Option<String> = if index + 1 < chain.len() {
            Some(chain[index + 1].0.clone())
        } else {
            None
        };
        assert(opt_chars(expected) == expected_parent(cv, index as int));
        let g = match find_binding(grants, &chain[index].0, &chain[index].1, &expected) {
            Some(k) => grants[k].1,
            None => {
                let msg = cat(&cat(&cat(&cat(&cat(&cat("no verified grant binds ", &chain[index].0), " to "),
                    &chain[index].1), " with parent "), &debug_opt_string(&expected)), " (A21/M7, fail closed)");
                return Err(msg);
            },
        };
        if index == 0 {
            leaf_grant = g;
        }
        match child_grant {
            Some(cg) => {
                if g >= cg {
                    let msg = cat(&cat(&cat(&cat(&cat(&cat("ancestry grants out of order: ", &chain[index].0),
                        " granted at "), &int_string(g)), ", its child at "), &int_string(cg)), " (§5.4, fail closed)");
                    return Err(msg);
                }
            },
            None => {},
        }
        child_grant = Some(g);
        index += 1;
    }
    if chain.len() == 0 {
        return Err("empty capability ancestry (fail closed)".to_owned());
    }
    if leaf_grant < o {
        Ok(())
    } else {
        let msg = cat(&cat(&cat(&cat(&cat(&cat("operation at offset ", &int_string(o)), " precedes the grant of "),
            &chain[0].0), " at "), &int_string(leaf_grant)), " (M7 ordering)");
        Err(msg)
    }
}

// ---------------------------------------------------------------------
// Effect attribution
// ---------------------------------------------------------------------

/// The capability an effect's signed summary claims, if any.
pub open spec fn claimed_capability(body: JsonV) -> Option<Seq<char>> {
    body.at("summary"@).str_at("capability"@)
}

/// Resolve the capability claimed by one effect. Under brokered authority
/// every effect must be attributed; observed mode may carry an unattributed
/// effect (`Ok(None)`).
pub fn m7_effect_capability<'a>(brokered: bool, body: &'a Json, effect_id: &str) -> (r: Result<Option<&'a str>, String>)
    ensures
        match claimed_capability(body@) {
            Some(c) => r matches Ok(Some(x)) && x@ == c,
            None => if brokered {
                r matches Err(m) && m@ == "event "@ + effect_id@
                    + " has no capability attribution under brokered authority (M7)"@
            } else {
                r matches Ok(None)
            },
        },
{
    let cap = match body.get("summary") {
        Some(s) => s.str_at("capability"),
        None => None,
    };
    match cap {
        Some(c) => Ok(Some(c)),
        None => if brokered {
            Err(cat(&cat("event ", effect_id), " has no capability attribution under brokered authority (M7)"))
        } else {
            Ok(None)
        },
    }
}

/// The activation verdict for an attributed effect at `effect_offset`.
pub open spec fn grant_verdict(brokered: bool, cap: Seq<char>, effect: Seq<char>, effect_offset: int, grants: Seq<(Seq<char>, int)>) -> Result<(), Seq<char>> {
    if !brokered {
        Ok(())
    } else {
        match assoc_get(grants, cap) {
            Some(g) => if g < effect_offset {
                Ok(())
            } else {
                Err("event "@ + effect + " precedes the grant of "@ + cap + " (M7 ordering)"@)
            },
            None => Err("event "@ + effect + ": no verified grant event binds "@ + cap + " to this manifest (M7)"@),
        }
    }
}

/// Under brokered authority the grant of the effect's capability for this
/// manifest must precede the effect.
pub fn m7_verify_grant(brokered: bool, cap_id: &str, effect_id: &str, effect_offset: i64, grants: &Vec<(String, i64)>) -> (r: Result<(), String>)
    ensures
        match grant_verdict(brokered, cap_id@, effect_id@, effect_offset as int, offsets_view(grants@)) {
            Ok(()) => r is Ok,
            Err(m) => r matches Err(x) && x@ == m,
        },
{
    if !brokered {
        return Ok(());
    }
    match find_offset(grants, cap_id) {
        Some(k) => if grants[k].1 < effect_offset {
            Ok(())
        } else {
            Err(cat(&cat(&cat(&cat("event ", effect_id), " precedes the grant of "), cap_id), " (M7 ordering)"))
        },
        None => Err(cat(&cat(&cat(&cat("event ", effect_id), ": no verified grant event binds "), cap_id),
            " to this manifest (M7)")),
    }
}

// ---------------------------------------------------------------------
// Write paths and approval strength
// ---------------------------------------------------------------------

/// The string values of `args` at each string field name in `fields`.
pub open spec fn path_values(fields: Seq<JsonV>, args: JsonV) -> Seq<Seq<char>>
    decreases fields.len(),
{
    if fields.len() == 0 {
        Seq::empty()
    } else {
        let rest = path_values(fields.drop_first(), args);
        match fields[0] {
            JsonV::Str(f) => match args.get(f) {
                Some(JsonV::Str(v)) => seq![v] + rest,
                _ => rest,
            },
            _ => rest,
        }
    }
}

/// Write-path targets of a call: for each argument name the registration
/// declares in `path_args`, the call's string argument of that name.
pub fn extract_paths(reg: &Json, args: &Json) -> (r: Vec<String>)
    ensures
        crate::json::string_views(r@) == match reg@.at("path_args"@).as_array() {
            Some(a) => path_values(a, args@),
            None => Seq::empty(),
        },
{
    let mut out: Vec<String> = Vec::new();
    let fields = match reg.get("path_args") {
        Some(v) => match v.as_array() {
            Some(a) => a,
            None => {
                assert(crate::json::string_views(out@) =~= Seq::<Seq<char>>::empty());
                return out;
            },
        },
        None => {
            assert(crate::json::string_views(out@) =~= Seq::<Seq<char>>::empty());
            return out;
        },
    };
    let ghost fv = elems_view(fields@);
    proof { lemma_elems_view_len(fields@); }
    let mut i: usize = 0;
    assert(fv.skip(0) =~= fv);
    assert(crate::json::string_views(out@) =~= Seq::<Seq<char>>::empty());
    assert(Seq::<Seq<char>>::empty() + path_values(fv, args@) =~= path_values(fv, args@));
    while i < fields.len()
        invariant
            i <= fields.len(),
            fv == elems_view(fields@),
            fv.len() == fields.len(),
            crate::json::string_views(out@) + path_values(fv.skip(i as int), args@) == path_values(fv, args@),
        decreases fields.len() - i,
    {
        proof {
            assert(fv.skip(i as int).drop_first() =~= fv.skip(i + 1));
            assert(fv.skip(i as int)[0] == fv[i as int]);
            assert(fv[i as int] == fields@[i as int]@);
        }
        let ghost before = crate::json::string_views(out@);
        match fields[i].as_str() {
            Some(f) => match args.get(f) {
                Some(v) => match v.as_str() {
                    Some(p) => {
                        out.push(p.to_owned());
                        assert(crate::json::string_views(out@) =~= before.push(p@));
                        assert(before.push(p@) + path_values(fv.skip(i + 1), args@)
                            =~= before + (seq![p@] + path_values(fv.skip(i + 1), args@)));
                    },
                    None => {},
                },
                None => {},
            },
            None => {},
        }
        i += 1;
    }
    assert(fv.skip(fields.len() as int) =~= Seq::<JsonV>::empty());
    assert(crate::json::string_views(out@) + Seq::<Seq<char>>::empty() =~= crate::json::string_views(out@));
    out
}

/// The strongest `approval.min_auth` among `cavs` (scanned in order from
/// `best`), or the first malformed one's message. Among equally strong
/// minimums the last named wins.
pub open spec fn strongest_min_auth(cavs: Seq<JsonV>, cap_id: Seq<char>, best: Option<(u8, Seq<char>)>) -> Result<Option<(u8, Seq<char>)>, Seq<char>>
    decreases cavs.len(),
{
    if cavs.len() == 0 {
        Ok(best)
    } else if cavs[0].at("dim"@) == JsonV::Str("approval.min_auth"@) {
        match cavs[0].at("min"@).as_str() {
            None => Err("capability "@ + cap_id + " has malformed approval.min_auth"@),
            Some(m) => match spec_auth_rank(m) {
                None => Err("capability "@ + cap_id + " has unknown approval strength "@ + m),
                Some(k) => strongest_min_auth(cavs.drop_first(), cap_id, match best {
                    Some((bk, bm)) => if k >= bk {
                        Some((k, m))
                    } else {
                        Some((bk, bm))
                    },
                    None => Some((k, m)),
                }),
            },
        }
    } else {
        strongest_min_auth(cavs.drop_first(), cap_id, best)
    }
}

/// What approving under `capability` demands of the channel.
pub open spec fn required_strength(cap_id: Seq<char>, cap: JsonV) -> Result<Option<(u8, Seq<char>)>, Seq<char>> {
    match cap.at("caveats"@).as_array() {
        None => Err("capability "@ + cap_id + " has no signed caveat array"@),
        Some(cavs) => strongest_min_auth(cavs, cap_id, None),
    }
}

/// The strongest approval channel a capability demands, with its rank:
/// the highest-ranked `approval.min_auth` caveat, `None` when it has none.
pub fn w14_required_approval_strength(capability_id: &str, capability: &Json) -> (r: Result<Option<(u8, String)>, BrokerError>)
    ensures
        match required_strength(capability_id@, capability@) {
            Ok(None) => r matches Ok(None),
            Ok(Some((k, m))) => r matches Ok(Some((k2, m2))) && k2 == k && m2@ == m,
            Err(msg) => r matches Err(BrokerError::GateTraceViolation(x)) && x@ == msg,
        },
{
    let cavs = match capability.get("caveats") {
        Some(c) => match c.as_array() {
            Some(a) => a,
            None => return Err(BrokerError::GateTraceViolation(cat(&cat("capability ", capability_id), " has no signed caveat array"))),
        },
        None => return Err(BrokerError::GateTraceViolation(cat(&cat("capability ", capability_id), " has no signed caveat array"))),
    };
    let ghost cv = elems_view(cavs@);
    proof { lemma_elems_view_len(cavs@); }
    let mut best: Option<(u8, String)> = None;
    let mut i: usize = 0;
    assert(cv.skip(0) =~= cv);
    while i < cavs.len()
        invariant
            i <= cavs.len(),
            cv == elems_view(cavs@),
            cv.len() == cavs.len(),
            strongest_min_auth(cv, capability_id@, None) == strongest_min_auth(cv.skip(i as int), capability_id@,
                match best { Some((k, m)) => Some((k, m@)), None => None }),
        decreases cavs.len() - i,
    {
        proof {
            assert(cv.skip(i as int).drop_first() =~= cv.skip(i + 1));
            assert(cv.skip(i as int)[0] == cavs@[i as int]@);
        }
        let cav = &cavs[i];
        let is_min_auth = match cav.get("dim") {
            Some(d) => crate::json::json_is_str(d, "approval.min_auth"),
            None => false,
        };
        if is_min_auth {
            let minimum = match cav.get("min") {
                Some(m) => match m.as_str() {
                    Some(s) => s,
                    None => return Err(BrokerError::GateTraceViolation(cat(&cat("capability ", capability_id), " has malformed approval.min_auth"))),
                },
                None => return Err(BrokerError::GateTraceViolation(cat(&cat("capability ", capability_id), " has malformed approval.min_auth"))),
            };
            let rank = match auth_rank(minimum) {
                Some(k) => k,
                None => return Err(BrokerError::GateTraceViolation(cat(&cat(&cat("capability ", capability_id), " has unknown approval strength "), minimum))),
            };
            best = match best {
                Some((bk, bm)) => if rank >= bk {
                    Some((rank, minimum.to_owned()))
                } else {
                    Some((bk, bm))
                },
                None => Some((rank, minimum.to_owned())),
            };
        }
        i += 1;
    }
    Ok(best)
}

/// The verdict on approving at `auth` under `cap`.
pub open spec fn require_strength(cap_id: Seq<char>, cap: JsonV, auth: Seq<char>) -> Result<(), BrokerErrV> {
    match required_strength(cap_id, cap) {
        Ok(None) => Ok(()),
        Ok(Some((k, m))) => match spec_auth_rank(auth) {
            Some(h) => if h >= k {
                Ok(())
            } else {
                Err(BrokerErrV::TooWeak { have: auth, need: m })
            },
            None => Err(BrokerErrV::TooWeak { have: auth, need: m }),
        },
        Err(msg) => Err(BrokerErrV::Violation(msg)),
    }
}

/// Whether an approval at `auth_strength` meets what the capability
/// demands; `ChannelTooWeak` when it does not (an unknown strength is
/// weaker than any demand).
pub fn w14_require_approval_strength(capability_id: &str, capability: &Json, auth_strength: &str) -> (r: Result<(), BrokerError>)
    ensures
        match required_strength(capability_id@, capability@) {
            Ok(None) => r is Ok,
            Ok(Some((k, m))) => match spec_auth_rank(auth_strength@) {
                Some(h) => if h >= k {
                    r is Ok
                } else {
                    r matches Err(BrokerError::ChannelTooWeak { have, need }) && have@ == auth_strength@ && need@ == m
                },
                None => r matches Err(BrokerError::ChannelTooWeak { have, need }) && have@ == auth_strength@ && need@ == m,
            },
            Err(msg) => r matches Err(BrokerError::GateTraceViolation(x)) && x@ == msg,
        },
        match require_strength(capability_id@, capability@, auth_strength@) {
            Ok(()) => r is Ok,
            Err(e) => r matches Err(x) && x.view() == e,
        },
{
    let (need_rank, need) = match w14_required_approval_strength(capability_id, capability) {
        Ok(Some(p)) => p,
        Ok(None) => return Ok(()),
        Err(e) => return Err(e),
    };
    match auth_rank(auth_strength) {
        Some(have_rank) => if have_rank >= need_rank {
            Ok(())
        } else {
            Err(BrokerError::ChannelTooWeak { have: auth_strength.to_owned(), need })
        },
        None => Err(BrokerError::ChannelTooWeak { have: auth_strength.to_owned(), need }),
    }
}

// ---------------------------------------------------------------------
// Capability ancestry
// ---------------------------------------------------------------------

/// Capability objects as the verified loader returned them, by id: the
/// signed object, or the loader's message for an object that is present
/// but fails verification, has the wrong namespace or the wrong kind.
pub open spec fn caps_view(c: Seq<(String, Result<Json, String>)>) -> Seq<(Seq<char>, Result<JsonV, Seq<char>>)> {
    c.map_values(|p: (String, Result<Json, String>)| (p.0@, match p.1 {
        Ok(j) => Ok(j@),
        Err(e) => Err(e@),
    }))
}

/// Loading capability `id` from the table: absent ids are not found.
pub open spec fn cap_lookup(caps: Seq<(Seq<char>, Result<JsonV, Seq<char>>)>, id: Seq<char>) -> Result<JsonV, Seq<char>> {
    match assoc_get(caps, id) {
        Some(r) => r,
        None => Err("object "@ + id + " not found"@),
    }
}

/// Index of the first table entry for `id`.
fn find_cap(caps: &Vec<(String, Result<Json, String>)>, id: &str) -> (r: Option<usize>)
    ensures
        match r {
            Some(i) => i < caps.len() && caps_view(caps@)[i as int].0 == id@
                && assoc_get(caps_view(caps@), id@) == Some(caps_view(caps@)[i as int].1),
            None => assoc_get(caps_view(caps@), id@) is None,
        },
{
    let ghost v = caps_view(caps@);
    let mut i: usize = 0;
    while i < caps.len()
        invariant
            i <= caps.len(),
            v == caps_view(caps@),
            forall|j: int| 0 <= j < i ==> (#[trigger] v[j]).0 != id@,
        decreases caps.len() - i,
    {
        if str_eq(&caps[i].0, id) {
            proof { lemma_assoc_first(v, id@, i as int); }
            return Some(i);
        }
        i += 1;
    }
    proof { lemma_assoc_none(v, id@); }
    None
}

/// Load capability `id` from the table.
pub fn load_capability<'a>(caps: &'a Vec<(String, Result<Json, String>)>, id: &str) -> (r: Result<&'a Json, String>)
    ensures
        match cap_lookup(caps_view(caps@), id@) {
            Ok(o) => r matches Ok(x) && x@ == o,
            Err(e) => r matches Err(x) && x@ == e,
        },
{
    match find_cap(caps, id) {
        Some(i) => match &caps[i].1 {
            Ok(j) => Ok(j),
            Err(e) => Err(e.clone()),
        },
        None => Err(cat(&cat("object ", id), " not found")),
    }
}

/// The walk from `cur` towards the root through signed `parent` links,
/// leaf first: each hop is (id, bound manifest). A revisited id is a cycle;
/// every hop must load and carry a bound manifest. `fuel` bounds the walk
/// by the size of the table: a longer walk must revisit an id.
pub open spec fn ancestry_walk(
    caps: Seq<(Seq<char>, Result<JsonV, Seq<char>>)>,
    root: Seq<char>,
    cur: Seq<char>,
    seen: Seq<Seq<char>>,
    fuel: nat,
) -> Result<Seq<(Seq<char>, Seq<char>)>, Seq<char>>
    decreases fuel,
{
    if seen.contains(cur) {
        Err("ancestry of "@ + root + " contains a cycle at "@ + cur + " (fail closed)"@)
    } else {
        match cap_lookup(caps, cur) {
            Err(e) => Err("capability "@ + cur + " in ancestry of "@ + root + " unavailable or mistyped: "@ + e
                + " (fail closed)"@),
            Ok(obj) => match obj.str_at("bound_manifest"@) {
                None => Err("capability "@ + cur + " has no bound_manifest (fail closed)"@),
                Some(m) => match obj.str_at("parent"@) {
                    None => Ok(seq![(cur, m)]),
                    Some(p) => if fuel == 0 {
                        Err("ancestry of "@ + root + " contains a cycle at "@ + p + " (fail closed)"@)
                    } else {
                        match ancestry_walk(caps, root, p, seen.push(cur), (fuel - 1) as nat) {
                            Ok(rest) => Ok(seq![(cur, m)] + rest),
                            Err(e) => Err(e),
                        }
                    },
                },
            },
        }
    }
}

/// The ancestry of `cap_id`, leaf first, root last.
pub open spec fn ancestry(caps: Seq<(Seq<char>, Result<JsonV, Seq<char>>)>, cap_id: Seq<char>) -> Result<Seq<(Seq<char>, Seq<char>)>, Seq<char>> {
    ancestry_walk(caps, cap_id, cap_id, Seq::empty(), caps.len())
}

pub open spec fn prefix_then(pre: Seq<(Seq<char>, Seq<char>)>, r: Result<Seq<(Seq<char>, Seq<char>)>, Seq<char>>) -> Result<Seq<(Seq<char>, Seq<char>)>, Seq<char>> {
    match r {
        Ok(rest) => Ok(pre + rest),
        Err(e) => Err(e),
    }
}

/// Fetch the verified attenuation ancestry of `cap_id`, leaf first, root
/// last — (id, bound manifest) per hop. Fails closed on a missing or
/// unverifiable link, a link without a bound manifest, and a parent cycle.
pub fn a22_ancestry(caps: &Vec<(String, Result<Json, String>)>, cap_id: &str) -> (r: Result<Vec<(String, String)>, String>)
    ensures
        match ancestry(caps_view(caps@), cap_id@) {
            Ok(c) => r matches Ok(x) && chain_view(x@) == c,
            Err(e) => r matches Err(x) && x@ == e,
        },
{
    let ghost cv = caps_view(caps@);
    let ghost n: nat = caps.len() as nat;
    let mut chain: Vec<(String, String)> = Vec::new();
    let mut seen: Vec<String> = Vec::new();
    let mut cur: String = cap_id.to_owned();
    let ghost mut idx: Set<int> = Set::empty();
    proof {
        assert(chain_view(chain@) =~= Seq::<(Seq<char>, Seq<char>)>::empty());
        assert(Seq::<(Seq<char>, Seq<char>)>::empty() + Seq::<(Seq<char>, Seq<char>)>::empty() =~= Seq::<(Seq<char>, Seq<char>)>::empty());
        assert(crate::json::string_views(seen@) =~= Seq::<Seq<char>>::empty());
        match ancestry_walk(cv, cap_id@, cap_id@, Seq::empty(), n) {
            Ok(rest) => assert(Seq::<(Seq<char>, Seq<char>)>::empty() + rest =~= rest),
            Err(_) => {},
        }
    }
    loop
        invariant
            cv == caps_view(caps@),
            n == caps.len(),
            seen.len() == chain.len(),
            seen.len() <= n,
            ancestry(cv, cap_id@) == prefix_then(chain_view(chain@),
                ancestry_walk(cv, cap_id@, cur@, crate::json::string_views(seen@), (n - seen.len()) as nat)),
            forall|k: int| 0 <= k < seen.len() ==> (#[trigger] seen@[k])@ == chain_view(chain@)[k].0,
            idx.finite(),
            idx.len() == seen.len(),
            idx.subset_of(vstd::set_lib::set_int_range(0, n as int)),
            forall|k: int| #[trigger] idx.contains(k) ==> crate::json::string_views(seen@).contains(cv[k].0),
        decreases n - seen.len(),
    {
        let ghost sv = crate::json::string_views(seen@);
        let mut in_seen = false;
        let mut k: usize = 0;
        while k < seen.len()
            invariant
                k <= seen.len(),
                sv == crate::json::string_views(seen@),
                in_seen == (exists|j: int| 0 <= j < k && sv[j] == cur@),
            decreases seen.len() - k,
        {
            let eq = str_eq(&seen[k], &cur);
            proof {
                assert(sv[k as int] == seen@[k as int]@);
                if sv[k as int] == cur@ {
                    assert(0 <= k < k + 1 && sv[k as int] == cur@);
                }
                assert((exists|j: int| 0 <= j < k + 1 && sv[j] == cur@) == ((exists|j: int| 0 <= j < k && sv[j] == cur@)
                    || sv[k as int] == cur@));
            }
            if eq {
                in_seen = true;
            }
            k += 1;
        }
        if in_seen {
            return Err(cat(&cat(&cat(&cat("ancestry of ", cap_id), " contains a cycle at "), &cur), " (fail closed)"));
        }
        assert(!sv.contains(cur@));
        let j = match find_cap(caps, &cur) {
            Some(j) => j,
            None => {
                return Err(cat(&cat(&cat(&cat(&cat(&cat("capability ", &cur), " in ancestry of "), cap_id),
                    " unavailable or mistyped: "), &cat(&cat("object ", &cur), " not found")), " (fail closed)"));
            },
        };
        let obj = match &caps[j].1 {
            Ok(o) => o,
            Err(e) => {
                return Err(cat(&cat(&cat(&cat(&cat(&cat("capability ", &cur), " in ancestry of "), cap_id),
                    " unavailable or mistyped: "), e), " (fail closed)"));
            },
        };
        let man = match obj.str_at("bound_manifest") {
            Some(m) => m.to_owned(),
            None => return Err(cat(&cat("capability ", &cur), " has no bound_manifest (fail closed)")),
        };
        let parent = obj.str_at("parent");
        proof {
            assert(!idx.contains(j as int));
            vstd::set_lib::lemma_int_range(0, n as int);
            assert(idx.insert(j as int).subset_of(vstd::set_lib::set_int_range(0, n as int)));
            vstd::set_lib::lemma_len_subset(idx.insert(j as int), vstd::set_lib::set_int_range(0, n as int));
        }
        let ghost old_chain = chain_view(chain@);
        let ghost old_seen = sv;
        let ghost old_cur = cur@;
        chain.push((cur.clone(), man.clone()));
        seen.push(cur.clone());
        proof {
            idx = idx.insert(j as int);
            assert(crate::json::string_views(seen@) =~= old_seen.push(old_cur));
            assert(chain_view(chain@) =~= old_chain.push((old_cur, man@)));
            assert forall|q: int| #[trigger] idx.contains(q) implies crate::json::string_views(seen@).contains(cv[q].0) by {
                if q == j as int {
                    assert(crate::json::string_views(seen@)[old_seen.len() as int] == old_cur);
                } else {
                    let w = choose|w: int| 0 <= w < old_seen.len() && old_seen[w] == cv[q].0;
                    assert(crate::json::string_views(seen@)[w] == cv[q].0);
                }
            }
        }
        match parent {
            None => {
                proof {
                    assert(old_chain + seq![(old_cur, man@)] =~= chain_view(chain@));
                }
                return Ok(chain);
            },
            Some(p) => {
                proof {
                    let rest = ancestry_walk(cv, cap_id@, p@, old_seen.push(old_cur), (n - seen.len()) as nat);
                    match rest {
                        Ok(r2) => assert(old_chain + (seq![(old_cur, man@)] + r2) =~= chain_view(chain@) + r2),
                        Err(_) => {},
                    }
                }
                cur = p.to_owned();
            },
        }
    }
}

// ---------------------------------------------------------------------
// Keyed counters for the replay ledgers
// ---------------------------------------------------------------------

/// A (capability, caveat key) pair.
pub type CapKey = (Seq<char>, Seq<char>);

/// The index of the first entry keyed `k`, or -1.
pub open spec fn key_index<K, V>(m: Seq<(K, V)>, k: K) -> int
    decreases m.len(),
{
    if m.len() == 0 {
        -1
    } else {
        let i = key_index(m.drop_last(), k);
        if i >= 0 {
            i
        } else if m.last().0 == k {
            m.len() - 1
        } else {
            -1
        }
    }
}

pub proof fn lemma_key_index_none<K, V>(m: Seq<(K, V)>, k: K)
    requires
        forall|j: int| 0 <= j < m.len() ==> (#[trigger] m[j]).0 != k,
    ensures
        key_index(m, k) == -1,
    decreases m.len(),
{
    if m.len() > 0 {
        lemma_key_index_none(m.drop_last(), k);
    }
}

pub proof fn lemma_key_index_first<K, V>(m: Seq<(K, V)>, k: K, i: int)
    requires
        0 <= i < m.len(),
        m[i].0 == k,
        forall|j: int| 0 <= j < i ==> (#[trigger] m[j]).0 != k,
    ensures
        key_index(m, k) == i,
    decreases m.len(),
{
    if i < m.len() - 1 {
        lemma_key_index_first(m.drop_last(), k, i);
    } else {
        lemma_key_index_none(m.drop_last(), k);
    }
}

/// Counters keyed by (capability, caveat key).
pub open spec fn counters_view<V>(s: Seq<((String, String), V)>) -> Seq<(CapKey, V)> {
    s.map_values(|p: ((String, String), V)| ((p.0.0@, p.0.1@), p.1))
}

/// Index of the first counter keyed `(cap, key)`.
fn find_counter<V>(s: &Vec<((String, String), V)>, cap: &str, key: &str) -> (r: Option<usize>)
    ensures
        match r {
            Some(i) => i < s.len() && key_index(counters_view(s@), (cap@, key@)) == i,
            None => key_index(counters_view(s@), (cap@, key@)) == -1,
        },
{
    let ghost v = counters_view(s@);
    let ghost k = (cap@, key@);
    let mut i: usize = 0;
    while i < s.len()
        invariant
            i <= s.len(),
            v == counters_view(s@),
            k == (cap@, key@),
            forall|j: int| 0 <= j < i ==> (#[trigger] v[j]).0 != k,
        decreases s.len() - i,
    {
        if str_eq(&s[i].0.0, cap) && str_eq(&s[i].0.1, key) {
            proof { lemma_key_index_first(v, k, i as int); }
            return Some(i);
        }
        i += 1;
    }
    proof { lemma_key_index_none(v, k); }
    None
}

/// `u` more approved uses under `k` (capped at the largest `i64`).
pub open spec fn add_uses(m: Seq<(CapKey, i64)>, k: CapKey, u: i64) -> Seq<(CapKey, i64)> {
    let i = key_index(m, k);
    if i >= 0 {
        m.update(i, (k, if m[i].1 + u > i64::MAX { i64::MAX } else { (m[i].1 + u) as i64 }))
    } else {
        m.push((k, u))
    }
}

/// One more use of the budget counter `k` (capped at the largest `u64`).
pub open spec fn bump_counter<K>(m: Seq<(K, u64)>, k: K) -> Seq<(K, u64)> {
    let i = key_index(m, k);
    if i >= 0 {
        m.update(i, (k, if m[i].1 < u64::MAX { (m[i].1 + 1) as u64 } else { m[i].1 }))
    } else {
        m.push((k, 1u64))
    }
}

/// One approved use of `k` spent, if `k` has an entry.
pub open spec fn spend_use(m: Seq<(CapKey, i64)>, k: CapKey) -> Seq<(CapKey, i64)> {
    let i = key_index(m, k);
    if i >= 0 {
        m.update(i, (k, if m[i].1 > i64::MIN { (m[i].1 - 1) as i64 } else { m[i].1 }))
    } else {
        m
    }
}

// ---------------------------------------------------------------------
// The substrate views a promotion replays against
// ---------------------------------------------------------------------

/// Unicode `White_Space`, as `char::is_whitespace` tests it.
pub open spec fn is_white_space(c: char) -> bool {
    c == ' ' || ('\u{9}' <= c && c <= '\u{d}') || c == '\u{85}' || c == '\u{a0}' || c == '\u{1680}'
        || ('\u{2000}' <= c && c <= '\u{200a}') || c == '\u{2028}' || c == '\u{2029}' || c == '\u{202f}'
        || c == '\u{205f}' || c == '\u{3000}'
}

/// Nothing but white space (what trims to the empty string).
pub open spec fn blank(s: Seq<char>) -> bool {
    forall|i: int| 0 <= i < s.len() ==> is_white_space(#[trigger] s[i])
}

fn white_space(c: char) -> (r: bool)
    ensures
        r == is_white_space(c),
{
    c == ' ' || ('\u{9}' <= c && c <= '\u{d}') || c == '\u{85}' || c == '\u{a0}' || c == '\u{1680}'
        || ('\u{2000}' <= c && c <= '\u{200a}') || c == '\u{2028}' || c == '\u{2029}' || c == '\u{202f}'
        || c == '\u{205f}' || c == '\u{3000}'
}

/// Whether `s` trims to the empty string.
pub fn is_blank(s: &str) -> (r: bool)
    ensures
        r == blank(s@),
{
    let cs = chars_of(s);
    let mut i: usize = 0;
    while i < cs.len()
        invariant
            i <= cs.len(),
            cs@ == s@,
            forall|j: int| 0 <= j < i ==> is_white_space(#[trigger] cs@[j]),
        decreases cs.len() - i,
    {
        if !white_space(cs[i]) {
            return false;
        }
        i += 1;
    }
    true
}

/// `s`, or `null` when absent.
pub open spec fn or_null(s: Option<Seq<char>>) -> Seq<char> {
    match s {
        Some(x) => x,
        None => "null"@,
    }
}

/// What one verified event says about closure integrity: every anomaly of
/// a revoke (a missing target, emission off the fabric-lifetime span, a
/// stamped manifest other than the target's, an unloadable target, unpaired
/// channel provenance, a missing or blank reason). Closure holds regardless.
pub open spec fn revoke_anomalies(e: EventV, substrate: Seq<char>, caps: Seq<(Seq<char>, Result<JsonV, Seq<char>>)>) -> Seq<Seq<char>> {
    if e.kind != "revoke"@ {
        Seq::empty()
    } else {
        let body = e.raw.at("body"@);
        match body.str_at("capability"@) {
            None => seq!["revoke "@ + e.id + " names no capability — it closes nothing (§5.4)"@],
            Some(t) => {
                let span_part = if e.span != substrate {
                    seq!["revoke "@ + e.id + " of "@ + t + " emitted on span "@ + e.span
                        + " instead of the fabric-lifetime span — closure holds (§5.4)"@]
                } else {
                    Seq::empty()
                };
                let load_part = match cap_lookup(caps, t) {
                    Ok(obj) => match obj.str_at("bound_manifest"@) {
                        Some(b) => if e.raw.str_at("manifest"@) != Some(b) {
                            seq!["revoke "@ + e.id + " stamps manifest "@ + or_null(e.raw.str_at("manifest"@)) + " but "@
                                + t + " is bound to "@ + b + " — closure holds (§5.4)"@]
                        } else {
                            Seq::empty()
                        },
                        None => Seq::empty(),
                    },
                    Err(err) => seq!["revoke "@ + e.id + " targets unavailable, mistyped, or unverifiable capability "@ + t
                        + ": "@ + err + " — closure holds (§5.4)"@],
                };
                let chan = body.str_at("channel"@);
                let auth = body.str_at("auth_strength"@);
                let prov_part = if (chan is Some) != (auth is Some) {
                    seq!["revoke "@ + e.id + " of "@ + t + " has unpaired C1 provenance (channel "@ + or_null(chan)
                        + ", auth_strength "@ + or_null(auth) + ") — closure holds (§5.4)"@]
                } else {
                    Seq::empty()
                };
                let reason_part = match body.str_at("reason"@) {
                    Some(r) => if blank(r) {
                        seq!["revoke "@ + e.id + " of "@ + t + " carries no reason — closure holds (§5.4)"@]
                    } else {
                        Seq::empty()
                    },
                    None => seq!["revoke "@ + e.id + " of "@ + t + " carries no reason — closure holds (§5.4)"@],
                };
                span_part + load_part + prov_part + reason_part
            },
        }
    }
}

/// The closure anomalies of a substrate, in event order.
pub open spec fn closure_anomalies(evs: Seq<EventV>, substrate: Seq<char>, caps: Seq<(Seq<char>, Result<JsonV, Seq<char>>)>) -> Seq<Seq<char>>
    decreases evs.len(),
{
    if evs.len() == 0 {
        Seq::empty()
    } else {
        closure_anomalies(evs.drop_last(), substrate, caps) + revoke_anomalies(evs.last(), substrate, caps)
    }
}

fn opt_str_or_null(o: Option<&str>) -> (r: String)
    ensures
        r@ == or_null(match o { Some(s) => Some(s@), None => None }),
{
    match o {
        Some(s) => s.to_owned(),
        None => "null".to_owned(),
    }
}

fn opt_str_same(a: Option<&str>, b: Option<&str>) -> (r: bool)
    ensures
        r == ((match a { Some(s) => Some(s@), None => None }) == (match b { Some(s) => Some(s@), None => None })),
{
    match (a, b) {
        (Some(x), Some(y)) => str_eq(x, y),
        (None, None) => true,
        _ => false,
    }
}

/// Append the closure anomalies of one event.
fn push_revoke_anomalies(out: &mut Vec<String>, e: &VerifiedEvent, substrate: &str, caps: &Vec<(String, Result<Json, String>)>)
    ensures
        crate::json::string_views(final(out)@) == crate::json::string_views(old(out)@)
            + revoke_anomalies(e.view(), substrate@, caps_view(caps@)),
{
    let ghost start = crate::json::string_views(out@);
    if !str_eq(&e.kind, "revoke") {
        assert(crate::json::string_views(out@) =~= start + Seq::<Seq<char>>::empty());
        return;
    }
    let target = match body_str(e, "capability") {
        Some(t) => t,
        None => {
            out.push(cat(&cat("revoke ", &e.id), " names no capability — it closes nothing (§5.4)"));
            assert(crate::json::string_views(out@) =~= start + revoke_anomalies(e.view(), substrate@, caps_view(caps@)));
            return;
        },
    };
    let ghost sp: Seq<Seq<char>>;
    if !str_eq(&e.span, substrate) {
        out.push(cat(&cat(&cat(&cat(&cat(&cat("revoke ", &e.id), " of "), target), " emitted on span "), &e.span),
            " instead of the fabric-lifetime span — closure holds (§5.4)"));
        proof {
            sp = seq!["revoke "@ + e.id@ + " of "@ + target@ + " emitted on span "@ + e.span@
                + " instead of the fabric-lifetime span — closure holds (§5.4)"@];
        }
    } else {
        proof { sp = Seq::empty(); }
    }
    assert(crate::json::string_views(out@) =~= start + sp);
    let ghost s1 = crate::json::string_views(out@);
    let ghost lp: Seq<Seq<char>>;
    match load_capability(caps, target) {
        Ok(obj) => {
            let bound = obj.str_at("bound_manifest");
            let stamped = e.raw.str_at("manifest");
            match bound {
                Some(b) => {
                    if !opt_str_same(stamped, Some(b)) {
                        out.push(cat(&cat(&cat(&cat(&cat(&cat(&cat(&cat("revoke ", &e.id), " stamps manifest "),
                            &opt_str_or_null(stamped)), " but "), target), " is bound to "), b), " — closure holds (§5.4)"));
                        proof {
                            lp = seq!["revoke "@ + e.id@ + " stamps manifest "@ + or_null(e.raw@.str_at("manifest"@)) + " but "@
                                + target@ + " is bound to "@ + b@ + " — closure holds (§5.4)"@];
                        }
                    } else {
                        proof { lp = Seq::empty(); }
                    }
                },
                None => {
                    proof { lp = Seq::empty(); }
                },
            }
        },
        Err(err) => {
            out.push(cat(&cat(&cat(&cat(&cat(&cat("revoke ", &e.id), " targets unavailable, mistyped, or unverifiable capability "),
                target), ": "), &err), " — closure holds (§5.4)"));
            proof {
                lp = seq!["revoke "@ + e.id@ + " targets unavailable, mistyped, or unverifiable capability "@ + target@
                    + ": "@ + err@ + " — closure holds (§5.4)"@];
            }
        },
    }
    assert(crate::json::string_views(out@) =~= s1 + lp);
    let ghost s2 = crate::json::string_views(out@);
    let chan = body_str(e, "channel");
    let auth = body_str(e, "auth_strength");
    let ghost pp: Seq<Seq<char>>;
    if chan.is_some() != auth.is_some() {
        out.push(cat(&cat(&cat(&cat(&cat(&cat(&cat(&cat("revoke ", &e.id), " of "), target), " has unpaired C1 provenance (channel "),
            &opt_str_or_null(chan)), ", auth_strength "), &opt_str_or_null(auth)), ") — closure holds (§5.4)"));
        proof {
            pp = seq!["revoke "@ + e.id@ + " of "@ + target@ + " has unpaired C1 provenance (channel "@
                + or_null(e.raw@.at("body"@).str_at("channel"@)) + ", auth_strength "@
                + or_null(e.raw@.at("body"@).str_at("auth_strength"@)) + ") — closure holds (§5.4)"@];
        }
    } else {
        proof { pp = Seq::empty(); }
    }
    assert(crate::json::string_views(out@) =~= s2 + pp);
    let ghost s3 = crate::json::string_views(out@);
    let no_reason = match body_str(e, "reason") {
        Some(r) => is_blank(r),
        None => true,
    };
    let ghost rp: Seq<Seq<char>>;
    if no_reason {
        out.push(cat(&cat(&cat(&cat("revoke ", &e.id), " of "), target), " carries no reason — closure holds (§5.4)"));
        proof {
            rp = seq!["revoke "@ + e.id@ + " of "@ + target@ + " carries no reason — closure holds (§5.4)"@];
        }
    } else {
        proof { rp = Seq::empty(); }
    }
    assert(crate::json::string_views(out@) =~= s3 + rp);
    assert(sp + lp + pp + rp == revoke_anomalies(e.view(), substrate@, caps_view(caps@)));
    assert(crate::json::string_views(out@) =~= start + (sp + lp + pp + rp));
}

/// The approved headroom one event grants: a signed approval on the
/// substrate span, resolving an escalation, with its capability, caveat key
/// and a positive number of uses.
pub open spec fn approval_grant(e: EventV, substrate: Seq<char>) -> Option<(CapKey, i64)> {
    let body = e.raw.at("body"@);
    if e.span == substrate && e.kind == "approval"@ && body.at("resolution"@) == JsonV::Str("approved"@)
        && body.get("escalation"@) is Some {
        match (body.str_at("capability"@), body.str_at("caveat"@), body.at("uses"@).as_i64()) {
            (Some(c), Some(k), Some(u)) => if u > 0 {
                Some(((c, k), u))
            } else {
                None
            },
            _ => None,
        }
    } else {
        None
    }
}

/// Approved uses per (capability, caveat key), summed over the substrate.
pub open spec fn approved_headroom(evs: Seq<EventV>, substrate: Seq<char>) -> Seq<(CapKey, i64)>
    decreases evs.len(),
{
    if evs.len() == 0 {
        Seq::empty()
    } else {
        let m = approved_headroom(evs.drop_last(), substrate);
        match approval_grant(evs.last(), substrate) {
            Some((k, u)) => add_uses(m, k, u),
            None => m,
        }
    }
}

fn approved_headroom_of(events: &Vec<VerifiedEvent>, substrate: &str) -> (r: Vec<((String, String), i64)>)
    ensures
        counters_view(r@) == approved_headroom(events_view(events@), substrate@),
{
    let ghost ev = events_view(events@);
    let mut approved: Vec<((String, String), i64)> = Vec::new();
    let mut i: usize = 0;
    assert(counters_view(approved@) =~= Seq::<(CapKey, i64)>::empty());
    while i < events.len()
        invariant
            i <= events.len(),
            ev == events_view(events@),
            counters_view(approved@) == approved_headroom(ev.subrange(0, i as int), substrate@),
        decreases events.len() - i,
    {
        proof { assert(ev.subrange(0, i + 1).drop_last() =~= ev.subrange(0, i as int)); }
        let e = &events[i];
        let eligible = str_eq(&e.span, substrate) && str_eq(&e.kind, "approval") && match body_of(e) {
            Some(b) => {
                let resolved = match b.get("resolution") {
                    Some(r) => crate::json::json_is_str(r, "approved"),
                    None => false,
                };
                resolved && b.get("escalation").is_some()
            },
            None => false,
        };
        proof {
            assert(JsonV::Null.get("escalation"@) is None);
            assert(JsonV::Null.at("resolution"@) == JsonV::Null);
        }
        if eligible {
            let cap = body_str(e, "capability");
            let key = body_str(e, "caveat");
            let uses = match body_of(e) {
                Some(b) => match b.get("uses") {
                    Some(u) => u.as_i64(),
                    None => None,
                },
                None => None,
            };
            match (cap, key, uses) {
                (Some(c), Some(k), Some(u)) => {
                    if u > 0 {
                        let ghost before = counters_view(approved@);
                        match find_counter(&approved, c, k) {
                            Some(j) => {
                                let cur = approved[j].1;
                                let next = match cur.checked_add(u) {
                                    Some(v) => v,
                                    None => i64::MAX,
                                };
                                approved.set(j, ((c.to_owned(), k.to_owned()), next));
                                assert(counters_view(approved@) =~= add_uses(before, (c@, k@), u));
                            },
                            None => {
                                approved.push(((c.to_owned(), k.to_owned()), u));
                                assert(counters_view(approved@) =~= add_uses(before, (c@, k@), u));
                            },
                        }
                    }
                },
                _ => {},
            }
        }
        i += 1;
    }
    assert(ev.subrange(0, events.len() as int) =~= ev);
    approved
}

// ---------------------------------------------------------------------
// Promotion replay: the recorded trace against the authority behind it
// ---------------------------------------------------------------------

/// Replay state: budget consumption and remaining approved headroom per
/// (capability, caveat key), the number of tool calls and of unattributed
/// ones, and the capabilities checked.
pub struct ReplayV {
    pub meters: Seq<(CapKey, u64)>,
    pub approved: Seq<(CapKey, i64)>,
    pub tool_calls: int,
    pub unattributed: int,
    pub caps: Set<Seq<char>>,
}

/// What a replay checks against: the manifest's authority mode and id, the
/// capability and tool tables, and the activation and closure views.
pub struct GateEnv {
    pub brokered: bool,
    pub manifest: Seq<char>,
    pub caps: Seq<(Seq<char>, Result<JsonV, Seq<char>>)>,
    pub tools: Seq<JsonV>,
    pub grants: Seq<(Seq<char>, int)>,
    pub bindings: Seq<(BindingKey, int)>,
    pub revokes: Seq<(Seq<char>, int)>,
}

/// The prior consumption a capability's budget checks see.
pub open spec fn meters_for(m: Seq<(CapKey, u64)>, cap: Seq<char>) -> Seq<(Seq<char>, u64)>
    decreases m.len(),
{
    if m.len() == 0 {
        Seq::empty()
    } else {
        let r = meters_for(m.drop_last(), cap);
        if m.last().0.0 == cap {
            r.push((m.last().0.1, m.last().1))
        } else {
            r
        }
    }
}

/// The approval exemptions a capability's checks may use: every caveat key
/// with approved headroom left.
pub open spec fn exemptions_for(a: Seq<(CapKey, i64)>, cap: Seq<char>) -> Seq<(Seq<char>, Seq<char>)>
    decreases a.len(),
{
    if a.len() == 0 {
        Seq::empty()
    } else {
        let r = exemptions_for(a.drop_last(), cap);
        if a.last().0.0 == cap && a.last().1 > 0 {
            r.push((a.last().0.1, "signed-approval"@))
        } else {
            r
        }
    }
}

/// A budget check that counts: a `budget.count:` key whose meter does not
/// say it does not apply.
pub open spec fn counts_budget(c: CheckV) -> bool {
    has_prefix(c.caveat, "budget.count:"@) && c.meter.get("applies"@) != Some(JsonV::Bool(false))
}

/// Budget consumption after an allowed call with `checks`.
pub open spec fn bump_checks(m: Seq<(CapKey, u64)>, cap: Seq<char>, checks: Seq<CheckV>) -> Seq<(CapKey, u64)>
    decreases checks.len(),
{
    if checks.len() == 0 {
        m
    } else {
        let m2 = bump_checks(m, cap, checks.drop_last());
        if counts_budget(checks.last()) {
            bump_counter(m2, (cap, checks.last().caveat))
        } else {
            m2
        }
    }
}

/// Approved headroom after an allowed call consumed `consumed`.
pub open spec fn spend_all(a: Seq<(CapKey, i64)>, cap: Seq<char>, consumed: Seq<(Seq<char>, Seq<char>)>) -> Seq<(CapKey, i64)>
    decreases consumed.len(),
{
    if consumed.len() == 0 {
        a
    } else {
        spend_use(spend_all(a, cap, consumed.drop_last()), (cap, consumed.last().0))
    }
}

/// Names joined by `, `.
pub open spec fn join_comma(s: Seq<Seq<char>>) -> Seq<char>
    decreases s.len(),
{
    if s.len() == 0 {
        Seq::empty()
    } else if s.len() == 1 {
        s[0]
    } else {
        join_comma(s.drop_last()) + ", "@ + s.last()
    }
}

fn join_strings(v: &Vec<String>) -> (r: String)
    ensures
        r@ == join_comma(string_views(v@)),
{
    let ghost sv = string_views(v@);
    let mut out = String::new();
    let mut i: usize = 0;
    assert(sv.subrange(0, 0) =~= Seq::<Seq<char>>::empty());
    while i < v.len()
        invariant
            i <= v.len(),
            sv == string_views(v@),
            out@ == join_comma(sv.subrange(0, i as int)),
        decreases v.len() - i,
    {
        proof { assert(sv.subrange(0, i + 1).drop_last() =~= sv.subrange(0, i as int)); }
        if i == 0 {
            out = v[0].clone();
        } else {
            out = cat(&cat(&out, ", "), &v[i]);
        }
        i += 1;
    }
    assert(sv.subrange(0, v.len() as int) =~= sv);
    out
}

/// The text of `s`, or `""` when absent.
pub open spec fn or_empty(s: Option<Seq<char>>) -> Seq<char> {
    match s {
        Some(x) => x,
        None => ""@,
    }
}

/// The call context a recorded tool call is replayed under: the registered
/// action supplies class, reversibility and side effect (conservative
/// defaults where absent); the signed summary supplies only the
/// broker-extracted write paths; the clock is the event's signed `at`.
pub open spec fn replay_ctx(body: JsonV, reg: JsonV, at: Seq<char>, manifest: Seq<char>) -> CtxV {
    let class = match reg.str_at("class"@) {
        Some(c) => c,
        None => "write"@,
    };
    CtxV {
        tool: or_empty(body.str_at("tool"@)),
        action: or_empty(body.str_at("action"@)),
        reversibility: match reg.str_at("reversibility"@) {
            Some(x) => x,
            None => "irreversible"@,
        },
        side_effect: match reg.str_at("side_effect"@) {
            Some(x) => x,
            None => "external"@,
        },
        action_class: class,
        write_paths: if class == "write"@ || class == "delete"@ || class == "move"@ {
            Some(body.at("summary"@).str_list_at("paths"@))
        } else {
            None
        },
        now: at,
        current_manifest: manifest,
    }
}

/// The verdict of re-evaluating an attributed call that passed its
/// structural checks.
pub open spec fn replay_eval(st: ReplayV, e: EventV, env: GateEnv, cap_id: Seq<char>, cap: JsonV, reg: JsonV) -> Result<ReplayV, Seq<char>> {
    let body = e.raw.at("body"@);
    let ev = spec_evaluate(cap, replay_ctx(body, reg, e.at, env.manifest), meters_for(st.meters, cap_id),
        exemptions_for(st.approved, cap_id));
    match ev.outcome {
        OutcomeV::Allow => Ok(ReplayV {
            meters: bump_checks(st.meters, cap_id, ev.checks),
            approved: spend_all(st.approved, cap_id, ev.consumed_exemptions),
            ..st
        }),
        OutcomeV::Deny { failed, structural } => Err("event "@ + e.id + " fails re-evaluation under "@ + cap_id + ": "@
            + match structural {
                Some(x) => x,
                None => "failed ["@ + join_comma(failed) + "]"@,
            }),
        OutcomeV::Escalate { failed } => Err("event "@ + e.id + " executed without signed approval headroom: ["@
            + join_comma(failed) + "]"@),
    }
}

/// One event of the span replayed: tool calls only. The claimed capability
/// must load and be bound to this manifest, its grant must precede the call
/// (brokered), its whole ancestry must be live at the call's offset, the
/// action must be declared, and the evaluator must allow the call again.
pub open spec fn replay_step(st: ReplayV, e: EventV, env: GateEnv) -> Result<ReplayV, Seq<char>> {
    if e.kind != "tool_call"@ {
        Ok(st)
    } else {
        let st1 = ReplayV { tool_calls: st.tool_calls + 1, ..st };
        let body = e.raw.at("body"@);
        match claimed_capability(body) {
            None => if env.brokered {
                Err("event "@ + e.id + " has no capability attribution under brokered authority (M7)"@)
            } else {
                Ok(ReplayV { unattributed: st1.unattributed + 1, ..st1 })
            },
            Some(cap_id) => match cap_lookup(env.caps, cap_id) {
                Err(err) => Err("capability "@ + cap_id + " unavailable, mistyped, or unverifiable: "@ + err),
                Ok(cap) => if cap.str_at("bound_manifest"@) != Some(env.manifest) {
                    Err("event "@ + e.id + " authorized by capability bound to a different manifest (M2)"@)
                } else {
                    let st2 = ReplayV { caps: st1.caps.insert(cap_id), ..st1 };
                    match grant_verdict(env.brokered, cap_id, e.id, e.offset, env.grants) {
                        Err(m) => Err(m),
                        Ok(()) => match ancestry(env.caps, cap_id) {
                            Err(m) => Err(m),
                            Ok(chain) => match state_at(chain, e.offset, env.bindings, env.revokes) {
                                Err(m) => Err("event "@ + e.id + ": "@ + m),
                                Ok(()) => {
                                    let tool = or_empty(body.str_at("tool"@));
                                    let action = or_empty(body.str_at("action"@));
                                    match registered_action(env.tools, tool, action) {
                                        None => Err("event "@ + e.id + ": tool "@ + tool + " has no declared action "@ + action
                                            + " — undeclared actions cannot be called"@),
                                        Some(reg) => replay_eval(st2, e, env, cap_id, cap, reg),
                                    }
                                },
                            },
                        },
                    }
                },
            },
        }
    }
}

/// Replay of a sequence of events, in order.
pub open spec fn replay(evs: Seq<EventV>, st: ReplayV, env: GateEnv) -> Result<ReplayV, Seq<char>>
    decreases evs.len(),
{
    if evs.len() == 0 {
        Ok(st)
    } else {
        match replay(evs.drop_last(), st, env) {
            Ok(s) => replay_step(s, evs.last(), env),
            Err(m) => Err(m),
        }
    }
}

/// The exec side of the replay state.
struct Replay {
    meters: Vec<((String, String), u64)>,
    approved: Vec<((String, String), i64)>,
    tool_calls: usize,
    unattributed: usize,
    caps: Tree,
}

impl Replay {
    spec fn view(&self) -> ReplayV {
        ReplayV {
            meters: counters_view(self.meters@),
            approved: counters_view(self.approved@),
            tool_calls: self.tool_calls as int,
            unattributed: self.unattributed as int,
            caps: Set::new(|q: Seq<char>| self.caps.at(q) is Some),
        }
    }
}

fn meter_table(m: &Vec<((String, String), u64)>, cap: &str) -> (r: Vec<(String, u64)>)
    ensures
        meters_view(r@) == meters_for(counters_view(m@), cap@),
{
    let ghost mv = counters_view(m@);
    let mut out: Vec<(String, u64)> = Vec::new();
    let mut i: usize = 0;
    assert(meters_view(out@) =~= Seq::<(Seq<char>, u64)>::empty());
    while i < m.len()
        invariant
            i <= m.len(),
            mv == counters_view(m@),
            meters_view(out@) == meters_for(mv.subrange(0, i as int), cap@),
        decreases m.len() - i,
    {
        proof { assert(mv.subrange(0, i + 1).drop_last() =~= mv.subrange(0, i as int)); }
        if str_eq(&m[i].0.0, cap) {
            out.push((m[i].0.1.clone(), m[i].1));
            assert(meters_view(out@) =~= meters_for(mv.subrange(0, i + 1), cap@));
        }
        i += 1;
    }
    assert(mv.subrange(0, m.len() as int) =~= mv);
    out
}

fn exemption_table(a: &Vec<((String, String), i64)>, cap: &str) -> (r: Vec<(String, String)>)
    ensures
        pairs_view(r@) == exemptions_for(counters_view(a@), cap@),
{
    let ghost av = counters_view(a@);
    let mut out: Vec<(String, String)> = Vec::new();
    let mut i: usize = 0;
    assert(pairs_view(out@) =~= Seq::<(Seq<char>, Seq<char>)>::empty());
    while i < a.len()
        invariant
            i <= a.len(),
            av == counters_view(a@),
            pairs_view(out@) == exemptions_for(av.subrange(0, i as int), cap@),
        decreases a.len() - i,
    {
        proof { assert(av.subrange(0, i + 1).drop_last() =~= av.subrange(0, i as int)); }
        if str_eq(&a[i].0.0, cap) && a[i].1 > 0 {
            out.push((a[i].0.1.clone(), "signed-approval".to_owned()));
            assert(pairs_view(out@) =~= exemptions_for(av.subrange(0, i + 1), cap@));
        }
        i += 1;
    }
    assert(av.subrange(0, a.len() as int) =~= av);
    out
}

fn applies_false(meter: &Json) -> (r: bool)
    ensures
        r == (meter@.get("applies"@) == Some(JsonV::Bool(false))),
{
    match meter.get("applies") {
        Some(Json::Bool(b)) => !*b,
        _ => false,
    }
}

/// Count an allowed call's budget checks into `meters`.
fn bump_all(meters: &mut Vec<((String, String), u64)>, cap: &str, checks: &Vec<crate::evaluate::Check>)
    ensures
        counters_view(final(meters)@) == bump_checks(counters_view(old(meters)@), cap@, checks_view(checks@)),
{
    let ghost start = counters_view(meters@);
    let ghost cv = checks_view(checks@);
    let mut i: usize = 0;
    assert(cv.subrange(0, 0) =~= Seq::<CheckV>::empty());
    while i < checks.len()
        invariant
            i <= checks.len(),
            cv == checks_view(checks@),
            counters_view(meters@) == bump_checks(start, cap@, cv.subrange(0, i as int)),
        decreases checks.len() - i,
    {
        proof {
            assert(cv.subrange(0, i + 1).drop_last() =~= cv.subrange(0, i as int));
            assert(cv.subrange(0, i + 1).last() == checks@[i as int].view());
        }
        let c = &checks[i];
        if starts_with(&c.caveat, "budget.count:") && !applies_false(&c.meter) {
            let ghost before = counters_view(meters@);
            match find_counter(meters, cap, &c.caveat) {
                Some(j) => {
                    let cur = meters[j].1;
                    let next = if cur < u64::MAX { cur + 1 } else { cur };
                    meters.set(j, ((cap.to_owned(), c.caveat.clone()), next));
                    assert(counters_view(meters@) =~= bump_counter(before, (cap@, c.caveat@)));
                },
                None => {
                    meters.push(((cap.to_owned(), c.caveat.clone()), 1));
                    assert(counters_view(meters@) =~= bump_counter(before, (cap@, c.caveat@)));
                },
            }
        }
        i += 1;
    }
    assert(cv.subrange(0, checks.len() as int) =~= cv);
}

/// Spend one approved use per consumed exemption.
fn spend_exemptions(approved: &mut Vec<((String, String), i64)>, cap: &str, consumed: &Vec<(String, String)>)
    ensures
        counters_view(final(approved)@) == spend_all(counters_view(old(approved)@), cap@, pairs_view(consumed@)),
{
    let ghost start = counters_view(approved@);
    let ghost pv = pairs_view(consumed@);
    let mut i: usize = 0;
    assert(pv.subrange(0, 0) =~= Seq::<(Seq<char>, Seq<char>)>::empty());
    while i < consumed.len()
        invariant
            i <= consumed.len(),
            pv == pairs_view(consumed@),
            counters_view(approved@) == spend_all(start, cap@, pv.subrange(0, i as int)),
        decreases consumed.len() - i,
    {
        proof {
            assert(pv.subrange(0, i + 1).drop_last() =~= pv.subrange(0, i as int));
            assert(pv.subrange(0, i + 1).last() == (consumed@[i as int].0@, consumed@[i as int].1@));
        }
        let ghost before = counters_view(approved@);
        match find_counter(approved, cap, &consumed[i].0) {
            Some(j) => {
                let cur = approved[j].1;
                let next = if cur > i64::MIN { cur - 1 } else { cur };
                approved.set(j, ((cap.to_owned(), consumed[i].0.clone()), next));
                assert(counters_view(approved@) =~= spend_use(before, (cap@, consumed@[i as int].0@)));
            },
            None => {},
        }
        i += 1;
    }
    assert(pv.subrange(0, consumed.len() as int) =~= pv);
}

spec fn env_of(
    brokered: bool,
    manifest_id: Seq<char>,
    caps: Seq<(String, Result<Json, String>)>,
    tools: Seq<Json>,
    grants: Seq<(String, i64)>,
    bindings: Seq<((String, String, Option<String>), i64)>,
    revokes: Seq<(String, i64)>,
) -> GateEnv {
    GateEnv {
        brokered,
        manifest: manifest_id,
        caps: caps_view(caps),
        tools: elems_view(tools),
        grants: offsets_view(grants),
        bindings: bindings_view(bindings),
        revokes: offsets_view(revokes),
    }
}

/// Replay one event.
#[verifier::rlimit(40)]
fn replay_event(
    st: &mut Replay,
    e: &VerifiedEvent,
    brokered: bool,
    manifest_id: &str,
    caps: &Vec<(String, Result<Json, String>)>,
    tools: &Vec<Json>,
    grants: &Vec<(String, i64)>,
    bindings: &Vec<((String, String, Option<String>), i64)>,
    revokes: &Vec<(String, i64)>,
) -> (r: Result<(), String>)
    requires
        old(st).caps.wf(),
        old(st).tool_calls < usize::MAX,
        old(st).unattributed < usize::MAX,
    ensures
        final(st).caps.wf(),
        match replay_step(old(st).view(), e.view(), env_of(brokered, manifest_id@, caps@, tools@, grants@, bindings@, revokes@)) {
            Ok(s2) => r is Ok && final(st).view() == s2,
            Err(m) => r matches Err(x) && x@ == m,
        },
{
    let ghost env = env_of(brokered, manifest_id@, caps@, tools@, grants@, bindings@, revokes@);
    let ghost st0 = st.view();
    if !str_eq(&e.kind, "tool_call") {
        return Ok(());
    }
    st.tool_calls = st.tool_calls + 1;
    let ghost st1 = ReplayV { tool_calls: st0.tool_calls + 1, ..st0 };
    assert(st.view().caps =~= st1.caps);
    assert(st.view() == st1);
    let body = match body_of(e) {
        Some(b) => b,
        None => {
            assert(claimed_capability(JsonV::Null) is None);
            if brokered {
                return Err(cat(&cat("event ", &e.id), " has no capability attribution under brokered authority (M7)"));
            }
            st.unattributed = st.unattributed + 1;
            assert(st.view().caps =~= st1.caps);
            return Ok(());
        },
    };
    let cap_id: &str = match m7_effect_capability(brokered, body, &e.id) {
        Err(m) => return Err(m),
        Ok(None) => {
            st.unattributed = st.unattributed + 1;
            assert(st.view().caps =~= st1.caps);
            return Ok(());
        },
        Ok(Some(c)) => c,
    };
    let cap = match load_capability(caps, cap_id) {
        Ok(c) => c,
        Err(err) => return Err(cat(&cat(&cat("capability ", cap_id), " unavailable, mistyped, or unverifiable: "), &err)),
    };
    let bound_ok = match cap.str_at("bound_manifest") {
        Some(m) => str_eq(m, manifest_id),
        None => false,
    };
    if !bound_ok {
        return Err(cat(&cat("event ", &e.id), " authorized by capability bound to a different manifest (M2)"));
    }
    let ghost before_caps = st.caps@;
    st.caps.insert(cap_id.to_owned(), String::new());
    let ghost st2 = ReplayV { caps: st1.caps.insert(cap_id@), ..st1 };
    assert(st.view().caps =~= st2.caps);
    assert(st.view() == st2);
    match m7_verify_grant(brokered, cap_id, &e.id, e.offset, grants) {
        Err(m) => return Err(m),
        Ok(()) => {},
    }
    let chain = match a22_ancestry(caps, cap_id) {
        Err(m) => return Err(m),
        Ok(c) => c,
    };
    match a22_state_at(&chain, e.offset, bindings, revokes) {
        Err(m) => return Err(cat(&cat(&cat("event ", &e.id), ": "), &m)),
        Ok(()) => {},
    }
    let tool: &str = match body.str_at("tool") {
        Some(t) => t,
        None => "",
    };
    let action: &str = match body.str_at("action") {
        Some(a) => a,
        None => "",
    };
    let reg = match find_action(tools, tool, action) {
        Ok(r) => r,
        Err(_) => {
            let msg = cat(&cat(&cat(&cat(&cat(&cat("event ", &e.id), ": tool "), tool), " has no declared action "), action),
                " — undeclared actions cannot be called");
            return Err(msg);
        },
    };
    let class: &str = match reg.str_at("class") {
        Some(c) => c,
        None => "write",
    };
    let write_paths = if str_eq(class, "write") || str_eq(class, "delete") || str_eq(class, "move") {
        match body.get("summary") {
            Some(sm) => Some(as_str_set(sm, "paths")),
            None => {
                assert(JsonV::Null.str_list_at("paths"@) =~= Seq::<Seq<char>>::empty());
                Some(Vec::new())
            },
        }
    } else {
        None
    };
    let ctx = CallCtx {
        tool,
        action,
        reversibility: match reg.str_at("reversibility") {
            Some(x) => x,
            None => "irreversible",
        },
        side_effect: match reg.str_at("side_effect") {
            Some(x) => x,
            None => "external",
        },
        action_class: class,
        write_paths,
        now: &e.at,
        current_manifest: manifest_id,
    };
    assert(ctx.view() == replay_ctx(e.view().raw.at("body"@), reg@, e.view().at, manifest_id@));
    let mtab = meter_table(&st.meters, cap_id);
    let etab = exemption_table(&st.approved, cap_id);
    let replayed = evaluate(cap, &ctx, &mtab, &etab);
    match &replayed.outcome {
        Outcome::Allow => {
            bump_all(&mut st.meters, cap_id, &replayed.checks);
            spend_exemptions(&mut st.approved, cap_id, &replayed.consumed_exemptions);
            assert(st.view().caps =~= st2.caps);
            Ok(())
        },
        Outcome::Deny { failed, structural } => {
            let detail = match structural {
                Some(x) => x.clone(),
                None => cat(&cat("failed [", &join_strings(failed)), "]"),
            };
            Err(cat(&cat(&cat(&cat(&cat("event ", &e.id), " fails re-evaluation under "), cap_id), ": "), &detail))
        },
        Outcome::Escalate { failed } => {
            Err(cat(&cat(&cat(&cat("event ", &e.id), " executed without signed approval headroom: ["), &join_strings(failed)), "]"))
        },
    }
}

proof fn lemma_replay_err_extends(evs: Seq<EventV>, n: int, st: ReplayV, env: GateEnv, m: Seq<char>)
    requires
        0 <= n <= evs.len(),
        replay(evs.subrange(0, n), st, env) == Err::<ReplayV, Seq<char>>(m),
    ensures
        replay(evs, st, env) == Err::<ReplayV, Seq<char>>(m),
    decreases evs.len() - n,
{
    if n < evs.len() {
        assert(evs.subrange(0, n + 1).drop_last() =~= evs.subrange(0, n));
        lemma_replay_err_extends(evs, n + 1, st, env, m);
    } else {
        assert(evs.subrange(0, n) =~= evs);
    }
}

proof fn lemma_replay_step_counts(st: ReplayV, e: EventV, env: GateEnv)
    ensures
        replay_step(st, e, env) matches Ok(s2) ==> s2.tool_calls <= st.tool_calls + 1
            && s2.unattributed <= st.unattributed + 1,
{
}

/// Capability ids in strictly increasing order.
pub open spec fn strictly_sorted(keys: Seq<Seq<char>>) -> bool {
    forall|i: int, j: int| 0 <= i < j < keys.len() ==> crate::json::chars_lt(#[trigger] keys[i], #[trigger] keys[j])
}

/// The tail of a strictly sorted listing holds exactly its set without
/// the head.
proof fn lemma_sorted_tail_set(a: Seq<Seq<char>>, x: Seq<char>)
    requires
        strictly_sorted(a),
        a.len() > 0,
    ensures
        a.drop_first().to_set().contains(x) <==> (a.to_set().contains(x) && x != a[0]),
{
    if a.drop_first().to_set().contains(x) {
        let k = choose|k: int| 0 <= k < a.drop_first().len() && a.drop_first()[k] == x;
        assert(a[k + 1] == x);
        assert(crate::json::chars_lt(a[0], a[k + 1]));
        crate::json::lemma_chars_lt_irrefl(x);
        assert(a.contains(x));
    }
    if a.to_set().contains(x) && x != a[0] {
        let k = choose|k: int| 0 <= k < a.len() && a[k] == x;
        assert(k > 0);
        assert(a.drop_first()[k - 1] == x);
        assert(a.drop_first().contains(x));
    }
}

/// Two strictly sorted listings of the same set are the same listing.
pub proof fn lemma_sorted_listing_unique(a: Seq<Seq<char>>, b: Seq<Seq<char>>)
    requires
        strictly_sorted(a),
        strictly_sorted(b),
        a.to_set() == b.to_set(),
    ensures
        a == b,
    decreases a.len(),
{
    if a.len() == 0 {
        if b.len() > 0 {
            assert(b.contains(b[0]));
            assert(b.to_set().contains(b[0]));
        }
        assert(a =~= b);
    } else {
        if b.len() == 0 {
            assert(a.contains(a[0]));
            assert(a.to_set().contains(a[0]));
        }
        assert(a.contains(a[0]));
        assert(b.to_set().contains(a[0]));
        let j = choose|j: int| 0 <= j < b.len() && b[j] == a[0];
        assert(b.contains(b[0]));
        assert(a.to_set().contains(b[0]));
        let i = choose|i: int| 0 <= i < a.len() && a[i] == b[0];
        if i > 0 {
            assert(crate::json::chars_lt(a[0], a[i]));
            if j > 0 {
                assert(crate::json::chars_lt(b[0], b[j]));
                crate::json::lemma_chars_lt_asym(b[0], b[j]);
            } else {
                crate::json::lemma_chars_lt_irrefl(a[0]);
            }
        }
        assert(a[0] == b[0]);
        assert(a.drop_first().to_set() =~= b.drop_first().to_set()) by {
            assert forall|x: Seq<char>| a.drop_first().to_set().contains(x) == b.drop_first().to_set().contains(x) by {
                lemma_sorted_tail_set(a, x);
                lemma_sorted_tail_set(b, x);
            }
        }
        assert(strictly_sorted(a.drop_first())) by {
            assert forall|p: int, q: int| 0 <= p < q < a.drop_first().len() implies crate::json::chars_lt(
                #[trigger] a.drop_first()[p], #[trigger] a.drop_first()[q]) by {
                assert(a.drop_first()[p] == a[p + 1] && a.drop_first()[q] == a[q + 1]);
            }
        }
        assert(strictly_sorted(b.drop_first())) by {
            assert forall|p: int, q: int| 0 <= p < q < b.drop_first().len() implies crate::json::chars_lt(
                #[trigger] b.drop_first()[p], #[trigger] b.drop_first()[q]) by {
                assert(b.drop_first()[p] == b[p + 1] && b.drop_first()[q] == b[q + 1]);
            }
        }
        lemma_sorted_listing_unique(a.drop_first(), b.drop_first());
        assert(a =~= seq![a[0]] + a.drop_first());
        assert(b =~= seq![b[0]] + b.drop_first());
    }
}

/// The promotion replay's report is a function of what it replays: the
/// checked capabilities are listed in their one sorted order, so any two
/// reports [`gate_trace_check`] may give for the same replay are equal.
pub proof fn law_gate_report_determined(st: ReplayV, n_events: int, anomalies: Seq<Seq<char>>, k1: Seq<Seq<char>>, k2: Seq<Seq<char>>)
    requires
        strictly_sorted(k1),
        strictly_sorted(k2),
        k1.to_set() == st.caps,
        k2.to_set() == st.caps,
    ensures
        gate_report(st, n_events, anomalies, k1) == gate_report(st, n_events, anomalies, k2),
{
    lemma_sorted_listing_unique(k1, k2);
}

/// An array of strings.
pub open spec fn str_array(v: Seq<Seq<char>>) -> JsonV {
    JsonV::Array(v.map_values(|s: Seq<char>| JsonV::Str(s)))
}

/// A JSON array of the strings of `v`.
pub fn strings_json(v: &Vec<String>) -> (r: Json)
    ensures
        r@ == str_array(string_views(v@)),
{
    let mut out: Vec<Json> = Vec::new();
    let mut i: usize = 0;
    proof { lemma_elems_view_len(out@); }
    while i < v.len()
        invariant
            i <= v.len(),
            elems_view(out@) == string_views(v@).subrange(0, i as int).map_values(|s: Seq<char>| JsonV::Str(s)),
        decreases v.len() - i,
    {
        proof { crate::json::lemma_elems_view_push(out@, Json::Str(v@[i as int])); }
        out.push(Json::Str(v[i].clone()));
        assert(elems_view(out@) =~= string_views(v@).subrange(0, i + 1).map_values(|s: Seq<char>| JsonV::Str(s)));
        i += 1;
    }
    assert(string_views(v@).subrange(0, v.len() as int) =~= string_views(v@));
    Json::Array(out)
}

/// The outcome of replaying a manifest's span: the final replay state, or
/// the first violation.
pub open spec fn gate_outcome(
    all: Seq<EventV>,
    span: Seq<char>,
    substrate: Seq<char>,
    manifest_id: Seq<char>,
    manifest: Result<JsonV, Seq<char>>,
    caps: Seq<(Seq<char>, Result<JsonV, Seq<char>>)>,
    tools: Seq<JsonV>,
) -> Result<ReplayV, Seq<char>> {
    match manifest {
        Err(e) => Err("manifest "@ + manifest_id + " unavailable, mistyped, or unverifiable: "@ + e),
        Ok(man) => replay(
            signed_sequence(all, span),
            ReplayV {
                meters: Seq::empty(),
                approved: approved_headroom(all, substrate),
                tool_calls: 0,
                unattributed: 0,
                caps: Set::empty(),
            },
            GateEnv {
                brokered: man.at("authority"@).at("mode"@) == JsonV::Str("brokered"@),
                manifest: manifest_id,
                caps,
                tools,
                grants: manifest_grant_offsets(all, substrate, manifest_id),
                bindings: grant_bindings(all, substrate),
                revokes: revoke_offsets(all),
            },
        ),
    }
}

/// The report on a clean promotion replay.
pub open spec fn gate_report(st: ReplayV, n_events: int, anomalies: Seq<Seq<char>>, cap_keys: Seq<Seq<char>>) -> JsonV {
    JsonV::Object(seq![
        ("capabilities"@, str_array(cap_keys)),
        ("closure_anomalies"@, str_array(anomalies)),
        ("events"@, JsonV::Int(n_events)),
        ("ok"@, JsonV::Bool(true)),
        ("tool_calls"@, JsonV::Int(st.tool_calls)),
        ("unattributed_tool_calls"@, JsonV::Int(st.unattributed)),
    ])
}

pub open spec fn manifest_view(m: Result<Json, String>) -> Result<JsonV, Seq<char>> {
    match m {
        Ok(j) => Ok(j@),
        Err(e) => Err(e@),
    }
}

/// The keys of a tree, in its (strictly increasing) order.
pub(crate) fn tree_keys(t: &Tree) -> (r: Vec<String>)
    requires
        t.wf(),
    ensures
        strictly_sorted(string_views(r@)),
        forall|q: Seq<char>| string_views(r@).to_set().contains(q) <==> (t.at(q) is Some),
{
    let entries = t.entries();
    let mut keys: Vec<String> = Vec::new();
    let mut j: usize = 0;
    let ghost tv = t@;
    while j < entries.len()
        invariant
            j <= entries.len(),
            pairs_view(entries@) == tv,
            string_views(keys@).len() == j,
            forall|a: int| 0 <= a < j ==> #[trigger] string_views(keys@)[a] == tv[a].0,
        decreases entries.len() - j,
    {
        assert(tv[j as int] == (entries@[j as int].0@, entries@[j as int].1@));
        let ghost old_sv = string_views(keys@);
        keys.push(entries[j].0.clone());
        assert(string_views(keys@) =~= old_sv.push(entries@[j as int].0@));
        j += 1;
    }
    let ghost kv = string_views(keys@);
    proof {
        assert forall|a: int, b: int| 0 <= a < b < kv.len() implies crate::json::chars_lt(#[trigger] kv[a], #[trigger] kv[b]) by {
            assert(kv[a] == tv[a].0);
            assert(kv[b] == tv[b].0);
        }
        assert forall|q: Seq<char>| kv.to_set().contains(q) <==> (t.at(q) is Some) by {
            if kv.to_set().contains(q) {
                let w = choose|w: int| 0 <= w < kv.len() && kv[w] == q;
                assert(tv[w].0 == q);
                crate::promote::lemma_lookup_index(tv, w);
            }
            if t.at(q) is Some {
                lemma_lookup_found(tv, q);
                let w = choose|w: int| 0 <= w < tv.len() && tv[w].0 == q && tv[w].1 == lookup(tv, q)->0;
                assert(kv[w] == q);
            }
        }
    }
    keys
}

/// Trace against capability: replay every recorded tool call of `span`
/// (in its signed sequence) through the same evaluator that authorized it.
/// Budget meters and approval headroom replay from signed events; the clock
/// is each event's signed `at`; liveness is judged at each call's offset.
/// `all_events` is the verified substrate; `manifest` the manifest as its
/// loader returned it; `caps` every capability object as its loader
/// returned it; `tool_objects` the verified tool registrations. On success
/// the report counts events, tool calls and unattributed calls, lists the
/// closure anomalies and the capabilities checked (sorted).
pub fn gate_trace_check(
    all_events: &Vec<VerifiedEvent>,
    span: &str,
    substrate_span: &str,
    manifest_id: &str,
    manifest: &Result<Json, String>,
    caps: &Vec<(String, Result<Json, String>)>,
    tool_objects: &Vec<Json>,
) -> (r: Result<Json, BrokerError>)
    ensures
        match gate_outcome(events_view(all_events@), span@, substrate_span@, manifest_id@, manifest_view(*manifest),
            caps_view(caps@), elems_view(tool_objects@)) {
            Err(m) => r matches Err(BrokerError::GateTraceViolation(x)) && x@ == m,
            Ok(st) => r matches Ok(j) && exists|keys: Seq<Seq<char>>| strictly_sorted(keys) && keys.to_set() == st.caps
                && j@ == gate_report(st, signed_sequence(events_view(all_events@), span@).len() as int,
                    closure_anomalies(events_view(all_events@), substrate_span@, caps_view(caps@)), keys),
        },
{
    let ghost av = events_view(all_events@);
    let man = match manifest {
        Ok(m) => m,
        Err(e) => {
            return Err(BrokerError::GateTraceViolation(cat(&cat(&cat("manifest ", manifest_id),
                " unavailable, mistyped, or unverifiable: "), e)));
        },
    };
    let brokered = match man.get("authority") {
        Some(a) => match a.get("mode") {
            Some(m) => crate::json::json_is_str(m, "brokered"),
            None => false,
        },
        None => false,
    };
    proof {
        assert(JsonV::Null.at("mode"@) == JsonV::Null);
    }
    let events = w11_span_events_in_signed_sequence(all_events, span);
    let grants = m7_grant_offsets(all_events, substrate_span, manifest_id);
    let bindings = a22_grant_bindings(all_events, substrate_span);
    let revokes = a22_revoke_offsets(all_events);

    let mut anomalies: Vec<String> = Vec::new();
    let mut i: usize = 0;
    assert(string_views(anomalies@) =~= closure_anomalies(av.subrange(0, 0), substrate_span@, caps_view(caps@)));
    while i < all_events.len()
        invariant
            i <= all_events.len(),
            av == events_view(all_events@),
            string_views(anomalies@) == closure_anomalies(av.subrange(0, i as int), substrate_span@, caps_view(caps@)),
        decreases all_events.len() - i,
    {
        proof { assert(av.subrange(0, i + 1).drop_last() =~= av.subrange(0, i as int)); }
        push_revoke_anomalies(&mut anomalies, &all_events[i], substrate_span, caps);
        i += 1;
    }
    assert(av.subrange(0, all_events.len() as int) =~= av);

    let approved = approved_headroom_of(all_events, substrate_span);
    let mut st = Replay { meters: Vec::new(), approved, tool_calls: 0, unattributed: 0, caps: Tree::new() };
    let ghost env = env_of(brokered, manifest_id@, caps@, tool_objects@, grants@, bindings@, revokes@);
    let ghost init = st.view();
    let ghost ev = events_view(events@);
    proof {
        assert(init.meters =~= Seq::<(CapKey, u64)>::empty());
        assert(init.caps =~= Set::<Seq<char>>::empty());
        assert(ev.subrange(0, 0) =~= Seq::<EventV>::empty());
    }
    let mut k: usize = 0;
    while k < events.len()
        invariant
            k <= events.len(),
            ev == events_view(events@),
            st.caps.wf(),
            st.tool_calls <= k,
            st.unattributed <= k,
            replay(ev.subrange(0, k as int), init, env) == Ok::<ReplayV, Seq<char>>(st.view()),
        decreases events.len() - k,
    {
        proof {
            assert(ev.subrange(0, k + 1).drop_last() =~= ev.subrange(0, k as int));
            assert(ev.subrange(0, k + 1).last() == events@[k as int].view());
            lemma_replay_step_counts(st.view(), events@[k as int].view(), env);
        }
        match replay_event(&mut st, &events[k], brokered, manifest_id, caps, tool_objects, &grants, &bindings, &revokes) {
            Ok(()) => {},
            Err(m) => {
                proof { lemma_replay_err_extends(ev, k + 1, init, env, m@); }
                return Err(BrokerError::GateTraceViolation(m));
            },
        }
        k += 1;
    }
    assert(ev.subrange(0, events.len() as int) =~= ev);

    let keys = tree_keys(&st.caps);
    let ghost kv = string_views(keys@);
    assert(kv.to_set() =~= st.view().caps);
    let mut fields: Vec<(String, Json)> = Vec::new();
    fields.push(("capabilities".to_owned(), strings_json(&keys)));
    fields.push(("closure_anomalies".to_owned(), strings_json(&anomalies)));
    fields.push(("events".to_owned(), Json::Number(JsonNumber::Int(events.len() as i128))));
    fields.push(("ok".to_owned(), Json::Bool(true)));
    fields.push(("tool_calls".to_owned(), Json::Number(JsonNumber::Int(st.tool_calls as i128))));
    fields.push(("unattributed_tool_calls".to_owned(), Json::Number(JsonNumber::Int(st.unattributed as i128))));
    let report = Json::Object(fields);
    proof {
        crate::json::lemma_fields_view_len(fields@);
        assert(crate::json::fields_view(fields@) =~= seq![
            ("capabilities"@, str_array(kv)),
            ("closure_anomalies"@, str_array(closure_anomalies(av, substrate_span@, caps_view(caps@)))),
            ("events"@, JsonV::Int(ev.len() as int)),
            ("ok"@, JsonV::Bool(true)),
            ("tool_calls"@, JsonV::Int(st.view().tool_calls)),
            ("unattributed_tool_calls"@, JsonV::Int(st.view().unattributed)),
        ]);
    }
    Ok(report)
}

// ---------------------------------------------------------------------
// Decision-time authority: budget reservations and approval headroom
// ---------------------------------------------------------------------

/// The value of a string of ASCII digits.
pub open spec fn digits_value(s: Seq<char>) -> int
    decreases s.len(),
{
    if s.len() == 0 {
        0
    } else {
        digits_value(s.drop_last()) * 10 + (s.last() as int - '0' as int)
    }
}

pub open spec fn all_digits(s: Seq<char>) -> bool {
    forall|i: int| 0 <= i < s.len() ==> '0' <= #[trigger] s[i] && s[i] <= '9'
}

/// Decimal `i64` text as `str::parse::<i64>` accepts it: an optional sign,
/// then one or more ASCII digits, with the value in range.
pub open spec fn parse_i64(s: Seq<char>) -> Option<i64> {
    if s.len() > 0 && (s[0] == '+' || s[0] == '-') {
        let d = s.drop_first();
        let v = if s[0] == '-' {
            -digits_value(d)
        } else {
            digits_value(d)
        };
        if d.len() > 0 && all_digits(d) && i64::MIN <= v <= i64::MAX {
            Some(v as i64)
        } else {
            None
        }
    } else if s.len() > 0 && all_digits(s) && digits_value(s) <= i64::MAX {
        Some(digits_value(s) as i64)
    } else {
        None
    }
}

proof fn lemma_digits_nonneg(s: Seq<char>)
    requires
        all_digits(s),
    ensures
        digits_value(s) >= 0,
    decreases s.len(),
{
    if s.len() > 0 {
        lemma_digits_nonneg(s.drop_last());
    }
}

/// Parse decimal `i64` text.
pub fn parse_i64_text(s: &str) -> (r: Option<i64>)
    ensures
        r == parse_i64(s@),
{
    let cs = chars_of(s);
    if cs.len() == 0 {
        return None;
    }
    let signed = cs[0] == '+' || cs[0] == '-';
    let start: usize = if signed { 1 } else { 0 };
    if start >= cs.len() {
        return None;
    }
    let ghost d = cs@.subrange(start as int, cs@.len() as int);
    let mut acc: i128 = 0;
    let mut big = false;
    let mut i: usize = start;
    assert(d.subrange(0, 0) =~= Seq::<char>::empty());
    while i < cs.len()
        invariant
            start <= i <= cs.len(),
            cs@ == s@,
            d == cs@.subrange(start as int, cs@.len() as int),
            forall|j: int| 0 <= j < i - start ==> '0' <= #[trigger] d[j] && d[j] <= '9',
            !big ==> acc == digits_value(d.subrange(0, i - start)) && 0 <= acc <= 0x8000_0000_0000_0000i128,
            big ==> digits_value(d.subrange(0, i - start)) > 0x8000_0000_0000_0000i128,
        decreases cs.len() - i,
    {
        let c = cs[i];
        if !('0' <= c && c <= '9') {
            assert(!all_digits(d)) by {
                assert(d[i - start] == c);
            }
            return None;
        }
        proof {
            assert(d.subrange(0, i - start + 1).drop_last() =~= d.subrange(0, i - start));
            assert(d.subrange(0, i - start + 1).last() == c);
        }
        let digit: i128 = (c as u32 - '0' as u32) as i128;
        if !big {
            if acc > 0x0ccc_cccc_cccc_cccdi128 {
                big = true;
            } else {
                acc = acc * 10 + digit;
                if acc > 0x8000_0000_0000_0000i128 {
                    big = true;
                }
            }
        }
        i += 1;
    }
    assert(d.subrange(0, (cs.len() - start) as int) =~= d);
    proof {
        if signed {
            assert(d =~= s@.drop_first());
        } else {
            assert(d =~= s@);
        }
        lemma_digits_nonneg(d);
    }
    if big {
        return None;
    }
    if signed && cs[0] == '-' {
        Some((0 - acc) as i64)
    } else if acc <= 0x7fff_ffff_ffff_ffffi128 {
        Some(acc as i64)
    } else {
        None
    }
}

/// The escalation id an approved exemption names (`esc:<id>`).
pub open spec fn esc_id(x: Seq<char>) -> Option<i64> {
    if has_prefix(x, "esc:"@) {
        parse_i64(x.skip(4))
    } else {
        None
    }
}

fn esc_id_of(x: &str) -> (r: Option<i64>)
    ensures
        r == esc_id(x@),
{
    if !starts_with(x, "esc:") {
        return None;
    }
    let cs = chars_of(x);
    let mut rest: Vec<char> = Vec::new();
    let mut i: usize = 4;
    proof { reveal_strlit("esc:"); }
    while i < cs.len()
        invariant
            4 <= i <= cs.len(),
            cs@ == x@,
            rest@ == cs@.subrange(4, i as int),
        decreases cs.len() - i,
    {
        rest.push(cs[i]);
        i += 1;
        assert(rest@ =~= cs@.subrange(4, i as int));
    }
    let text = string_of(&rest);
    assert(text@ =~= x@.skip(4));
    parse_i64_text(&text)
}

/// An escalation's authority binding key: (capability, caveat key, id).
pub type EscKey = (Seq<char>, Seq<char>, i64);

pub open spec fn remaining_view(s: Seq<((String, String, i64), i64)>) -> Seq<(EscKey, i64)> {
    s.map_values(|p: ((String, String, i64), i64)| ((p.0.0@, p.0.1@, p.0.2), p.1))
}

/// One signed check of an authorized call reserved: a counting budget
/// check takes one more use; an approved exemption spends one use of the
/// signed approval it names, which must exist for this capability and
/// caveat key and have uses left.
pub open spec fn reserve_one(cap: Seq<char>, check: JsonV, m: Seq<(Seq<char>, u64)>, rem: Seq<(EscKey, i64)>) -> Result<(Seq<(Seq<char>, u64)>, Seq<(EscKey, i64)>), Seq<char>> {
    match check.str_at("caveat"@) {
        None => Err("authorized call for "@ + cap + " has a malformed caveat check"@),
        Some(cav) => {
            let meter = check.at("meter"@);
            let m2 = if has_prefix(cav, "budget.count:"@) && meter.get("applies"@) != Some(JsonV::Bool(false)) {
                bump_counter(m, cav)
            } else {
                m
            };
            match meter.str_at("approved_exemption"@) {
                None => Ok((m2, rem)),
                Some(x) => match esc_id(x) {
                    None => Err("authorized call for "@ + cap + " names malformed approval "@ + x),
                    Some(id) => {
                        let i = key_index(rem, (cap, cav, id));
                        if i < 0 {
                            Err("authorized call for "@ + cap + " consumes unsigned or mismatched escalation "@ + int_text(id as int))
                        } else if rem[i].1 <= 0 {
                            Err("authorized call for "@ + cap + " exceeds signed approval "@ + int_text(id as int))
                        } else {
                            Ok((m2, rem.update(i, ((cap, cav, id), (rem[i].1 - 1) as i64))))
                        }
                    },
                },
            }
        },
    }
}

/// Reserve each check in order; the first malformed or unbacked one fails.
pub open spec fn reserve_each(cap: Seq<char>, checks: Seq<JsonV>, m: Seq<(Seq<char>, u64)>, rem: Seq<(EscKey, i64)>) -> Result<(Seq<(Seq<char>, u64)>, Seq<(EscKey, i64)>), Seq<char>>
    decreases checks.len(),
{
    if checks.len() == 0 {
        Ok((m, rem))
    } else {
        match reserve_one(cap, checks[0], m, rem) {
            Ok((m2, r2)) => reserve_each(cap, checks.drop_first(), m2, r2),
            Err(e) => Err(e),
        }
    }
}

/// Reserving an authorized call's signed checks.
pub open spec fn reserve_checks(cap: Seq<char>, checks: JsonV, m: Seq<(Seq<char>, u64)>, rem: Seq<(EscKey, i64)>) -> Result<(Seq<(Seq<char>, u64)>, Seq<(EscKey, i64)>), Seq<char>> {
    match checks.as_array() {
        None => Err("authorized call for "@ + cap + " has no signed check array"@),
        Some(a) => reserve_each(cap, a, m, rem),
    }
}

fn find_meter(s: &Vec<(String, u64)>, k: &str) -> (r: Option<usize>)
    ensures
        match r {
            Some(i) => i < s.len() && key_index(meters_view(s@), k@) == i,
            None => key_index(meters_view(s@), k@) == -1,
        },
{
    let ghost v = meters_view(s@);
    let mut i: usize = 0;
    while i < s.len()
        invariant
            i <= s.len(),
            v == meters_view(s@),
            forall|j: int| 0 <= j < i ==> (#[trigger] v[j]).0 != k@,
        decreases s.len() - i,
    {
        if str_eq(&s[i].0, k) {
            proof { lemma_key_index_first(v, k@, i as int); }
            return Some(i);
        }
        i += 1;
    }
    proof { lemma_key_index_none(v, k@); }
    None
}

fn find_escalation(s: &Vec<((String, String, i64), i64)>, cap: &str, cav: &str, id: i64) -> (r: Option<usize>)
    ensures
        match r {
            Some(i) => i < s.len() && key_index(remaining_view(s@), (cap@, cav@, id)) == i,
            None => key_index(remaining_view(s@), (cap@, cav@, id)) == -1,
        },
{
    let ghost v = remaining_view(s@);
    let ghost k = (cap@, cav@, id);
    let mut i: usize = 0;
    while i < s.len()
        invariant
            i <= s.len(),
            v == remaining_view(s@),
            k == (cap@, cav@, id),
            forall|j: int| 0 <= j < i ==> (#[trigger] v[j]).0 != k,
        decreases s.len() - i,
    {
        if str_eq(&s[i].0.0, cap) && str_eq(&s[i].0.1, cav) && s[i].0.2 == id {
            proof { lemma_key_index_first(v, k, i as int); }
            return Some(i);
        }
        i += 1;
    }
    proof { lemma_key_index_none(v, k); }
    None
}

fn violation(msg: String) -> (r: BrokerError)
    ensures
        r matches BrokerError::GateTraceViolation(x) && x@ == msg@,
{
    BrokerError::GateTraceViolation(msg)
}

/// Count one already-authorized call into the decision-time reservation
/// view. Signed calls and in-memory pending calls use the same form, so a
/// dispatch ticket reserves budget before its result event exists.
pub fn w14_reserve_signed_checks(
    cap_id: &str,
    checks: &Json,
    meters: &mut Vec<(String, u64)>,
    remaining: &mut Vec<((String, String, i64), i64)>,
) -> (r: Result<(), BrokerError>)
    ensures
        match reserve_checks(cap_id@, checks@, meters_view(old(meters)@), remaining_view(old(remaining)@)) {
            Ok((m, rem)) => r is Ok && meters_view(final(meters)@) == m && remaining_view(final(remaining)@) == rem,
            Err(msg) => r matches Err(BrokerError::GateTraceViolation(x)) && x@ == msg,
        },
{
    let items = match checks.as_array() {
        Some(a) => a,
        None => return Err(violation(cat(&cat("authorized call for ", cap_id), " has no signed check array"))),
    };
    let ghost cv = elems_view(items@);
    proof { lemma_elems_view_len(items@); }
    let ghost m0 = meters_view(meters@);
    let ghost r0 = remaining_view(remaining@);
    let mut i: usize = 0;
    assert(cv.skip(0) =~= cv);
    while i < items.len()
        invariant
            i <= items.len(),
            cv == elems_view(items@),
            cv.len() == items.len(),
            reserve_each(cap_id@, cv, m0, r0) == reserve_each(cap_id@, cv.skip(i as int), meters_view(meters@), remaining_view(remaining@)),
        decreases items.len() - i,
    {
        proof {
            assert(cv.skip(i as int).drop_first() =~= cv.skip(i + 1));
            assert(cv.skip(i as int)[0] == items@[i as int]@);
        }
        let check = &items[i];
        let caveat = match check.str_at("caveat") {
            Some(c) => c,
            None => return Err(violation(cat(&cat("authorized call for ", cap_id), " has a malformed caveat check"))),
        };
        let ghost before = meters_view(meters@);
        let meter = check.get("meter");
        let counts = match meter {
            Some(mt) => !applies_false(mt),
            None => true,
        };
        proof {
            assert(JsonV::Null.get("applies"@) is None);
        }
        if starts_with(caveat, "budget.count:") && counts {
            match find_meter(meters, caveat) {
                Some(j) => {
                    let cur = meters[j].1;
                    let next = if cur < u64::MAX { cur + 1 } else { cur };
                    meters.set(j, (caveat.to_owned(), next));
                    assert(meters_view(meters@) =~= bump_counter(before, caveat@));
                },
                None => {
                    meters.push((caveat.to_owned(), 1));
                    assert(meters_view(meters@) =~= bump_counter(before, caveat@));
                },
            }
        }
        let exemption = match meter {
            Some(mt) => mt.str_at("approved_exemption"),
            None => None,
        };
        match exemption {
            None => {},
            Some(x) => {
                let id = match esc_id_of(x) {
                    Some(id) => id,
                    None => return Err(violation(cat(&cat(&cat("authorized call for ", cap_id), " names malformed approval "), x))),
                };
                let j = match find_escalation(remaining, cap_id, caveat, id) {
                    Some(j) => j,
                    None => return Err(violation(cat(&cat(&cat("authorized call for ", cap_id),
                        " consumes unsigned or mismatched escalation "), &int_string(id)))),
                };
                let uses = remaining[j].1;
                if uses <= 0 {
                    return Err(violation(cat(&cat(&cat("authorized call for ", cap_id), " exceeds signed approval "), &int_string(id))));
                }
                let ghost rb = remaining_view(remaining@);
                remaining.set(j, ((cap_id.to_owned(), caveat.to_owned(), id), uses - 1));
                assert(remaining_view(remaining@) =~= rb.update(j as int, ((cap_id@, caveat@, id), (uses - 1) as i64)));
            },
        }
        i += 1;
    }
    assert(cv.skip(items.len() as int) =~= Seq::<JsonV>::empty());
    Ok(())
}

/// The authority one signed escalation binds: (id, (capability, caveat
/// key, manifest, seq)).
pub open spec fn esc_binding(e: EventV) -> Option<(i64, (Seq<char>, Seq<char>, Seq<char>, int))> {
    if e.kind == "escalation"@ {
        let body = e.raw.at("body"@);
        match (body.at("escalation"@).as_i64(), body.str_at("capability"@), body.str_at("caveat"@), e.manifest) {
            (Some(id), Some(c), Some(k), Some(m)) => Some((id, (c, k, m, e.seq))),
            _ => None,
        }
    } else {
        None
    }
}

pub type EscBinding = (Seq<char>, Seq<char>, Seq<char>, int);

/// Signed escalation bindings by id; an id signed twice with different
/// bindings is a violation.
pub open spec fn escalation_bindings(evs: Seq<EventV>) -> Result<Seq<(i64, EscBinding)>, Seq<char>>
    decreases evs.len(),
{
    if evs.len() == 0 {
        Ok(Seq::empty())
    } else {
        match escalation_bindings(evs.drop_last()) {
            Err(e) => Err(e),
            Ok(b) => match esc_binding(evs.last()) {
                None => Ok(b),
                Some((id, (c, k, m, sq))) => match assoc_get(b, id) {
                    Some((c0, k0, m0, _)) => if c0 != c || k0 != k || m0 != m {
                        Err("signed escalation "@ + int_text(id as int) + " has conflicting authority bindings"@)
                    } else {
                        Ok(b)
                    },
                    None => Ok(b.push((id, (c, k, m, sq)))),
                },
            },
        }
    }
}

/// `v` under key `k`: the first entry replaced, or a new entry.
pub open spec fn put<K, V>(m: Seq<(K, V)>, k: K, v: V) -> Seq<(K, V)> {
    let i = key_index(m, k);
    if i >= 0 {
        m.update(i, (k, v))
    } else {
        m.push((k, v))
    }
}

/// One signed approval considered for `cap_id`'s headroom. Each escalation
/// resolves once; an approval counts only when it follows its signed
/// request with the same binding, approves, is for `cap_id`, whose signed
/// object is bound to that manifest, carries a strong enough channel and a
/// positive number of uses that fits an `i64`.
pub open spec fn approval_step(
    st: (Seq<i64>, Seq<(EscKey, i64)>),
    e: EventV,
    bindings: Seq<(i64, EscBinding)>,
    cap_id: Seq<char>,
    caps: Seq<(Seq<char>, Result<JsonV, Seq<char>>)>,
) -> Result<(Seq<i64>, Seq<(EscKey, i64)>), BrokerErrV> {
    let body = e.raw.at("body"@);
    if e.kind != "approval"@ || body.get("escalation"@) is None {
        Ok(st)
    } else {
        match body.at("escalation"@).as_i64() {
            None => Ok(st),
            Some(id) => if st.0.contains(id) {
                Err(BrokerErrV::Violation("signed escalation "@ + int_text(id as int) + " has multiple resolutions"@))
            } else {
                let resolved = st.0.push(id);
                match assoc_get(bindings, id) {
                    None => Ok((resolved, st.1)),
                    Some((bc, bk, bm, bseq)) => if e.seq <= bseq || e.manifest != Some(bm)
                        || body.str_at("capability"@) != Some(bc) || body.str_at("caveat"@) != Some(bk) {
                        Ok((resolved, st.1))
                    } else if body.at("resolution"@) != JsonV::Str("approved"@) || bc != cap_id {
                        Ok((resolved, st.1))
                    } else {
                        match cap_lookup(caps, bc) {
                            Err(x) => Err(BrokerErrV::Unavailable(x)),
                            Ok(cap) => if cap.str_at("bound_manifest"@) != Some(bm) {
                                Ok((resolved, st.1))
                            } else {
                                match body.str_at("auth_strength"@) {
                                    None => Ok((resolved, st.1)),
                                    Some(auth) => match require_strength(bc, cap, auth) {
                                        Err(err) => Err(err),
                                        Ok(()) => match body.at("uses"@).as_u64() {
                                            None => Ok((resolved, st.1)),
                                            Some(u) => if u == 0 || u > i64::MAX {
                                                Ok((resolved, st.1))
                                            } else {
                                                Ok((resolved, put(st.1, (bc, bk, id), u as i64)))
                                            },
                                        },
                                    },
                                }
                            },
                        }
                    },
                }
            },
        }
    }
}

/// The approval fold over a span's ordered events.
pub open spec fn approvals(evs: Seq<EventV>, bindings: Seq<(i64, EscBinding)>, cap_id: Seq<char>, caps: Seq<(Seq<char>, Result<JsonV, Seq<char>>)>) -> Result<(Seq<i64>, Seq<(EscKey, i64)>), BrokerErrV>
    decreases evs.len(),
{
    if evs.len() == 0 {
        Ok((Seq::empty(), Seq::empty()))
    } else {
        match approvals(evs.drop_last(), bindings, cap_id, caps) {
            Err(e) => Err(e),
            Ok(st) => approval_step(st, evs.last(), bindings, cap_id, caps),
        }
    }
}

/// Reservations of every signed tool call attributed to `cap_id`, in
/// storage order.
pub open spec fn reserve_signed(evs: Seq<EventV>, cap_id: Seq<char>, m: Seq<(Seq<char>, u64)>, rem: Seq<(EscKey, i64)>) -> Result<(Seq<(Seq<char>, u64)>, Seq<(EscKey, i64)>), Seq<char>>
    decreases evs.len(),
{
    if evs.len() == 0 {
        Ok((m, rem))
    } else {
        match reserve_signed(evs.drop_last(), cap_id, m, rem) {
            Err(e) => Err(e),
            Ok((m2, r2)) => {
                let e = evs.last();
                if e.kind == "tool_call"@ && claimed_capability(e.raw.at("body"@)) == Some(cap_id) {
                    reserve_checks(cap_id, e.raw.at("body"@).at("checks"@), m2, r2)
                } else {
                    Ok((m2, r2))
                }
            },
        }
    }
}

/// Reservations of the broker's in-flight calls for `cap_id`, in order.
pub open spec fn reserve_pending(pending: Seq<(Seq<char>, JsonV)>, cap_id: Seq<char>, m: Seq<(Seq<char>, u64)>, rem: Seq<(EscKey, i64)>) -> Result<(Seq<(Seq<char>, u64)>, Seq<(EscKey, i64)>), Seq<char>>
    decreases pending.len(),
{
    if pending.len() == 0 {
        Ok((m, rem))
    } else {
        match reserve_pending(pending.drop_last(), cap_id, m, rem) {
            Err(e) => Err(e),
            Ok((m2, r2)) => if pending.last().0 == cap_id {
                reserve_checks(cap_id, pending.last().1, m2, r2)
            } else {
                Ok((m2, r2))
            },
        }
    }
}

/// The smallest escalation id with headroom left for `cap`'s caveat `k`.
pub open spec fn min_esc(rem: Seq<(EscKey, i64)>, cap: Seq<char>, k: Seq<char>) -> Option<i64>
    decreases rem.len(),
{
    if rem.len() == 0 {
        None
    } else {
        let r = min_esc(rem.drop_last(), cap, k);
        let e = rem.last();
        if e.0.0 == cap && e.0.1 == k && e.1 > 0 {
            match r {
                Some(m) => Some(if e.0.2 < m { e.0.2 } else { m }),
                None => Some(e.0.2),
            }
        } else {
            r
        }
    }
}

/// The authority a decision for one capability rests on.
#[derive(Debug)]
pub struct DecisionAuthority {
    /// Budget consumption per caveat key.
    pub meters: Vec<(String, u64)>,
    /// Per caveat key with signed approval headroom left, the approval
    /// (`esc:<id>`, the smallest such id) a failing check may use.
    pub exemptions: Vec<(String, String)>,
}

/// Pending calls as values: (capability, signed checks).
pub open spec fn pending_view(p: Seq<(String, Json)>) -> Seq<(Seq<char>, JsonV)> {
    p.map_values(|x: (String, Json)| (x.0@, x.1@))
}

/// What the decision for `cap_id` rests on, or why it cannot be made.
pub open spec fn decision_authority(
    events: Seq<EventV>,
    substrate: Seq<char>,
    cap_id: Seq<char>,
    caps: Seq<(Seq<char>, Result<JsonV, Seq<char>>)>,
    pending: Seq<(Seq<char>, JsonV)>,
) -> Result<(Seq<(Seq<char>, u64)>, Seq<(EscKey, i64)>), BrokerErrV> {
    let ordered = signed_sequence(events, substrate);
    match escalation_bindings(ordered) {
        Err(m) => Err(BrokerErrV::Violation(m)),
        Ok(b) => match approvals(ordered, b, cap_id, caps) {
            Err(e) => Err(e),
            Ok((_, rem)) => match reserve_signed(events, cap_id, Seq::empty(), rem) {
                Err(m) => Err(BrokerErrV::Violation(m)),
                Ok((m1, r1)) => match reserve_pending(pending, cap_id, m1, r1) {
                    Err(m) => Err(BrokerErrV::Violation(m)),
                    Ok(res) => Ok(res),
                },
            },
        },
    }
}

pub open spec fn esc_bindings_view(s: Seq<(i64, (String, String, String, i64))>) -> Seq<(i64, EscBinding)> {
    s.map_values(|p: (i64, (String, String, String, i64))| (p.0, (p.1.0@, p.1.1@, p.1.2@, p.1.3 as int)))
}

fn find_esc_binding(s: &Vec<(i64, (String, String, String, i64))>, id: i64) -> (r: Option<usize>)
    ensures
        match r {
            Some(i) => i < s.len() && assoc_get(esc_bindings_view(s@), id) == Some(esc_bindings_view(s@)[i as int].1),
            None => assoc_get(esc_bindings_view(s@), id) is None,
        },
{
    let ghost v = esc_bindings_view(s@);
    let mut i: usize = 0;
    while i < s.len()
        invariant
            i <= s.len(),
            v == esc_bindings_view(s@),
            forall|j: int| 0 <= j < i ==> (#[trigger] v[j]).0 != id,
        decreases s.len() - i,
    {
        if s[i].0 == id {
            proof { lemma_assoc_first(v, id, i as int); }
            return Some(i);
        }
        i += 1;
    }
    proof { lemma_assoc_none(v, id); }
    None
}

fn body_i64(ev: &VerifiedEvent, key: &str) -> (r: Option<i64>)
    ensures
        r == ev.raw@.at("body"@).at(key@).as_i64(),
{
    match body_of(ev) {
        Some(b) => match b.get(key) {
            Some(v) => v.as_i64(),
            None => None,
        },
        None => {
            assert(JsonV::Null.at(key@) == JsonV::Null);
            None
        },
    }
}

proof fn lemma_bindings_err_extends(evs: Seq<EventV>, n: int, m: Seq<char>)
    requires
        0 <= n <= evs.len(),
        escalation_bindings(evs.subrange(0, n)) == Err::<Seq<(i64, EscBinding)>, Seq<char>>(m),
    ensures
        escalation_bindings(evs) == Err::<Seq<(i64, EscBinding)>, Seq<char>>(m),
    decreases evs.len() - n,
{
    if n < evs.len() {
        assert(evs.subrange(0, n + 1).drop_last() =~= evs.subrange(0, n));
        lemma_bindings_err_extends(evs, n + 1, m);
    } else {
        assert(evs.subrange(0, n) =~= evs);
    }
}

/// The signed escalation bindings of ordered substrate events.
fn escalation_bindings_of(ordered: &Vec<VerifiedEvent>) -> (r: Result<Vec<(i64, (String, String, String, i64))>, String>)
    ensures
        match escalation_bindings(events_view(ordered@)) {
            Ok(b) => r matches Ok(x) && esc_bindings_view(x@) == b,
            Err(m) => r matches Err(x) && x@ == m,
        },
{
    let ghost ev = events_view(ordered@);
    let mut b: Vec<(i64, (String, String, String, i64))> = Vec::new();
    let mut i: usize = 0;
    assert(esc_bindings_view(b@) =~= Seq::<(i64, EscBinding)>::empty());
    while i < ordered.len()
        invariant
            i <= ordered.len(),
            ev == events_view(ordered@),
            escalation_bindings(ev.subrange(0, i as int)) == Ok::<Seq<(i64, EscBinding)>, Seq<char>>(esc_bindings_view(b@)),
        decreases ordered.len() - i,
    {
        proof { assert(ev.subrange(0, i + 1).drop_last() =~= ev.subrange(0, i as int)); }
        let e = &ordered[i];
        if str_eq(&e.kind, "escalation") {
            match (body_i64(e, "escalation"), body_str(e, "capability"), body_str(e, "caveat"), &e.manifest) {
                (Some(id), Some(c), Some(k), Some(m)) => {
                    match find_esc_binding(&b, id) {
                        Some(j) => {
                            if !(str_eq(&b[j].1.0, c) && str_eq(&b[j].1.1, k) && str_eq(&b[j].1.2, m)) {
                                let msg = cat(&cat("signed escalation ", &int_string(id)), " has conflicting authority bindings");
                                proof {
                                    let bb = ev.subrange(0, i + 1);
                                    assert(bb.last() == e.view());
                                    assert(escalation_bindings(bb) == Err::<Seq<(i64, EscBinding)>, Seq<char>>(msg@));
                                    lemma_bindings_err_extends(ev, i + 1, msg@);
                                }
                                return Err(msg);
                            }
                        },
                        None => {
                            let ghost before = esc_bindings_view(b@);
                            b.push((id, (c.to_owned(), k.to_owned(), m.clone(), e.seq)));
                            assert(esc_bindings_view(b@) =~= before.push((id, (c@, k@, m@, e.seq as int))));
                        },
                    }
                },
                _ => {},
            }
        }
        i += 1;
    }
    assert(ev.subrange(0, ordered.len() as int) =~= ev);
    Ok(b)
}

fn put_remaining(rem: &mut Vec<((String, String, i64), i64)>, cap: &str, cav: &str, id: i64, v: i64)
    ensures
        remaining_view(final(rem)@) == put(remaining_view(old(rem)@), (cap@, cav@, id), v),
{
    let ghost before = remaining_view(rem@);
    match find_escalation(rem, cap, cav, id) {
        Some(j) => {
            rem.set(j, ((cap.to_owned(), cav.to_owned(), id), v));
            assert(remaining_view(rem@) =~= put(before, (cap@, cav@, id), v));
        },
        None => {
            rem.push(((cap.to_owned(), cav.to_owned(), id), v));
            assert(remaining_view(rem@) =~= put(before, (cap@, cav@, id), v));
        },
    }
}

fn contains_i64(v: &Vec<i64>, x: i64) -> (r: bool)
    ensures
        r == v@.contains(x),
{
    let mut i: usize = 0;
    while i < v.len()
        invariant
            i <= v.len(),
            forall|j: int| 0 <= j < i ==> v@[j] != x,
        decreases v.len() - i,
    {
        if v[i] == x {
            assert(v@[i as int] == x);
            return true;
        }
        i += 1;
    }
    false
}

/// One event of the approval fold.
#[verifier::rlimit(30)]
fn approval_event(
    resolved: &mut Vec<i64>,
    rem: &mut Vec<((String, String, i64), i64)>,
    e: &VerifiedEvent,
    bindings: &Vec<(i64, (String, String, String, i64))>,
    cap_id: &str,
    caps: &Vec<(String, Result<Json, String>)>,
) -> (r: Result<(), BrokerError>)
    ensures
        match approval_step((old(resolved)@, remaining_view(old(rem)@)), e.view(), esc_bindings_view(bindings@), cap_id@, caps_view(caps@)) {
            Ok(st) => r is Ok && final(resolved)@ == st.0 && remaining_view(final(rem)@) == st.1,
            Err(x) => r matches Err(y) && y.view() == x,
        },
{
    let body = match body_of(e) {
        Some(b) => b,
        None => {
            assert(JsonV::Null.get("escalation"@) is None);
            return Ok(());
        },
    };
    if !str_eq(&e.kind, "approval") || body.get("escalation").is_none() {
        return Ok(());
    }
    let id = match body_i64(e, "escalation") {
        Some(id) => id,
        None => return Ok(()),
    };
    if contains_i64(resolved, id) {
        return Err(violation(cat(&cat("signed escalation ", &int_string(id)), " has multiple resolutions")));
    }
    resolved.push(id);
    let j = match find_esc_binding(bindings, id) {
        Some(j) => j,
        None => return Ok(()),
    };
    let (bc, bk, bm, bseq) = (&bindings[j].1.0, &bindings[j].1.1, &bindings[j].1.2, bindings[j].1.3);
    let same_cap = match body.str_at("capability") {
        Some(c) => str_eq(c, bc),
        None => false,
    };
    let same_caveat = match body.str_at("caveat") {
        Some(k) => str_eq(k, bk),
        None => false,
    };
    if e.seq <= bseq || !opt_is(&e.manifest, bm) || !same_cap || !same_caveat {
        return Ok(());
    }
    let approved = match body.get("resolution") {
        Some(x) => crate::json::json_is_str(x, "approved"),
        None => false,
    };
    if !approved || !str_eq(bc, cap_id) {
        return Ok(());
    }
    let cap = match load_capability(caps, bc) {
        Ok(c) => c,
        Err(x) => return Err(BrokerError::Unavailable(x)),
    };
    let bound_ok = match cap.str_at("bound_manifest") {
        Some(m) => str_eq(m, bm),
        None => false,
    };
    if !bound_ok {
        return Ok(());
    }
    let auth = match body.str_at("auth_strength") {
        Some(a) => a,
        None => return Ok(()),
    };
    match w14_require_approval_strength(bc, cap, auth) {
        Ok(()) => {},
        Err(err) => return Err(err),
    }
    let uses = match body.get("uses") {
        Some(u) => u.as_u64(),
        None => None,
    };
    match uses {
        None => Ok(()),
        Some(u) => {
            if u == 0 || u > 0x7fff_ffff_ffff_ffffu64 {
                Ok(())
            } else {
                put_remaining(rem, bc, bk, id, u as i64);
                Ok(())
            }
        },
    }
}

/// How an approval is named to the evaluator.
pub open spec fn esc_name(id: Option<i64>) -> Option<Seq<char>> {
    match id {
        Some(i) => Some("esc:"@ + int_text(i as int)),
        None => None,
    }
}

/// The exemption table: for each caveat key of `cap_id` with approved
/// headroom left, the smallest such escalation.
fn exemptions_of(rem: &Vec<((String, String, i64), i64)>, cap_id: &str) -> (r: Vec<(String, String)>)
    ensures
        forall|k: Seq<char>| #[trigger] assoc_get(pairs_view(r@), k) == esc_name(min_esc(remaining_view(rem@), cap_id@, k)),
{
    let ghost rv = remaining_view(rem@);
    let mut table: Vec<(String, String)> = Vec::new();
    let mut ids: Vec<i64> = Vec::new();
    let mut i: usize = 0;
    while i < rem.len()
        invariant
            i <= rem.len(),
            rv == remaining_view(rem@),
            table.len() == ids.len(),
            forall|a: int, b: int| 0 <= a < b < table.len() ==> (#[trigger] pairs_view(table@)[a]).0 != (#[trigger] pairs_view(table@)[b]).0,
            forall|a: int| 0 <= a < table.len() ==> min_esc(rv.subrange(0, i as int), cap_id@, #[trigger] pairs_view(table@)[a].0)
                == Some(ids@[a]) && pairs_view(table@)[a].1 == "esc:"@ + int_text(ids@[a] as int),
            forall|q: Seq<char>| #[trigger] min_esc(rv.subrange(0, i as int), cap_id@, q) is Some ==> exists|a: int| 0 <= a < table.len()
                && pairs_view(table@)[a].0 == q,
        decreases rem.len() - i,
    {
        let ghost pre = rv.subrange(0, i as int);
        let ghost nxt = rv.subrange(0, i + 1);
        proof {
            assert(nxt.drop_last() =~= pre);
            assert(nxt.last() == rv[i as int]);
        }
        let ghost tv0 = pairs_view(table@);
        let ghost ids0 = ids@;
        let (c, k, id) = (&rem[i].0.0, &rem[i].0.1, rem[i].0.2);
        let u = rem[i].1;
        if str_eq(c, cap_id) && u > 0 {
            let mut j: usize = 0;
            let mut found = false;
            while j < table.len()
                invariant
                    j <= table.len(),
                    table.len() == ids.len(),
                    tv0 == pairs_view(table@),
                    !found,
                    forall|a: int| 0 <= a < j ==> (#[trigger] tv0[a]).0 != k@,
                decreases table.len() - j,
            {
                if str_eq(&table[j].0, k) {
                    found = true;
                    break;
                }
                j += 1;
            }
            if found {
                assert(tv0[j as int].0 == k@);
                if id < ids[j] {
                    table.set(j, (k.clone(), cat("esc:", &int_string(id))));
                    ids.set(j, id);
                }
                proof {
                    assert forall|a: int| 0 <= a < table.len() implies min_esc(nxt, cap_id@, #[trigger] pairs_view(table@)[a].0)
                        == Some(ids@[a]) && pairs_view(table@)[a].1 == "esc:"@ + int_text(ids@[a] as int) by {
                        assert(pairs_view(table@)[a].0 == tv0[a].0);
                    }
                    assert forall|q: Seq<char>| #[trigger] min_esc(nxt, cap_id@, q) is Some implies exists|a: int| 0 <= a < table.len()
                        && pairs_view(table@)[a].0 == q by {
                        if q == k@ {
                            assert(pairs_view(table@)[j as int].0 == q);
                        } else {
                            assert(min_esc(pre, cap_id@, q) is Some);
                            let a = choose|a: int| 0 <= a < tv0.len() && tv0[a].0 == q;
                            assert(pairs_view(table@)[a].0 == q);
                        }
                    }
                    assert forall|a: int, b: int| 0 <= a < b < table.len() implies (#[trigger] pairs_view(table@)[a]).0
                        != (#[trigger] pairs_view(table@)[b]).0 by {
                        assert(pairs_view(table@)[a].0 == tv0[a].0);
                        assert(pairs_view(table@)[b].0 == tv0[b].0);
                    }
                }
            } else {
                proof {
                    if min_esc(pre, cap_id@, k@) is Some {
                        let a = choose|a: int| 0 <= a < tv0.len() && tv0[a].0 == k@;
                        assert(false);
                    }
                }
                let entry = (k.clone(), cat("esc:", &int_string(id)));
                let ghost ev_entry = (entry.0@, entry.1@);
                table.push(entry);
                ids.push(id);
                assert(pairs_view(table@) =~= tv0.push(ev_entry));
                proof {
                    assert forall|a: int| 0 <= a < table.len() implies min_esc(nxt, cap_id@, #[trigger] pairs_view(table@)[a].0)
                        == Some(ids@[a]) && pairs_view(table@)[a].1 == "esc:"@ + int_text(ids@[a] as int) by {
                        if a < tv0.len() {
                            assert(pairs_view(table@)[a] == tv0[a]);
                            assert(tv0[a].0 != k@);
                        }
                    }
                    assert forall|q: Seq<char>| #[trigger] min_esc(nxt, cap_id@, q) is Some implies exists|a: int| 0 <= a < table.len()
                        && pairs_view(table@)[a].0 == q by {
                        if q == k@ {
                            assert(pairs_view(table@)[tv0.len() as int].0 == q);
                        } else {
                            assert(min_esc(pre, cap_id@, q) is Some);
                            let a = choose|a: int| 0 <= a < tv0.len() && tv0[a].0 == q;
                            assert(pairs_view(table@)[a] == tv0[a]);
                        }
                    }
                    assert forall|a: int, b: int| 0 <= a < b < table.len() implies (#[trigger] pairs_view(table@)[a]).0
                        != (#[trigger] pairs_view(table@)[b]).0 by {
                        if b < tv0.len() {
                            assert(pairs_view(table@)[a] == tv0[a]);
                            assert(pairs_view(table@)[b] == tv0[b]);
                        } else {
                            assert(pairs_view(table@)[a] == tv0[a]);
                        }
                    }
                }
            }
        } else {
            proof {
                assert forall|a: int| 0 <= a < table.len() implies min_esc(nxt, cap_id@, #[trigger] pairs_view(table@)[a].0)
                    == Some(ids@[a]) && pairs_view(table@)[a].1 == "esc:"@ + int_text(ids@[a] as int) by {
                }
                assert forall|q: Seq<char>| #[trigger] min_esc(nxt, cap_id@, q) is Some implies exists|a: int| 0 <= a < table.len()
                    && pairs_view(table@)[a].0 == q by {
                    assert(min_esc(pre, cap_id@, q) is Some);
                }
            }
        }
        i += 1;
    }
    proof {
        assert(rv.subrange(0, rem.len() as int) =~= rv);
        let tv = pairs_view(table@);
        assert forall|k: Seq<char>| #[trigger] assoc_get(tv, k) == esc_name(min_esc(rv, cap_id@, k)) by {
            if min_esc(rv, cap_id@, k) is Some {
                let a = choose|a: int| 0 <= a < tv.len() && tv[a].0 == k;
                assert forall|b: int| 0 <= b < a implies (#[trigger] tv[b]).0 != k by {
                    assert(tv[b].0 != tv[a].0);
                }
                lemma_assoc_first(tv, k, a);
            } else {
                assert forall|b: int| 0 <= b < tv.len() implies (#[trigger] tv[b]).0 != k by {
                    if tv[b].0 == k {
                        assert(min_esc(rv, cap_id@, tv[b].0) == Some(ids@[b]));
                    }
                }
                lemma_assoc_none(tv, k);
            }
        }
    }
    table
}

proof fn lemma_approvals_err_extends(evs: Seq<EventV>, n: int, b: Seq<(i64, EscBinding)>, cap: Seq<char>, caps: Seq<(Seq<char>, Result<JsonV, Seq<char>>)>, e: BrokerErrV)
    requires
        0 <= n <= evs.len(),
        approvals(evs.subrange(0, n), b, cap, caps) == Err::<(Seq<i64>, Seq<(EscKey, i64)>), BrokerErrV>(e),
    ensures
        approvals(evs, b, cap, caps) == Err::<(Seq<i64>, Seq<(EscKey, i64)>), BrokerErrV>(e),
    decreases evs.len() - n,
{
    if n < evs.len() {
        assert(evs.subrange(0, n + 1).drop_last() =~= evs.subrange(0, n));
        lemma_approvals_err_extends(evs, n + 1, b, cap, caps, e);
    } else {
        assert(evs.subrange(0, n) =~= evs);
    }
}

proof fn lemma_reserve_signed_err_extends(evs: Seq<EventV>, n: int, cap: Seq<char>, m: Seq<(Seq<char>, u64)>, rem: Seq<(EscKey, i64)>, e: Seq<char>)
    requires
        0 <= n <= evs.len(),
        reserve_signed(evs.subrange(0, n), cap, m, rem) == Err::<(Seq<(Seq<char>, u64)>, Seq<(EscKey, i64)>), Seq<char>>(e),
    ensures
        reserve_signed(evs, cap, m, rem) == Err::<(Seq<(Seq<char>, u64)>, Seq<(EscKey, i64)>), Seq<char>>(e),
    decreases evs.len() - n,
{
    if n < evs.len() {
        assert(evs.subrange(0, n + 1).drop_last() =~= evs.subrange(0, n));
        lemma_reserve_signed_err_extends(evs, n + 1, cap, m, rem, e);
    } else {
        assert(evs.subrange(0, n) =~= evs);
    }
}

proof fn lemma_reserve_pending_err_extends(p: Seq<(Seq<char>, JsonV)>, n: int, cap: Seq<char>, m: Seq<(Seq<char>, u64)>, rem: Seq<(EscKey, i64)>, e: Seq<char>)
    requires
        0 <= n <= p.len(),
        reserve_pending(p.subrange(0, n), cap, m, rem) == Err::<(Seq<(Seq<char>, u64)>, Seq<(EscKey, i64)>), Seq<char>>(e),
    ensures
        reserve_pending(p, cap, m, rem) == Err::<(Seq<(Seq<char>, u64)>, Seq<(EscKey, i64)>), Seq<char>>(e),
    decreases p.len() - n,
{
    if n < p.len() {
        assert(p.subrange(0, n + 1).drop_last() =~= p.subrange(0, n));
        lemma_reserve_pending_err_extends(p, n + 1, cap, m, rem, e);
    } else {
        assert(p.subrange(0, n) =~= p);
    }
}

/// Rebuild budget consumption and approval headroom for `cap_id` from the
/// verified events alone, plus the broker's in-flight reservations
/// (`pending`: capability and signed checks of each dispatched call not yet
/// recorded). Mutable tables never widen authority: headroom comes only
/// from signed approvals that match their signed escalation.
pub fn w14_decision_authority(
    events: &Vec<VerifiedEvent>,
    substrate_span: &str,
    cap_id: &str,
    caps: &Vec<(String, Result<Json, String>)>,
    pending: &Vec<(String, Json)>,
) -> (r: Result<DecisionAuthority, BrokerError>)
    ensures
        match decision_authority(events_view(events@), substrate_span@, cap_id@, caps_view(caps@), pending_view(pending@)) {
            Err(e) => r matches Err(x) && x.view() == e,
            Ok((m, rem)) => r matches Ok(d) && meters_view(d.meters@) == m
                && forall|k: Seq<char>| #[trigger] assoc_get(pairs_view(d.exemptions@), k) == esc_name(min_esc(rem, cap_id@, k)),
        },
{
    let ghost allv = events_view(events@);
    let ordered = w11_span_events_in_signed_sequence(events, substrate_span);
    let ghost ov = events_view(ordered@);
    let bindings = match escalation_bindings_of(&ordered) {
        Ok(b) => b,
        Err(m) => return Err(violation(m)),
    };
    let ghost bv = esc_bindings_view(bindings@);
    let mut resolved: Vec<i64> = Vec::new();
    let mut remaining: Vec<((String, String, i64), i64)> = Vec::new();
    let mut i: usize = 0;
    proof {
        assert(ov.subrange(0, 0) =~= Seq::<EventV>::empty());
        assert(remaining_view(remaining@) =~= Seq::<(EscKey, i64)>::empty());
        assert(resolved@ =~= Seq::<i64>::empty());
    }
    while i < ordered.len()
        invariant
            i <= ordered.len(),
            ov == events_view(ordered@),
            bv == esc_bindings_view(bindings@),
            approvals(ov.subrange(0, i as int), bv, cap_id@, caps_view(caps@))
                == Ok::<(Seq<i64>, Seq<(EscKey, i64)>), BrokerErrV>((resolved@, remaining_view(remaining@))),
        decreases ordered.len() - i,
    {
        proof {
            assert(ov.subrange(0, i + 1).drop_last() =~= ov.subrange(0, i as int));
            assert(ov.subrange(0, i + 1).last() == ordered@[i as int].view());
        }
        match approval_event(&mut resolved, &mut remaining, &ordered[i], &bindings, cap_id, caps) {
            Ok(()) => {},
            Err(e) => {
                proof { lemma_approvals_err_extends(ov, i + 1, bv, cap_id@, caps_view(caps@), e.view()); }
                return Err(e);
            },
        }
        i += 1;
    }
    assert(ov.subrange(0, ordered.len() as int) =~= ov);
    let ghost rem0 = remaining_view(remaining@);

    let mut meters: Vec<(String, u64)> = Vec::new();
    let ghost m0 = meters_view(meters@);
    proof {
        assert(m0 =~= Seq::<(Seq<char>, u64)>::empty());
        assert(allv.subrange(0, 0) =~= Seq::<EventV>::empty());
    }
    let mut k: usize = 0;
    while k < events.len()
        invariant
            k <= events.len(),
            allv == events_view(events@),
            reserve_signed(allv.subrange(0, k as int), cap_id@, m0, rem0)
                == Ok::<(Seq<(Seq<char>, u64)>, Seq<(EscKey, i64)>), Seq<char>>((meters_view(meters@), remaining_view(remaining@))),
        decreases events.len() - k,
    {
        proof {
            assert(allv.subrange(0, k + 1).drop_last() =~= allv.subrange(0, k as int));
            assert(allv.subrange(0, k + 1).last() == events@[k as int].view());
        }
        let e = &events[k];
        let attributed = match body_of(e) {
            Some(b) => match b.get("summary") {
                Some(sm) => match sm.str_at("capability") {
                    Some(c) => str_eq(c, cap_id),
                    None => false,
                },
                None => false,
            },
            None => false,
        };
        proof {
            assert(JsonV::Null.at("summary"@) == JsonV::Null);
        }
        if str_eq(&e.kind, "tool_call") && attributed {
            let checks: Json = match body_of(e) {
                Some(b) => match b.get("checks") {
                    Some(c) => c.deep_clone(),
                    None => Json::Null,
                },
                None => Json::Null,
            };
            match w14_reserve_signed_checks(cap_id, &checks, &mut meters, &mut remaining) {
                Ok(()) => {},
                Err(x) => {
                    proof {
                        if let BrokerErrV::Violation(msg) = x.view() {
                            lemma_reserve_signed_err_extends(allv, k + 1, cap_id@, m0, rem0, msg);
                        }
                    }
                    return Err(x);
                },
            }
        }
        k += 1;
    }
    assert(allv.subrange(0, events.len() as int) =~= allv);
    let ghost m1 = meters_view(meters@);
    let ghost r1 = remaining_view(remaining@);
    let ghost pv = pending_view(pending@);
    let mut p: usize = 0;
    assert(pv.subrange(0, 0) =~= Seq::<(Seq<char>, JsonV)>::empty());
    while p < pending.len()
        invariant
            p <= pending.len(),
            pv == pending_view(pending@),
            reserve_pending(pv.subrange(0, p as int), cap_id@, m1, r1)
                == Ok::<(Seq<(Seq<char>, u64)>, Seq<(EscKey, i64)>), Seq<char>>((meters_view(meters@), remaining_view(remaining@))),
        decreases pending.len() - p,
    {
        proof {
            assert(pv.subrange(0, p + 1).drop_last() =~= pv.subrange(0, p as int));
            assert(pv.subrange(0, p + 1).last() == (pending@[p as int].0@, pending@[p as int].1@));
        }
        if str_eq(&pending[p].0, cap_id) {
            match w14_reserve_signed_checks(cap_id, &pending[p].1, &mut meters, &mut remaining) {
                Ok(()) => {},
                Err(x) => {
                    proof {
                        if let BrokerErrV::Violation(msg) = x.view() {
                            lemma_reserve_pending_err_extends(pv, p + 1, cap_id@, m1, r1, msg);
                        }
                    }
                    return Err(x);
                },
            }
        }
        p += 1;
    }
    assert(pv.subrange(0, pending.len() as int) =~= pv);
    let exemptions = exemptions_of(&remaining, cap_id);
    Ok(DecisionAuthority { meters, exemptions })
}

// ---------------------------------------------------------------------
// Closure and liveness at decision time; approval strength at promotion
// ---------------------------------------------------------------------

/// The broker refuses to grant a closed id: restoration is a new mint,
/// never reactivation.
pub fn refuse_closed_id(events: &Vec<VerifiedEvent>, id: &str) -> (r: Result<(), BrokerError>)
    ensures
        match assoc_get(revoke_offsets(events_view(events@)), id@) {
            Some(o) => r matches Err(BrokerError::CapabilityClosed(m)) && m@ == id@ + " was revoked at offset "@ + int_text(o)
                + "; closure is permanent for the id — mint a new capability"@,
            None => r is Ok,
        },
{
    let revokes = a22_revoke_offsets(events);
    match find_offset(&revokes, id) {
        Some(k) => Err(BrokerError::CapabilityClosed(cat(&cat(&cat(id, " was revoked at offset "), &int_string(revokes[k].1)),
            "; closure is permanent for the id — mint a new capability"))),
        None => Ok(()),
    }
}

/// Decision-time liveness of `cap_id` just past the observed head of one
/// verified snapshot.
pub open spec fn liveness(events: Seq<EventV>, head: int, substrate: Seq<char>, caps: Seq<(Seq<char>, Result<JsonV, Seq<char>>)>, cap_id: Seq<char>) -> Result<(), Seq<char>> {
    match ancestry(caps, cap_id) {
        Err(m) => Err(m),
        Ok(chain) => state_at(chain, head + 1, grant_bindings(events, substrate), revoke_offsets(events)),
    }
}

/// Liveness of `cap_id` at the head observed with a verified snapshot:
/// `Err(reason)` when closed or not activated.
pub fn liveness_at_head(
    snapshot: &crate::trace::VerifiedEventSnapshot,
    substrate_span: &str,
    caps: &Vec<(String, Result<Json, String>)>,
    cap_id: &str,
) -> (r: Result<(), String>)
    requires
        snapshot.head < i64::MAX,
    ensures
        match liveness(events_view(snapshot.events@), snapshot.head as int, substrate_span@, caps_view(caps@), cap_id@) {
            Ok(()) => r is Ok,
            Err(m) => r matches Err(x) && x@ == m,
        },
{
    let grants = a22_grant_bindings(&snapshot.events, substrate_span);
    let revokes = a22_revoke_offsets(&snapshot.events);
    let chain = match a22_ancestry(caps, cap_id) {
        Ok(c) => c,
        Err(m) => return Err(m),
    };
    a22_state_at(&chain, snapshot.head + 1, &grants, &revokes)
}

/// The capabilities granted for `manifest`, by exact binding.
pub open spec fn granted_for(bindings: Seq<(BindingKey, int)>, manifest: Seq<char>) -> Set<Seq<char>> {
    Set::new(|c: Seq<char>| exists|i: int| 0 <= i < bindings.len() && bindings[i].0.0 == c && bindings[i].0.1 == manifest)
}

/// The strongest minimum over `gs` (scanned in order), or the first failure.
pub open spec fn min_auth_over(gs: Seq<Seq<char>>, manifest: Seq<char>, caps: Seq<(Seq<char>, Result<JsonV, Seq<char>>)>, best: Option<(u8, Seq<char>)>) -> Result<Option<(u8, Seq<char>)>, BrokerErrV>
    decreases gs.len(),
{
    if gs.len() == 0 {
        Ok(best)
    } else {
        let c = gs[0];
        match cap_lookup(caps, c) {
            Err(x) => Err(BrokerErrV::Unavailable(x)),
            Ok(cap) => if cap.str_at("bound_manifest"@) != Some(manifest) {
                Err(BrokerErrV::Violation("grant binds capability "@ + c + " to "@ + manifest
                    + ", but its signed object binds a different manifest"@))
            } else {
                match required_strength(c, cap) {
                    Err(m) => Err(BrokerErrV::Violation(m)),
                    Ok(None) => min_auth_over(gs.drop_first(), manifest, caps, best),
                    Ok(Some((k, m))) => min_auth_over(gs.drop_first(), manifest, caps, match best {
                        Some((bk, bm)) => if k >= bk {
                            Some((k, m))
                        } else {
                            Some((bk, bm))
                        },
                        None => Some((k, m)),
                    }),
                }
            },
        }
    }
}

/// The verdict on approving a promotion of `manifest` at `auth`, given the
/// granted capabilities in increasing order.
pub open spec fn manifest_min_auth(gs: Seq<Seq<char>>, manifest: Seq<char>, caps: Seq<(Seq<char>, Result<JsonV, Seq<char>>)>, auth: Seq<char>) -> Result<(), BrokerErrV> {
    match min_auth_over(gs, manifest, caps, None) {
        Err(e) => Err(e),
        Ok(None) => Ok(()),
        Ok(Some((k, m))) => match spec_auth_rank(auth) {
            Some(h) => if h >= k {
                Ok(())
            } else {
                Err(BrokerErrV::TooWeak { have: auth, need: m })
            },
            None => Err(BrokerErrV::TooWeak { have: auth, need: m }),
        },
    }
}

/// The strongest `approval.min_auth` among the capabilities activated for
/// `manifest_id` (from verified grants, not the mutable object index) also
/// binds gate approvals: an approval at `auth_strength` must meet it.
pub fn check_min_auth_for_manifest(
    events: &Vec<VerifiedEvent>,
    substrate_span: &str,
    manifest_id: &str,
    auth_strength: &str,
    caps: &Vec<(String, Result<Json, String>)>,
) -> (r: Result<(), BrokerError>)
    ensures
        exists|gs: Seq<Seq<char>>| strictly_sorted(gs)
            && gs.to_set() == granted_for(grant_bindings(events_view(events@), substrate_span@), manifest_id@)
            && match manifest_min_auth(gs, manifest_id@, caps_view(caps@), auth_strength@) {
                Ok(()) => r is Ok,
                Err(e) => r matches Err(x) && x.view() == e,
            },
{
    let bindings = a22_grant_bindings(events, substrate_span);
    let ghost bv = bindings_view(bindings@);
    let mut set = Tree::new();
    let mut i: usize = 0;
    while i < bindings.len()
        invariant
            i <= bindings.len(),
            bv == bindings_view(bindings@),
            set.wf(),
            forall|c: Seq<char>| (#[trigger] set.at(c) is Some) <==> exists|j: int| 0 <= j < i && bv[j].0.0 == c && bv[j].0.1 == manifest_id@,
        decreases bindings.len() - i,
    {
        if str_eq(&bindings[i].0.1, manifest_id) {
            set.insert(bindings[i].0.0.clone(), String::new());
        }
        proof {
            assert forall|c: Seq<char>| (#[trigger] set.at(c) is Some) <==> exists|j: int| 0 <= j < i + 1 && bv[j].0.0 == c
                && bv[j].0.1 == manifest_id@ by {
                if bv[i as int].0.0 == c && bv[i as int].0.1 == manifest_id@ {
                    assert(0 <= i < i + 1 && bv[i as int].0.0 == c && bv[i as int].0.1 == manifest_id@);
                }
            }
        }
        i += 1;
    }
    let gs = tree_keys(&set);
    let ghost gv = string_views(gs@);
    proof {
        assert(gv.to_set() =~= granted_for(grant_bindings(events_view(events@), substrate_span@), manifest_id@));
        assert(gv.skip(0) =~= gv);
    }
    let mut best: Option<(u8, String)> = None;
    let mut k: usize = 0;
    while k < gs.len()
        invariant
            k <= gs.len(),
            gv == string_views(gs@),
            min_auth_over(gv, manifest_id@, caps_view(caps@), None) == min_auth_over(gv.skip(k as int), manifest_id@,
                caps_view(caps@), match best { Some((a, b)) => Some((a, b@)), None => None }),
        decreases gs.len() - k,
    {
        proof {
            assert(gv.skip(k as int).drop_first() =~= gv.skip(k + 1));
            assert(gv.skip(k as int)[0] == gs@[k as int]@);
        }
        let c = &gs[k];
        let cap = match load_capability(caps, c) {
            Ok(x) => x,
            Err(x) => return Err(BrokerError::Unavailable(x)),
        };
        let bound_ok = match cap.str_at("bound_manifest") {
            Some(m) => str_eq(m, manifest_id),
            None => false,
        };
        if !bound_ok {
            return Err(violation(cat(&cat(&cat(&cat("grant binds capability ", c), " to "), manifest_id),
                ", but its signed object binds a different manifest")));
        }
        match w14_required_approval_strength(c, cap) {
            Err(e) => return Err(e),
            Ok(None) => {},
            Ok(Some((rank, minimum))) => {
                best = match best {
                    Some((bk, bm)) => if rank >= bk {
                        Some((rank, minimum))
                    } else {
                        Some((bk, bm))
                    },
                    None => Some((rank, minimum)),
                };
            },
        }
        k += 1;
    }
    match best {
        None => Ok(()),
        Some((need_rank, need)) => match auth_rank(auth_strength) {
            Some(have_rank) => if have_rank >= need_rank {
                Ok(())
            } else {
                Err(BrokerError::ChannelTooWeak { have: auth_strength.to_owned(), need })
            },
            None => Err(BrokerError::ChannelTooWeak { have: auth_strength.to_owned(), need }),
        },
    }
}

// ---------------------------------------------------------------------
// The call decision pipeline
// ---------------------------------------------------------------------

impl BrokerError {
    /// The error's message.
    pub fn text(&self) -> (r: String)
        ensures
            !(self.view() == BrokerErrV::Canon(None)) && !(self.view() == BrokerErrV::Snapshot(None)) ==> r@ == broker_error_text(self.view()),
    {
        match self {
            BrokerError::GateTraceViolation(m) => cat(&cat("promotion gate: trace exceeds capability — ", m), " (nothing merged)"),
            BrokerError::ChannelTooWeak { have, need } => cat(&cat(&cat(&cat("approval channel too weak: ", have), " < required "), need),
                " (approval.min_auth)"),
            BrokerError::Unavailable(m) => m.clone(),
            BrokerError::CapabilityClosed(m) => cat("capability closed (§5.4): ", m),
            BrokerError::M1 { store, manifest } => cat(&cat(&cat(&cat("M1 violation: capability would grant access to store ", store),
                " not covered by manifest "), manifest), " roots"),
            BrokerError::NoActionAllow => "mint requires an action.allow caveat (a capability that allows nothing is a bug, not a grant)"
                .to_owned(),
            BrokerError::InvalidRevocation(m) => cat("invalid revocation: ", m),
            BrokerError::Cap(e) => e.text(),
            BrokerError::Canon(e) => e.text(),
            BrokerError::Snapshot(e) => e.text(),
            BrokerError::MalformedPromotion { id, detail } => cat(&cat(&cat("promotion ", &int_string(*id)),
                " has no valid immutable candidate: "), detail),
            BrokerError::NoSuchPromotion(id) => cat(&cat("promotion ", &int_string(*id)), " not found or not pending"),
            BrokerError::NoSuchEscalation(id) => cat(&cat("escalation ", &int_string(*id)), " not found or not pending"),
            BrokerError::UnknownStore(m) => cat("unknown store ", m),
            BrokerError::MalformedManifest { id, detail } => cat(&cat(&cat("manifest ", id), " malformed: "), detail),
        }
    }
}

/// How a broker error reads.
pub open spec fn broker_error_text(e: BrokerErrV) -> Seq<char> {
    match e {
        BrokerErrV::Violation(m) => "promotion gate: trace exceeds capability — "@ + m + " (nothing merged)"@,
        BrokerErrV::TooWeak { have, need } => "approval channel too weak: "@ + have + " < required "@ + need + " (approval.min_auth)"@,
        BrokerErrV::Unavailable(m) => m,
        BrokerErrV::Closed(m) => "capability closed (§5.4): "@ + m,
        BrokerErrV::M1 { store, manifest } => "M1 violation: capability would grant access to store "@ + store
            + " not covered by manifest "@ + manifest + " roots"@,
        BrokerErrV::NoActionAllow => "mint requires an action.allow caveat (a capability that allows nothing is a bug, not a grant)"@,
        BrokerErrV::InvalidRevocation(m) => "invalid revocation: "@ + m,
        BrokerErrV::Cap(m) => m,
        BrokerErrV::Canon(t) => match t {
            Some(m) => m,
            None => "canonicalization failed"@,
        },
        BrokerErrV::Snapshot(t) => match t {
            Some(m) => m,
            None => "snapshot failed"@,
        },
        BrokerErrV::MalformedPromotion { id, detail } => "promotion "@ + int_text(id as int) + " has no valid immutable candidate: "@
            + detail,
        BrokerErrV::NoSuchPromotion(id) => "promotion "@ + int_text(id as int) + " not found or not pending"@,
        BrokerErrV::NoSuchEscalation(id) => "escalation "@ + int_text(id as int) + " not found or not pending"@,
        BrokerErrV::UnknownStore(m) => "unknown store "@ + m,
        BrokerErrV::MalformedManifest { id, detail } => "manifest "@ + id + " malformed: "@ + detail,
    }
}

/// What the broker does with a proposed call. Nothing is executed here.
#[derive(Debug)]
pub enum CallPlan {
    /// Deny, recording the failed caveat keys, the structural reason and
    /// the checks.
    Deny { failed: Vec<String>, structural: Option<String>, checks: Json },
    /// Allow: the checks to record, the call's summary, and the credential
    /// to inject into the forwarded copy of the arguments (argument name,
    /// secret name), if the registration declares one.
    Allow { checks: Json, reversibility: String, summary: Json, credential: Option<(String, String)> },
    /// Park: one escalation per failing caveat key, with a sample of the call.
    Escalate { failed: Vec<String>, sample: Json },
}

pub enum CallPlanV {
    Deny { failed: Seq<Seq<char>>, structural: Option<Seq<char>>, checks: JsonV },
    Allow { checks: JsonV, reversibility: Seq<char>, summary: JsonV, credential: Option<(Seq<char>, Seq<char>)> },
    Escalate { failed: Seq<Seq<char>>, sample: JsonV },
}

impl CallPlan {
    pub open spec fn view(&self) -> CallPlanV {
        match self {
            CallPlan::Deny { failed, structural, checks } => CallPlanV::Deny {
                failed: string_views(failed@),
                structural: opt_chars(*structural),
                checks: checks@,
            },
            CallPlan::Allow { checks, reversibility, summary, credential } => CallPlanV::Allow {
                checks: checks@,
                reversibility: reversibility@,
                summary: summary@,
                credential: match credential {
                    Some((a, b)) => Some((a@, b@)),
                    None => None,
                },
            },
            CallPlan::Escalate { failed, sample } => CallPlanV::Escalate { failed: string_views(failed@), sample: sample@ },
        }
    }
}

/// The write paths a call's context carries, as JSON.
pub open spec fn paths_json(p: Option<Seq<Seq<char>>>) -> JsonV {
    match p {
        Some(v) => str_array(v),
        None => JsonV::Null,
    }
}

/// The context a proposed call is evaluated under: the registered action's
/// class, reversibility and side effect (conservative defaults), the write
/// paths the registration declares among the call's arguments, the clock
/// and the current manifest.
pub open spec fn call_ctx(tool: Seq<char>, action: Seq<char>, reg: JsonV, args: JsonV, now: Seq<char>, manifest: Seq<char>) -> CtxV {
    let class = match reg.str_at("class"@) {
        Some(c) => c,
        None => "write"@,
    };
    CtxV {
        tool,
        action,
        reversibility: match reg.str_at("reversibility"@) {
            Some(x) => x,
            None => "irreversible"@,
        },
        side_effect: match reg.str_at("side_effect"@) {
            Some(x) => x,
            None => "external"@,
        },
        action_class: class,
        write_paths: if class == "write"@ || class == "delete"@ || class == "move"@ {
            Some(match reg.at("path_args"@).as_array() {
                Some(a) => path_values(a, args),
                None => Seq::empty(),
            })
        } else {
            None
        },
        now,
        current_manifest: manifest,
    }
}

/// The credential a registration declares: `credentials.arg` and
/// `credentials.secret`, both strings.
pub open spec fn declared_credential(reg: JsonV) -> Option<(Seq<char>, Seq<char>)> {
    match reg.get("credentials"@) {
        Some(c) => if c == JsonV::Null {
            None
        } else {
            match (c.str_at("arg"@), c.str_at("secret"@)) {
                (Some(a), Some(x)) => Some((a, x)),
                _ => None,
            }
        },
        None => None,
    }
}

/// The decision pipeline: a capability that does not load, is not live at
/// the head, or names an undeclared action is denied structurally, as is a
/// call whose signed authority cannot be rebuilt; otherwise the evaluator
/// decides under the rebuilt meters and exemptions.
pub open spec fn call_plan(
    cap_id: Seq<char>,
    tool: Seq<char>,
    action: Seq<char>,
    args: JsonV,
    now: Seq<char>,
    cap: Result<JsonV, Seq<char>>,
    live: Result<(), Seq<char>>,
    tools: Seq<JsonV>,
    manifest: Option<Seq<char>>,
    authority: Result<(Seq<(Seq<char>, u64)>, Seq<(Seq<char>, Seq<char>)>), Seq<char>>,
) -> CallPlanV {
    let empty = JsonV::Array(Seq::empty());
    match cap {
        Err(e) => CallPlanV::Deny { failed: Seq::empty(), structural: Some("capability object invalid (F1/RF-19): "@ + e), checks: empty },
        Ok(c) => match live {
            Err(why) => CallPlanV::Deny { failed: Seq::empty(), structural: Some(why), checks: empty },
            Ok(()) => match registered_action(tools, tool, action) {
                None => CallPlanV::Deny {
                    failed: Seq::empty(),
                    structural: Some("tool "@ + tool + " has no declared action "@ + action + " — undeclared actions cannot be called"@),
                    checks: empty,
                },
                Some(reg) => match authority {
                    Err(e) => CallPlanV::Deny {
                        failed: Seq::empty(),
                        structural: Some("signed decision authority unavailable: "@ + e),
                        checks: empty,
                    },
                    Ok((meters, exemptions)) => {
                        let man = match manifest {
                            Some(m) => m,
                            None => "man:none"@,
                        };
                        let ctx = call_ctx(tool, action, reg, args, now, man);
                        let ev = spec_evaluate(c, ctx, meters, exemptions);
                        let checks = JsonV::Array(ev.checks.map_values(|k: CheckV| crate::evaluate::check_json(k)));
                        match ev.outcome {
                            OutcomeV::Allow => CallPlanV::Allow {
                                checks,
                                reversibility: ctx.reversibility,
                                summary: JsonV::Object(seq![
                                    ("action_class"@, JsonV::Str(ctx.action_class)),
                                    ("capability"@, JsonV::Str(cap_id)),
                                    ("paths"@, paths_json(ctx.write_paths)),
                                ]),
                                credential: declared_credential(reg),
                            },
                            OutcomeV::Escalate { failed } => CallPlanV::Escalate {
                                failed,
                                sample: JsonV::Object(seq![
                                    ("action"@, JsonV::Str(action)),
                                    ("paths"@, paths_json(ctx.write_paths)),
                                    ("tool"@, JsonV::Str(tool)),
                                ]),
                            },
                            OutcomeV::Deny { failed, structural } => CallPlanV::Deny { failed, structural, checks },
                        }
                    },
                },
            },
        },
    }
}

fn empty_array() -> (r: Json)
    ensures
        r@ == JsonV::Array(Seq::empty()),
{
    let v: Vec<Json> = Vec::new();
    proof { lemma_elems_view_len(v@); }
    assert(elems_view(v@) =~= Seq::<JsonV>::empty());
    Json::Array(v)
}

fn no_strings() -> (r: Vec<String>)
    ensures
        string_views(r@) == Seq::<Seq<char>>::empty(),
{
    let v: Vec<String> = Vec::new();
    assert(string_views(v@) =~= Seq::<Seq<char>>::empty());
    v
}

/// An object of three fields, in the given order.
fn obj3(k1: &str, v1: Json, k2: &str, v2: Json, k3: &str, v3: Json) -> (r: Json)
    ensures
        r@ == JsonV::Object(seq![(k1@, v1@), (k2@, v2@), (k3@, v3@)]),
{
    let ghost (w1, w2, w3) = (v1@, v2@, v3@);
    let mut f: Vec<(String, Json)> = Vec::new();
    f.push((k1.to_owned(), v1));
    f.push((k2.to_owned(), v2));
    f.push((k3.to_owned(), v3));
    proof { crate::json::lemma_fields_view_len(f@); }
    assert(crate::json::fields_view(f@) =~= seq![(k1@, w1), (k2@, w2), (k3@, w3)]);
    Json::Object(f)
}

fn opt_paths_json(p: &Option<Vec<String>>) -> (r: Json)
    ensures
        r@ == paths_json(match p {
            Some(v) => Some(string_views(v@)),
            None => None,
        }),
{
    match p {
        Some(v) => strings_json(v),
        None => Json::Null,
    }
}

fn copy_strings(v: &Vec<String>) -> (r: Vec<String>)
    ensures
        string_views(r@) == string_views(v@),
{
    let mut out: Vec<String> = Vec::new();
    let mut i: usize = 0;
    while i < v.len()
        invariant
            i <= v.len(),
            string_views(out@) == string_views(v@).subrange(0, i as int),
        decreases v.len() - i,
    {
        out.push(v[i].clone());
        assert(string_views(out@) =~= string_views(v@).subrange(0, i + 1));
        i += 1;
    }
    assert(string_views(v@).subrange(0, v.len() as int) =~= string_views(v@));
    out
}

fn credential_of(reg: &Json) -> (r: Option<(String, String)>)
    ensures
        match r {
            Some((a, b)) => declared_credential(reg@) == Some((a@, b@)),
            None => declared_credential(reg@) is None,
        },
{
    match reg.get("credentials") {
        Some(c) => if c.is_null() {
            None
        } else {
            match (c.str_at("arg"), c.str_at("secret")) {
                (Some(a), Some(x)) => Some((a.to_owned(), x.to_owned())),
                _ => None,
            }
        },
        None => None,
    }
}

/// Decide a proposed call under `cap_id`, from what the broker gathered:
/// the capability as its loader returned it, its liveness at the head, the
/// tool registrations, the current manifest and the rebuilt authority (or
/// the text of why it could not be rebuilt).
pub fn propose_call(
    cap_id: &str,
    tool: &str,
    action: &str,
    args: &Json,
    now: &str,
    cap: &Result<Json, String>,
    live: &Result<(), String>,
    tool_objects: &Vec<Json>,
    manifest: &Option<String>,
    authority: &Result<DecisionAuthority, String>,
) -> (r: CallPlan)
    ensures
        r.view() == call_plan(cap_id@, tool@, action@, args@, now@, manifest_view(*cap), match live {
            Ok(()) => Ok(()),
            Err(w) => Err(w@),
        }, elems_view(tool_objects@), opt_chars(*manifest), match authority {
            Ok(d) => Ok((meters_view(d.meters@), pairs_view(d.exemptions@))),
            Err(e) => Err(e@),
        }),
{
    let c = match cap {
        Ok(c) => c,
        Err(e) => {
            return CallPlan::Deny {
                failed: no_strings(),
                structural: Some(cat("capability object invalid (F1/RF-19): ", e)),
                checks: empty_array(),
            };
        },
    };
    match live {
        Err(why) => {
            return CallPlan::Deny { failed: no_strings(), structural: Some(why.clone()), checks: empty_array() };
        },
        Ok(()) => {},
    }
    let reg = match find_action(tool_objects, tool, action) {
        Ok(r) => r,
        Err(_) => {
            return CallPlan::Deny {
                failed: no_strings(),
                structural: Some(cat(&cat(&cat(&cat("tool ", tool), " has no declared action "), action),
                    " — undeclared actions cannot be called")),
                checks: empty_array(),
            };
        },
    };
    let auth = match authority {
        Ok(a) => a,
        Err(e) => {
            return CallPlan::Deny {
                failed: no_strings(),
                structural: Some(cat("signed decision authority unavailable: ", e)),
                checks: empty_array(),
            };
        },
    };
    let man: &str = match manifest {
        Some(m) => m.as_str(),
        None => "man:none",
    };
    let class: &str = match reg.str_at("class") {
        Some(c) => c,
        None => "write",
    };
    let write_paths = if str_eq(class, "write") || str_eq(class, "delete") || str_eq(class, "move") {
        Some(extract_paths(&reg, args))
    } else {
        None
    };
    let ctx = CallCtx {
        tool,
        action,
        reversibility: match reg.str_at("reversibility") {
            Some(x) => x,
            None => "irreversible",
        },
        side_effect: match reg.str_at("side_effect") {
            Some(x) => x,
            None => "external",
        },
        action_class: class,
        write_paths,
        now,
        current_manifest: man,
    };
    assert(ctx.view() == call_ctx(tool@, action@, reg@, args@, now@, match opt_chars(*manifest) {
        Some(m) => m,
        None => "man:none"@,
    }));
    let eval = evaluate(c, &ctx, &auth.meters, &auth.exemptions);
    let checks = crate::evaluate::checks_json(&eval.checks);
    match &eval.outcome {
        Outcome::Allow => {
            let summary = obj3("action_class", Json::from_str(class), "capability", Json::from_str(cap_id), "paths",
                opt_paths_json(&ctx.write_paths));
            CallPlan::Allow { checks, reversibility: ctx.reversibility.to_owned(), summary, credential: credential_of(&reg) }
        },
        Outcome::Escalate { failed } => {
            let sample = obj3("action", Json::from_str(action), "paths", opt_paths_json(&ctx.write_paths), "tool",
                Json::from_str(tool));
            CallPlan::Escalate { failed: copy_strings(failed), sample }
        },
        Outcome::Deny { failed, structural } => CallPlan::Deny {
            failed: copy_strings(failed),
            structural: crate::trace::copy_opt(structural),
            checks,
        },
    }
}

// ---------------------------------------------------------------------
// Laws
// ---------------------------------------------------------------------

proof fn lemma_replay_step_brokered(st: ReplayV, e: EventV, env: GateEnv)
    requires
        env.brokered,
    ensures
        replay_step(st, e, env) matches Ok(s2) ==> s2.unattributed == st.unattributed,
{
}

proof fn lemma_replay_brokered(evs: Seq<EventV>, st: ReplayV, env: GateEnv)
    requires
        env.brokered,
    ensures
        replay(evs, st, env) matches Ok(s2) ==> s2.unattributed == st.unattributed,
    decreases evs.len(),
{
    if evs.len() > 0 {
        lemma_replay_brokered(evs.drop_last(), st, env);
        match replay(evs.drop_last(), st, env) {
            Ok(s) => lemma_replay_step_brokered(s, evs.last(), env),
            Err(_) => {},
        }
    }
}

/// Under brokered authority every replayed tool call must be attributed to
/// a capability: a promotion replay that passes counts no unattributed call.
pub proof fn law_brokered_gate_attributes_every_call(
    all: Seq<EventV>,
    span: Seq<char>,
    substrate: Seq<char>,
    manifest_id: Seq<char>,
    man: JsonV,
    caps: Seq<(Seq<char>, Result<JsonV, Seq<char>>)>,
    tools: Seq<JsonV>,
)
    requires
        man.at("authority"@).at("mode"@) == JsonV::Str("brokered"@),
    ensures
        gate_outcome(all, span, substrate, manifest_id, Ok(man), caps, tools) matches Ok(st) ==> st.unattributed == 0,
{
    let env = GateEnv {
        brokered: true,
        manifest: manifest_id,
        caps,
        tools,
        grants: manifest_grant_offsets(all, substrate, manifest_id),
        bindings: grant_bindings(all, substrate),
        revokes: revoke_offsets(all),
    };
    let init = ReplayV {
        meters: Seq::empty(),
        approved: approved_headroom(all, substrate),
        tool_calls: 0,
        unattributed: 0,
        caps: Set::empty(),
    };
    lemma_replay_brokered(signed_sequence(all, span), init, env);
}

proof fn lemma_first_revoked_none(chain: Seq<(Seq<char>, Seq<char>)>, o: int, revokes: Seq<(Seq<char>, int)>)
    requires
        first_revoked(chain, o, revokes) is None,
    ensures
        forall|i: int| 0 <= i < chain.len() ==> (assoc_get(revokes, (#[trigger] chain[i]).0) matches Some(r) ==> r >= o),
    decreases chain.len(),
{
    if chain.len() > 0 {
        lemma_first_revoked_none(chain.drop_first(), o, revokes);
        assert forall|i: int| 0 <= i < chain.len() implies (assoc_get(revokes, (#[trigger] chain[i]).0) matches Some(r) ==> r >= o) by {
            if i > 0 {
                assert(chain[i] == chain.drop_first()[i - 1]);
            }
        }
    }
}

proof fn lemma_activation_ok(chain: Seq<(Seq<char>, Seq<char>)>, grants: Seq<(BindingKey, int)>, i: int, child: Option<int>)
    requires
        0 <= i,
        activation_fault(chain, grants, i, child) is None,
    ensures
        forall|j: int| i <= j < chain.len() ==> assoc_get(grants, #[trigger] link_binding(chain, j)) is Some,
        forall|j: int| i <= j && j + 1 < chain.len() ==> assoc_get(grants, #[trigger] link_binding(chain, j + 1))->0
            < assoc_get(grants, link_binding(chain, j))->0,
        i < chain.len() ==> (child matches Some(cg) ==> assoc_get(grants, link_binding(chain, i))->0 < cg),
    decreases chain.len() - i,
{
    if i < chain.len() {
        let g = assoc_get(grants, link_binding(chain, i))->0;
        lemma_activation_ok(chain, grants, i + 1, Some(g));
    }
}

/// A capability is live at an offset only if none of its ancestry was
/// revoked before that offset, every link was granted under its exact
/// signed binding with each ancestor granted strictly before its child,
/// and the leaf was granted before the offset.
pub proof fn law_liveness_requires_grant_and_no_prior_revoke(
    chain: Seq<(Seq<char>, Seq<char>)>,
    o: int,
    grants: Seq<(BindingKey, int)>,
    revokes: Seq<(Seq<char>, int)>,
)
    requires
        state_at(chain, o, grants, revokes) is Ok,
    ensures
        chain.len() > 0,
        forall|i: int| 0 <= i < chain.len() ==> (assoc_get(revokes, (#[trigger] chain[i]).0) matches Some(r) ==> r >= o),
        forall|j: int| 0 <= j < chain.len() ==> assoc_get(grants, #[trigger] link_binding(chain, j)) is Some,
        forall|j: int| 0 <= j && j + 1 < chain.len() ==> assoc_get(grants, #[trigger] link_binding(chain, j + 1))->0
            < assoc_get(grants, link_binding(chain, j))->0,
        assoc_get(grants, link_binding(chain, 0))->0 < o,
{
    lemma_first_revoked_none(chain, o, revokes);
    lemma_activation_ok(chain, grants, 0, None);
}

proof fn lemma_first_revoked_later(chain: Seq<(Seq<char>, Seq<char>)>, o: int, revokes: Seq<(Seq<char>, int)>, c: Seq<char>, x: int)
    requires
        x >= o,
    ensures
        first_revoked(chain, o, if assoc_get(revokes, c) is None { revokes.push((c, x)) } else { revokes })
            == first_revoked(chain, o, revokes),
    decreases chain.len(),
{
    if chain.len() > 0 {
        lemma_first_revoked_later(chain.drop_first(), o, revokes, c, x);
        assert(revokes.push((c, x)).drop_last() =~= revokes);
    }
}

/// A revoke recorded at or after an operation's offset never changes that
/// operation's liveness: closure is judged at the offset, so it never
/// retro-fails earlier work.
pub proof fn law_later_revoke_never_retro_fails(
    chain: Seq<(Seq<char>, Seq<char>)>,
    o: int,
    grants: Seq<(BindingKey, int)>,
    evs: Seq<EventV>,
    e: EventV,
)
    requires
        e.offset >= o,
    ensures
        state_at(chain, o, grants, revoke_offsets(evs.push(e))) == state_at(chain, o, grants, revoke_offsets(evs)),
{
    assert(evs.push(e).drop_last() =~= evs);
    match revoke_target(e) {
        Some(c) => lemma_first_revoked_later(chain, o, revoke_offsets(evs), c, e.offset),
        None => {},
    }
}

} // verus!
