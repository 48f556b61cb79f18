//! The approval surface's data: which escalation an approval binds to, how
//! a repeat violation batches, and the bodies of the events that record a
//! denial, an escalation, a grant and a resolution.
//!
//! An approval binds to what the signed substrate chain says an escalation
//! was for, never to mutable table rows: the capability, the manifest and
//! the caveat key of its signed escalation events, which must all agree,
//! and no earlier approval of the same escalation.

use vstd::prelude::*;
use crate::json::{elems_view, fields_view, lemma_elems_view_len, lemma_elems_view_push, lemma_fields_view_len, str_eq, Json, JsonV};
use crate::authority::{BrokerError, BrokerErrV};
use crate::trace::EventV;

verus! {

// ---------------------------------------------------------------------
// Binding an approval to its signed escalation
// ---------------------------------------------------------------------

/// What an escalation is for: capability, manifest and caveat key.
#[derive(Debug)]
pub struct EscalationBinding {
    pub capability: String,
    pub manifest: String,
    pub caveat: String,
}

/// Why an approval cannot bind while walking the substrate span.
pub enum BindFault {
    /// The escalation was already resolved.
    Resolved,
    /// Its signed escalation events disagree on what it was for.
    Conflicting,
}

/// The binding an escalation event carries, when it carries all of it.
pub open spec fn event_binding(ev: EventV) -> Option<(Seq<char>, Seq<char>, Seq<char>)> {
    let body = ev.raw.at("body"@);
    match (body.str_at("capability"@), ev.manifest, body.str_at("caveat"@)) {
        (Some(c), Some(m), Some(k)) => Some((c, m, k)),
        _ => None,
    }
}

/// Walk the substrate span's signed sequence for escalation `id`: an
/// approval of it means it is resolved; its escalation events that carry a
/// full binding must all carry the same one.
pub open spec fn binding_scan(s: Seq<EventV>, id: i64) -> Result<Option<(Seq<char>, Seq<char>, Seq<char>)>, BindFault>
    decreases s.len(),
{
    if s.len() == 0 {
        Ok(None)
    } else {
        match binding_scan(s.drop_last(), id) {
            Err(f) => Err(f),
            Ok(b) => {
                let ev = s.last();
                let esc = ev.raw.at("body"@).at("escalation"@).as_i64();
                if ev.kind == "approval"@ {
                    if esc == Some(id) {
                        Err(BindFault::Resolved)
                    } else {
                        Ok(b)
                    }
                } else if ev.kind != "escalation"@ || esc != Some(id) {
                    Ok(b)
                } else {
                    match event_binding(ev) {
                        None => Ok(b),
                        Some(c) => match b {
                            Some(old) => if old != c {
                                Err(BindFault::Conflicting)
                            } else {
                                Ok(Some(c))
                            },
                            None => Ok(Some(c)),
                        },
                    }
                }
            },
        }
    }
}

proof fn lemma_bind_err_sticks(s: Seq<EventV>, k: int, id: i64)
    requires
        0 <= k <= s.len(),
        binding_scan(s.take(k), id) is Err,
    ensures
        binding_scan(s, id) == binding_scan(s.take(k), id),
    decreases s.len() - k,
{
    if k < s.len() {
        assert(s.take(k + 1).drop_last() =~= s.take(k));
        lemma_bind_err_sticks(s, k + 1, id);
    } else {
        assert(s.take(k) =~= s);
    }
}

/// An escalation once resolved stays resolved: when the substrate span's
/// signed sequence holds an approval event for escalation `id`, no
/// approval can bind to it again.
pub proof fn law_resolved_escalation_refused(s: Seq<EventV>, k: int, id: i64)
    requires
        0 <= k < s.len(),
        s[k].kind == "approval"@,
        s[k].raw.at("body"@).at("escalation"@).as_i64() == Some(id),
    ensures
        binding_scan(s, id) is Err,
{
    assert(s.take(k + 1).drop_last() =~= s.take(k));
    assert(s.take(k + 1).last() == s[k]);
    lemma_bind_err_sticks(s, k + 1, id);
}

fn body_i64(ev: &crate::trace::VerifiedEvent, key: &str) -> (r: Option<i64>)
    ensures
        r == ev.raw@.at("body"@).at(key@).as_i64(),
{
    proof { reveal_strlit("body"); }
    match ev.raw.get("body") {
        Some(b) => match b.get(key) {
            Some(p) => p.as_i64(),
            None => None,
        },
        None => None,
    }
}

fn body_string(ev: &crate::trace::VerifiedEvent, key: &str) -> (r: Option<String>)
    ensures
        match r {
            Some(x) => ev.raw@.at("body"@).str_at(key@) == Some(x@),
            None => ev.raw@.at("body"@).str_at(key@) is None,
        },
{
    proof { reveal_strlit("body"); }
    match ev.raw.get("body") {
        Some(b) => match b.str_at(key) {
            Some(x) => Some(x.to_owned()),
            None => None,
        },
        None => None,
    }
}

/// Resolve what escalation `escalation` binds from the verified substrate
/// chain. Mutable table status and selectors are never enough to create
/// or redirect an approval.
pub fn w14_pending_escalation(
    events: &Vec<crate::trace::VerifiedEvent>,
    substrate: &str,
    escalation: i64,
) -> (r: Result<EscalationBinding, BrokerError>)
    ensures
        match binding_scan(crate::authority::signed_sequence(crate::trace::events_view(events@), substrate@), escalation) {
            Ok(Some((c, m, k))) => r matches Ok(b) && b.capability@ == c && b.manifest@ == m && b.caveat@ == k,
            Ok(None) => r matches Err(e) && e.view() == BrokerErrV::NoSuchEscalation(escalation),
            Err(BindFault::Resolved) => r matches Err(e) && e.view() == BrokerErrV::NoSuchEscalation(escalation),
            Err(BindFault::Conflicting) => r matches Err(e) && e.view() == BrokerErrV::Violation("signed escalation "@
                + crate::json_text::int_text(escalation as int) + " has conflicting bindings"@),
        },
{
    proof {
        reveal_strlit("approval");
        reveal_strlit("escalation");
        reveal_strlit("capability");
        reveal_strlit("caveat");
    }
    let ordered = crate::authority::w11_span_events_in_signed_sequence(events, substrate);
    let ghost ov = crate::trace::events_view(ordered@);
    let mut binding: Option<EscalationBinding> = None;
    let ghost bv: Option<(Seq<char>, Seq<char>, Seq<char>)> = None;
    let mut i: usize = 0;
    assert(ov.take(0) =~= Seq::<EventV>::empty());
    while i < ordered.len()
        invariant
            i <= ordered@.len(),
            ov == crate::trace::events_view(ordered@),
            ov.len() == ordered@.len(),
            binding_scan(ov.take(i as int), escalation) == Ok::<Option<(Seq<char>, Seq<char>, Seq<char>)>, BindFault>(bv),
            match binding {
                Some(b) => bv == Some((b.capability@, b.manifest@, b.caveat@)),
                None => bv is None,
            },
        decreases ordered@.len() - i,
    {
        let ev = &ordered[i];
        assert(ov.take(i + 1).drop_last() =~= ov.take(i as int));
        assert(ov.take(i + 1).last() == ev.view());
        let esc = body_i64(ev, "escalation");
        if str_eq(ev.kind.as_str(), "approval") {
            if esc == Some(escalation) {
                proof { lemma_bind_err_sticks(ov, i + 1, escalation); }
                return Err(BrokerError::NoSuchEscalation(escalation));
            }
        } else if str_eq(ev.kind.as_str(), "escalation") && esc == Some(escalation) {
            let cap = body_string(ev, "capability");
            let cav = body_string(ev, "caveat");
            match (cap, crate::trace::copy_opt(&ev.manifest), cav) {
                (Some(c), Some(m), Some(k)) => {
                    let same = match &binding {
                        Some(old) => str_eq(old.capability.as_str(), c.as_str()) && str_eq(old.manifest.as_str(), m.as_str())
                            && str_eq(old.caveat.as_str(), k.as_str()),
                        None => true,
                    };
                    if !same {
                        proof { lemma_bind_err_sticks(ov, i + 1, escalation); }
                        return Err(BrokerError::GateTraceViolation(crate::capability::cat(
                            &crate::capability::cat("signed escalation ", crate::authority::int_string(escalation).as_str()),
                            " has conflicting bindings",
                        )));
                    }
                    proof { bv = Some((c@, m@, k@)); }
                    binding = Some(EscalationBinding { capability: c, manifest: m, caveat: k });
                },
                _ => {},
            }
        }
        i += 1;
    }
    assert(ov.take(i as int) =~= ov);
    match binding {
        Some(b) => Ok(b),
        None => Err(BrokerError::NoSuchEscalation(escalation)),
    }
}

// ---------------------------------------------------------------------
// Batching (A9)
// ---------------------------------------------------------------------

/// A batch keeps at most five samples.
pub open spec fn batch_limit() -> int {
    5
}

/// A repeat violation's samples: the new sample joins while the batch has
/// fewer than five.
pub fn batched_samples(samples: Vec<Json>, sample: Json) -> (r: Vec<Json>)
    ensures
        elems_view(r@) == (if samples@.len() < batch_limit() {
            elems_view(samples@).push(sample@)
        } else {
            elems_view(samples@)
        }),
{
    let mut s = samples;
    if s.len() < 5 {
        let ghost prev = s@;
        s.push(sample);
        proof {
            lemma_elems_view_push(prev, sample);
        }
    }
    s
}

/// The pending escalation of one (capability, caveat key): its id, its
/// violation count and its samples.
#[derive(Debug)]
pub struct PendingBatch {
    pub id: i64,
    pub count: i64,
    pub samples: Vec<Json>,
}

/// What a violation does to the escalation queue: it joins the pending
/// batch of its (capability, caveat key), or opens a new one.
#[derive(Debug)]
pub enum BatchStep {
    Join { id: i64, count: i64, samples: Vec<Json> },
    Open { samples: Vec<Json> },
}

/// One pending batch per (capability, caveat key): a repeat violation
/// joins the pending batch (count up by one, its sample kept while the
/// batch holds fewer than five); a first violation opens a batch of one
/// with its sample.
pub fn escalation_batch_step(pending: Option<PendingBatch>, sample: Json) -> (r: BatchStep)
    requires
        pending matches Some(p) ==> p.count < i64::MAX,
    ensures
        match pending {
            Some(p) => r matches BatchStep::Join { id, count, samples } && id == p.id && count == p.count + 1
                && elems_view(samples@) == (if p.samples@.len() < batch_limit() {
                    elems_view(p.samples@).push(sample@)
                } else {
                    elems_view(p.samples@)
                }),
            None => r matches BatchStep::Open { samples } && elems_view(samples@) == seq![sample@],
        },
{
    match pending {
        Some(p) => {
            let samples = batched_samples(p.samples, sample);
            BatchStep::Join { id: p.id, count: p.count + 1, samples }
        },
        None => {
            let mut samples: Vec<Json> = Vec::new();
            samples.push(sample);
            proof { lemma_elems_view_len(samples@); }
            assert(elems_view(samples@) =~= seq![samples@[0]@]);
            BatchStep::Open { samples }
        },
    }
}

// ---------------------------------------------------------------------
// Event bodies
// ---------------------------------------------------------------------

/// Strings as a JSON array.
pub open spec fn str_array(s: Seq<Seq<char>>) -> JsonV {
    JsonV::Array(s.map_values(|x: Seq<char>| JsonV::Str(x)))
}

/// An optional string as JSON.
pub open spec fn opt_str_json(o: Option<Seq<char>>) -> JsonV {
    match o {
        Some(s) => JsonV::Str(s),
        None => JsonV::Null,
    }
}

fn strings_json(v: &Vec<String>) -> (r: Json)
    ensures
        r@ == str_array(crate::json::string_views(v@)),
{
    let mut out: Vec<Json> = Vec::new();
    let mut i: usize = 0;
    while i < v.len()
        invariant
            i <= v@.len(),
            elems_view(out@) == crate::json::string_views(v@).map_values(|x: Seq<char>| JsonV::Str(x)).take(i as int),
        decreases v@.len() - i,
    {
        let ghost prev = out@;
        out.push(Json::from_str(v[i].as_str()));
        proof {
            lemma_elems_view_push(prev, out@.last());
            assert(out@ =~= prev.push(out@.last()));
            assert(crate::json::string_views(v@).map_values(|x: Seq<char>| JsonV::Str(x)).take(i + 1)
                =~= crate::json::string_views(v@).map_values(|x: Seq<char>| JsonV::Str(x)).take(i as int).push(JsonV::Str(v@[i as int]@)));
        }
        i += 1;
    }
    assert(crate::json::string_views(v@).map_values(|x: Seq<char>| JsonV::Str(x)).take(i as int)
        =~= crate::json::string_views(v@).map_values(|x: Seq<char>| JsonV::Str(x)));
    Json::Array(out)
}

fn opt_string_json(o: &Option<String>) -> (r: Json)
    ensures
        r@ == opt_str_json(crate::trace::opt_chars(*o)),
{
    match o {
        Some(s) => Json::from_str(s.as_str()),
        None => Json::Null,
    }
}

/// The body of the verdict event that records a broker denial.
pub open spec fn denial_json(cap: Seq<char>, tool: Seq<char>, action: Seq<char>, failed: Seq<Seq<char>>, structural: Option<Seq<char>>, checks: JsonV) -> JsonV {
    JsonV::Object(seq![
        ("action"@, JsonV::Str(action)),
        ("capability"@, JsonV::Str(cap)),
        ("checks"@, checks),
        ("failed"@, str_array(failed)),
        ("source"@, JsonV::Str("broker"@)),
        ("structural"@, opt_str_json(structural)),
        ("tool"@, JsonV::Str(tool)),
        ("verdict"@, JsonV::Str("deny"@)),
    ])
}

/// The body of the verdict event for a mechanical broker denial: the
/// capability, the call, the failed caveat keys, the structural reason
/// and the checks.
pub fn denial_body(cap: &str, tool: &str, action: &str, failed: &Vec<String>, structural: &Option<String>, checks: &Json) -> (r: Json)
    ensures
        r@ == denial_json(cap@, tool@, action@, crate::json::string_views(failed@), crate::trace::opt_chars(*structural), checks@),
{
    let mut f: Vec<(String, Json)> = Vec::new();
    f.push(("action".to_owned(), Json::from_str(action)));
    f.push(("capability".to_owned(), Json::from_str(cap)));
    f.push(("checks".to_owned(), checks.deep_clone()));
    f.push(("failed".to_owned(), strings_json(failed)));
    f.push(("source".to_owned(), Json::from_str("broker")));
    f.push(("structural".to_owned(), opt_string_json(structural)));
    f.push(("tool".to_owned(), Json::from_str(tool)));
    f.push(("verdict".to_owned(), Json::from_str("deny")));
    proof {
        lemma_fields_view_len(f@);
        assert(fields_view(f@) =~= match denial_json(cap@, tool@, action@, crate::json::string_views(failed@),
            crate::trace::opt_chars(*structural), checks@) {
            JsonV::Object(x) => x,
            _ => Seq::empty(),
        });
    }
    Json::Object(f)
}

/// A call's sample in an escalation batch.
pub open spec fn sample_json(tool: Seq<char>, action: Seq<char>, paths: Option<Seq<Seq<char>>>) -> JsonV {
    JsonV::Object(seq![
        ("action"@, JsonV::Str(action)),
        ("paths"@, match paths {
            Some(p) => str_array(p),
            None => JsonV::Null,
        }),
        ("tool"@, JsonV::Str(tool)),
    ])
}

/// The sample an escalated call contributes to its batch.
pub fn escalation_sample(tool: &str, action: &str, write_paths: &Option<Vec<String>>) -> (r: Json)
    ensures
        r@ == sample_json(tool@, action@, match write_paths {
            Some(p) => Some(crate::json::string_views(p@)),
            None => None,
        }),
{
    let paths = match write_paths {
        Some(p) => strings_json(p),
        None => Json::Null,
    };
    let mut f: Vec<(String, Json)> = Vec::new();
    f.push(("action".to_owned(), Json::from_str(action)));
    f.push(("paths".to_owned(), paths));
    f.push(("tool".to_owned(), Json::from_str(tool)));
    proof {
        lemma_fields_view_len(f@);
        assert(fields_view(f@) =~= match sample_json(tool@, action@, match write_paths {
            Some(p) => Some(crate::json::string_views(p@)),
            None => None,
        }) {
            JsonV::Object(x) => x,
            _ => Seq::empty(),
        });
    }
    Json::Object(f)
}

/// The body of the escalation event for one batch.
pub open spec fn escalation_json(id: i64, cap: Seq<char>, key: Seq<char>, count: i64, sample: JsonV) -> JsonV {
    JsonV::Object(seq![
        ("capability"@, JsonV::Str(cap)),
        ("caveat"@, JsonV::Str(key)),
        ("count"@, JsonV::Int(count as int)),
        ("escalation"@, JsonV::Int(id as int)),
        ("sample"@, JsonV::Array(seq![sample])),
    ])
}

/// The body of the escalation event that records a batch's new count and
/// the sample that raised it.
pub fn escalation_body(id: i64, cap: &str, key: &str, count: i64, sample: &Json) -> (r: Json)
    ensures
        r@ == escalation_json(id, cap@, key@, count, sample@),
{
    let mut samples: Vec<Json> = Vec::new();
    samples.push(sample.deep_clone());
    proof { lemma_elems_view_len(samples@); }
    let ghost sv = elems_view(samples@);
    let mut f: Vec<(String, Json)> = Vec::new();
    f.push(("capability".to_owned(), Json::from_str(cap)));
    f.push(("caveat".to_owned(), Json::from_str(key)));
    f.push(("count".to_owned(), Json::from_i64(count)));
    f.push(("escalation".to_owned(), Json::from_i64(id)));
    f.push(("sample".to_owned(), Json::Array(samples)));
    proof {
        lemma_fields_view_len(f@);
        assert(sv =~= seq![sample@]);
        assert(fields_view(f@) =~= match escalation_json(id, cap@, key@, count, sample@) {
            JsonV::Object(x) => x,
            _ => Seq::empty(),
        });
    }
    Json::Object(f)
}

/// The body of the approval event that resolves an escalation batch.
pub open spec fn resolution_json(
    id: i64,
    resolution: Seq<char>,
    uses: i64,
    binding: (Seq<char>, Seq<char>),
    channel: Seq<char>,
    auth_strength: Seq<char>,
) -> JsonV {
    JsonV::Object(seq![
        ("auth_strength"@, JsonV::Str(auth_strength)),
        ("capability"@, JsonV::Str(binding.0)),
        ("caveat"@, JsonV::Str(binding.1)),
        ("channel"@, JsonV::Str(channel)),
        ("escalation"@, JsonV::Int(id as int)),
        ("resolution"@, JsonV::Str(resolution)),
        ("uses"@, JsonV::Int(uses as int)),
    ])
}

/// The body of the approval event resolving escalation `id`: approved
/// (with how many uses it exempts) or denied, by which channel at which
/// strength, for the capability and caveat its signed escalation names.
pub fn escalation_resolution_body(
    id: i64,
    approved: bool,
    uses: i64,
    binding: &EscalationBinding,
    channel: &str,
    auth_strength: &str,
) -> (r: Json)
    ensures
        r@ == resolution_json(id, if approved {
            "approved"@
        } else {
            "denied"@
        }, uses, (binding.capability@, binding.caveat@), channel@, auth_strength@),
{
    let resolution = if approved {
        "approved"
    } else {
        "denied"
    };
    let mut f: Vec<(String, Json)> = Vec::new();
    f.push(("auth_strength".to_owned(), Json::from_str(auth_strength)));
    f.push(("capability".to_owned(), Json::from_str(binding.capability.as_str())));
    f.push(("caveat".to_owned(), Json::from_str(binding.caveat.as_str())));
    f.push(("channel".to_owned(), Json::from_str(channel)));
    f.push(("escalation".to_owned(), Json::from_i64(id)));
    f.push(("resolution".to_owned(), Json::from_str(resolution)));
    f.push(("uses".to_owned(), Json::from_i64(uses)));
    proof {
        lemma_fields_view_len(f@);
        assert(fields_view(f@) =~= match resolution_json(id, resolution@, uses, (binding.capability@, binding.caveat@), channel@,
            auth_strength@) {
            JsonV::Object(x) => x,
            _ => Seq::empty(),
        });
    }
    Json::Object(f)
}

/// Whether a resolution grants exemptions: an approval of at least one use.
pub fn grants_exemption(approved: bool, uses: i64) -> (r: bool)
    ensures
        r == (approved && uses > 0),
{
    approved && uses > 0
}

/// The body of the grant event that activates a capability.
pub open spec fn grant_json(cap: Seq<char>, parent: Option<Seq<char>>) -> JsonV {
    JsonV::Object(seq![("capability"@, JsonV::Str(cap)), ("parent"@, opt_str_json(parent))])
}

/// The body of the grant event activating `cap` under its parent.
pub fn grant_body(cap: &str, parent: Option<&str>) -> (r: Json)
    ensures
        r@ == grant_json(cap@, match parent {
            Some(p) => Some(p@),
            None => None,
        }),
{
    let p = match parent {
        Some(x) => Json::from_str(x),
        None => Json::Null,
    };
    let mut f: Vec<(String, Json)> = Vec::new();
    f.push(("capability".to_owned(), Json::from_str(cap)));
    f.push(("parent".to_owned(), p));
    proof {
        lemma_fields_view_len(f@);
        assert(fields_view(f@) =~= match grant_json(cap@, match parent {
            Some(p) => Some(p@),
            None => None,
        }) {
            JsonV::Object(x) => x,
            _ => Seq::empty(),
        });
    }
    Json::Object(f)
}

} // verus!
