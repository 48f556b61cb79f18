//! Minting, attenuation, revocation requests and the advertisable view of
//! a capability.
//!
//! M1 is enforced at mint time: every store reachable through the allowed
//! tools must be covered by the bound manifest's state roots. A capability
//! is sealed with the fabric key; an id that was ever revoked is never
//! granted again, because restoration is a new mint.

use vstd::prelude::*;
use crate::json::{str_eq, Json, JsonV, elems_view, lemma_elems_view_len, string_views, fields_view, lemma_fields_view_len, strings_of};
use crate::json_text::{json_text, int_text};
use crate::capability::{cat, build, verify_attenuation, spec_build_body, spec_attenuation, CapError};
use crate::canon::{seal, compute_id, hash_body, id_text, jcs_canonical, domain_err, sealed_as, CanonError};
use crate::tools::{stores_for_tool, stores_of_tool};
use crate::trace::{VerifiedEvent, events_view, opt_chars};
use crate::authority::{BrokerError, BrokerErrV, refuse_closed_id, revoke_offsets, assoc_get, blank, is_blank, tree_keys,
    strictly_sorted, or_empty};
use crate::promote::Tree;
use crate::{parse_instant, rfc3339_instant};

verus! {

// ---------------------------------------------------------------------
// M1: a capability's reach stays inside its manifest
// ---------------------------------------------------------------------

/// The first `action.allow` caveat.
pub open spec fn first_allow(cavs: Seq<JsonV>) -> Option<JsonV>
    decreases cavs.len(),
{
    if cavs.len() == 0 {
        None
    } else if cavs[0].at("dim"@) == JsonV::Str("action.allow"@) {
        Some(cavs[0])
    } else {
        first_allow(cavs.drop_first())
    }
}

/// The stores a manifest's state roots cover.
pub open spec fn root_stores(man: JsonV) -> Seq<Seq<char>> {
    match man.at("state"@).at("roots"@).as_array() {
        Some(rs) => store_names(rs),
        None => Seq::empty(),
    }
}

pub open spec fn store_names(rs: Seq<JsonV>) -> Seq<Seq<char>>
    decreases rs.len(),
{
    if rs.len() == 0 {
        Seq::empty()
    } else {
        match rs[0].str_at("store"@) {
            Some(s) => seq![s] + store_names(rs.drop_first()),
            None => store_names(rs.drop_first()),
        }
    }
}

/// The first of `stores` the roots do not cover.
pub open spec fn first_uncovered(stores: Seq<Seq<char>>, roots: Seq<Seq<char>>) -> Option<Seq<char>>
    decreases stores.len(),
{
    if stores.len() == 0 {
        None
    } else if !roots.contains(stores[0]) {
        Some(stores[0])
    } else {
        first_uncovered(stores.drop_first(), roots)
    }
}

/// The first store, over the allowed tools in order, that the roots do
/// not cover. A tool named by a non-string counts as the empty name.
pub open spec fn uncovered_over(tools: Seq<JsonV>, objs: Seq<JsonV>, roots: Seq<Seq<char>>) -> Option<Seq<char>>
    decreases tools.len(),
{
    if tools.len() == 0 {
        None
    } else {
        let name = or_empty(tools[0].as_str());
        match first_uncovered(stores_of_tool(Seq::empty(), objs, name), roots) {
            Some(s) => Some(s),
            None => uncovered_over(tools.drop_first(), objs, roots),
        }
    }
}

/// The M1 verdict for minting under `manifest_id` with `cavs`.
pub open spec fn m1_verdict(manifest_id: Seq<char>, man: JsonV, cavs: Seq<JsonV>, objs: Seq<JsonV>) -> Result<(), BrokerErrV> {
    match first_allow(cavs) {
        None => Err(BrokerErrV::NoActionAllow),
        Some(allow) => {
            let tools = match allow.at("tools"@).as_array() {
                Some(t) => t,
                None => Seq::empty(),
            };
            match uncovered_over(tools, objs, root_stores(man)) {
                Some(s) => Err(BrokerErrV::M1 { store: s, manifest: manifest_id }),
                None => Ok(()),
            }
        },
    }
}

fn contains_str(v: &Vec<String>, s: &str) -> (r: bool)
    ensures
        r == string_views(v@).contains(s@),
{
    let mut i: usize = 0;
    while i < v.len()
        invariant
            i <= v.len(),
            forall|j: int| 0 <= j < i ==> string_views(v@)[j] != s@,
        decreases v.len() - i,
    {
        if str_eq(&v[i], s) {
            assert(string_views(v@)[i as int] == s@);
            return true;
        }
        i += 1;
    }
    false
}

fn root_stores_of(man: &Json) -> (r: Vec<String>)
    ensures
        string_views(r@) == root_stores(man@),
{
    let mut out: Vec<String> = Vec::new();
    let rs = match man.get("state") {
        Some(st) => match st.get("roots") {
            Some(r) => match r.as_array() {
                Some(a) => a,
                None => {
                    assert(string_views(out@) =~= Seq::<Seq<char>>::empty());
                    return out;
                },
            },
            None => {
                assert(string_views(out@) =~= Seq::<Seq<char>>::empty());
                return out;
            },
        },
        None => {
            assert(JsonV::Null.at("roots"@) == JsonV::Null);
            assert(string_views(out@) =~= Seq::<Seq<char>>::empty());
            return out;
        },
    };
    let ghost rv = elems_view(rs@);
    proof { lemma_elems_view_len(rs@); }
    let mut i: usize = 0;
    assert(rv.skip(0) =~= rv);
    assert(string_views(out@) =~= Seq::<Seq<char>>::empty());
    assert(Seq::<Seq<char>>::empty() + store_names(rv) =~= store_names(rv));
    while i < rs.len()
        invariant
            i <= rs.len(),
            rv == elems_view(rs@),
            rv.len() == rs.len(),
            string_views(out@) + store_names(rv.skip(i as int)) == store_names(rv),
        decreases rs.len() - i,
    {
        proof {
            assert(rv.skip(i as int).drop_first() =~= rv.skip(i + 1));
            assert(rv.skip(i as int)[0] == rs@[i as int]@);
        }
        let ghost before = string_views(out@);
        match rs[i].str_at("store") {
            Some(s) => {
                out.push(s.to_owned());
                assert(string_views(out@) =~= before.push(s@));
                assert(before.push(s@) + store_names(rv.skip(i + 1)) =~= before + (seq![s@] + store_names(rv.skip(i + 1))));
            },
            None => {},
        }
        i += 1;
    }
    assert(rv.skip(rs.len() as int) =~= Seq::<JsonV>::empty());
    assert(string_views(out@) + Seq::<Seq<char>>::empty() =~= string_views(out@));
    out
}

/// M1: every store reachable through the allowed tools must be present in
/// the bound manifest's roots (`manifest` is the loaded manifest object).
/// Applies equally to root grants and attenuated children.
pub fn check_m1(manifest_id: &str, manifest: &Json, caveats: &Vec<Json>, tool_objects: &Vec<Json>) -> (r: Result<(), BrokerError>)
    ensures
        match m1_verdict(manifest_id@, manifest@, elems_view(caveats@), elems_view(tool_objects@)) {
            Ok(()) => r is Ok,
            Err(e) => r matches Err(x) && x.view() == e,
        },
{
    let ghost cv = elems_view(caveats@);
    proof { lemma_elems_view_len(caveats@); }
    let mut k: usize = 0;
    assert(cv.skip(0) =~= cv);
    let mut allow: Option<&Json> = None;
    while k < caveats.len()
        invariant
            k <= caveats.len(),
            cv == elems_view(caveats@),
            cv.len() == caveats.len(),
            allow is None,
            first_allow(cv) == first_allow(cv.skip(k as int)),
        decreases caveats.len() - k,
    {
        proof {
            assert(cv.skip(k as int).drop_first() =~= cv.skip(k + 1));
            assert(cv.skip(k as int)[0] == caveats@[k as int]@);
        }
        let is_allow = match caveats[k].get("dim") {
            Some(d) => crate::json::json_is_str(d, "action.allow"),
            None => false,
        };
        if is_allow {
            allow = Some(&caveats[k]);
            break;
        }
        k += 1;
    }
    let allow = match allow {
        Some(a) => a,
        None => {
            assert(cv.skip(caveats.len() as int) =~= Seq::<JsonV>::empty());
            return Err(BrokerError::NoActionAllow);
        },
    };
    assert(first_allow(cv) == Some(allow@));
    let roots = root_stores_of(manifest);
    let no_tools: Vec<Json> = Vec::new();
    proof { lemma_elems_view_len(no_tools@); }
    let tools: &Vec<Json> = match allow.get("tools") {
        Some(t) => match t.as_array() {
            Some(a) => a,
            None => &no_tools,
        },
        None => &no_tools,
    };
    assert(elems_view(no_tools@) =~= Seq::<JsonV>::empty());
    let ghost tv = elems_view(tools@);
    let ghost objs = elems_view(tool_objects@);
    proof { lemma_elems_view_len(tools@); }
    let mut i: usize = 0;
    assert(tv.skip(0) =~= tv);
    while i < tools.len()
        invariant
            i <= tools.len(),
            tv == elems_view(tools@),
            tv.len() == tools.len(),
            objs == elems_view(tool_objects@),
            string_views(roots@) == root_stores(manifest@),
            uncovered_over(tv, objs, string_views(roots@)) == uncovered_over(tv.skip(i as int), objs, string_views(roots@)),
        decreases tools.len() - i,
    {
        proof {
            assert(tv.skip(i as int).drop_first() =~= tv.skip(i + 1));
            assert(tv.skip(i as int)[0] == tools@[i as int]@);
        }
        let name: &str = match tools[i].as_str() {
            Some(s) => s,
            None => "",
        };
        let stores = stores_for_tool(tool_objects, name);
        let ghost sv = string_views(stores@);
        let mut j: usize = 0;
        assert(sv.skip(0) =~= sv);
        while j < stores.len()
            invariant
                j <= stores.len(),
                sv == string_views(stores@),
                string_views(roots@) == root_stores(manifest@),
                first_uncovered(sv, string_views(roots@)) == first_uncovered(sv.skip(j as int), string_views(roots@)),
            decreases stores.len() - j,
        {
            proof {
                assert(sv.skip(j as int).drop_first() =~= sv.skip(j + 1));
                assert(sv.skip(j as int)[0] == stores@[j as int]@);
            }
            if !contains_str(&roots, &stores[j]) {
                return Err(BrokerError::M1 { store: stores[j].clone(), manifest: manifest_id.to_owned() });
            }
            j += 1;
        }
        assert(sv.skip(stores.len() as int) =~= Seq::<Seq<char>>::empty());
        i += 1;
    }
    assert(tv.skip(tools.len() as int) =~= Seq::<JsonV>::empty());
    Ok(())
}

// ---------------------------------------------------------------------
// Minting and attenuation
// ---------------------------------------------------------------------

/// What sealing `body` under `prefix` yields: the id, or `None` when the
/// body is outside the canonical domain or does not canonicalize.
pub open spec fn sealed_id(prefix: Seq<char>, body: Seq<(Seq<char>, JsonV)>) -> Option<Seq<char>> {
    if domain_err(JsonV::Object(hash_body(body)), Seq::empty()) is Some {
        None
    } else {
        match jcs_canonical(json_text(JsonV::Object(hash_body(body)))) {
            Some(b) => Some(id_text(prefix, b)),
            None => None,
        }
    }
}

/// Seal a capability body and refuse a closed id.
fn seal_capability(
    body: Json,
    events: &Vec<VerifiedEvent>,
    sk: &[u8; 32],
) -> (r: Result<(String, Vec<(String, Json)>), BrokerError>)
    requires
        body@ is Object,
    ensures
        match sealed_id("cap"@, body@->Object_0) {
            None => r matches Err(BrokerError::Canon(_)),
            Some(id) => match assoc_get(revoke_offsets(events_view(events@)), id) {
                Some(o) => r matches Err(BrokerError::CapabilityClosed(m)) && m@ == id + " was revoked at offset "@
                    + int_text(o) + "; closure is permanent for the id — mint a new capability"@,
                None => r matches Ok((i, sealed)) && i@ == id && sealed_as(hash_body(body@->Object_0), id, sk@, fields_view(sealed@)),
            },
        },
{
    let fields = match body {
        Json::Object(f) => f,
        _ => {
            return Err(BrokerError::Canon(CanonError::NotAnObject));
        },
    };
    proof { lemma_fields_view_len(fields@); }
    let id = match compute_id("cap", &fields) {
        Ok(id) => id,
        Err(e) => return Err(BrokerError::Canon(e)),
    };
    let sealed = match seal("cap", fields, sk) {
        Ok(s) => s,
        Err(e) => return Err(BrokerError::Canon(e)),
    };
    match refuse_closed_id(events, &id) {
        Ok(()) => {},
        Err(e) => return Err(e),
    }
    Ok((id, sealed))
}

/// Mint a capability bound to `manifest_id`: M1 against the loaded
/// manifest, the body (expiry is mandatory), the seal with the fabric key,
/// and the refusal of an id that was ever revoked. Returns the id and the
/// sealed object.
pub fn mint_at(
    manifest_id: &str,
    manifest: &Json,
    holder: &str,
    caveats: Vec<Json>,
    escalatable: Vec<&str>,
    expires_at: &str,
    issued_at: &str,
    tool_objects: &Vec<Json>,
    events: &Vec<VerifiedEvent>,
    sk: &[u8; 32],
) -> (r: Result<(String, Vec<(String, Json)>), BrokerError>)
    ensures
        match m1_verdict(manifest_id@, manifest@, elems_view(caveats@), elems_view(tool_objects@)) {
            Err(e) => r matches Err(x) && x.view() == e,
            Ok(()) => if expires_at@.len() == 0 {
                r matches Err(BrokerError::Cap(CapError::NoExpiry))
            } else {
                let body = spec_build_body(holder@, manifest_id@, None, issued_at@, expires_at@, elems_view(caveats@),
                    escalatable@.map_values(|s: &str| s@));
                match sealed_id("cap"@, body->Object_0) {
                    None => r matches Err(BrokerError::Canon(_)),
                    Some(id) => match assoc_get(revoke_offsets(events_view(events@)), id) {
                        Some(o) => r matches Err(BrokerError::CapabilityClosed(_)),
                        None => r matches Ok((i, sealed)) && i@ == id && sealed_as(hash_body(body->Object_0), id, sk@, fields_view(sealed@)),
                    },
                }
            },
        },
{
    match check_m1(manifest_id, manifest, &caveats, tool_objects) {
        Ok(()) => {},
        Err(e) => return Err(e),
    }
    let body = match build(holder, manifest_id, None, issued_at, expires_at, caveats, escalatable) {
        Ok(b) => b,
        Err(e) => return Err(BrokerError::Cap(e)),
    };
    seal_capability(body, events, sk)
}

/// Attenuate `parent_id` into a child capability: the parent must load and
/// be live at the head, M1 holds for the child's manifest, every dimension
/// of the child is a subset of the parent's, and the child's id was never
/// revoked. The child may bind to a different manifest (hermetic
/// sub-agents).
pub fn attenuate(
    parent_id: &str,
    parent: &Result<Json, String>,
    parent_live: &Result<(), String>,
    holder: &str,
    bound_manifest: &str,
    manifest: &Json,
    caveats: Vec<Json>,
    escalatable: Vec<&str>,
    expires_at: &str,
    now: &str,
    tool_objects: &Vec<Json>,
    events: &Vec<VerifiedEvent>,
    sk: &[u8; 32],
) -> (r: Result<(String, Vec<(String, Json)>), BrokerError>)
    ensures
        match parent {
            Err(e) => r matches Err(BrokerError::Unavailable(x)) && x@ == e@,
            Ok(p) => match parent_live {
                Err(why) => r matches Err(BrokerError::CapabilityClosed(x)) && x@ == why@,
                Ok(()) => match m1_verdict(bound_manifest@, manifest@, elems_view(caveats@), elems_view(tool_objects@)) {
                    Err(e) => r matches Err(x) && x.view() == e,
                    Ok(()) => if expires_at@.len() == 0 {
                        r matches Err(BrokerError::Cap(CapError::NoExpiry))
                    } else {
                        let body = spec_build_body(holder@, bound_manifest@, Some(parent_id@), now@, expires_at@,
                            elems_view(caveats@), escalatable@.map_values(|s: &str| s@));
                        if spec_attenuation(p@, body) is Some {
                            r matches Err(BrokerError::Cap(_))
                        } else {
                            match sealed_id("cap"@, body->Object_0) {
                                None => r matches Err(BrokerError::Canon(_)),
                                Some(id) => match assoc_get(revoke_offsets(events_view(events@)), id) {
                                    Some(o) => r matches Err(BrokerError::CapabilityClosed(_)),
                                    None => r matches Ok((i, sealed)) && i@ == id
                                        && sealed_as(hash_body(body->Object_0), id, sk@, fields_view(sealed@)),
                                },
                            }
                        }
                    },
                },
            },
        },
{
    let p = match parent {
        Ok(p) => p,
        Err(e) => return Err(BrokerError::Unavailable(e.clone())),
    };
    match parent_live {
        Ok(()) => {},
        Err(why) => return Err(BrokerError::CapabilityClosed(why.clone())),
    }
    match check_m1(bound_manifest, manifest, &caveats, tool_objects) {
        Ok(()) => {},
        Err(e) => return Err(e),
    }
    let body = match build(holder, bound_manifest, Some(parent_id), now, expires_at, caveats, escalatable) {
        Ok(b) => b,
        Err(e) => return Err(BrokerError::Cap(e)),
    };
    match verify_attenuation(p, &body) {
        Ok(()) => {},
        Err(e) => return Err(BrokerError::Cap(e)),
    }
    seal_capability(body, events, sk)
}

// ---------------------------------------------------------------------
// Revocation requests
// ---------------------------------------------------------------------

/// The signed body of a revoke: the target, the reason, and the channel
/// with its strength (both `null` for a broker-mechanical cause).
pub open spec fn revoke_body_view(cap_id: Seq<char>, reason: Seq<char>, channel: Option<(Seq<char>, Seq<char>)>) -> JsonV {
    JsonV::Object(seq![
        ("auth_strength"@, match channel {
            Some((_, a)) => JsonV::Str(a),
            None => JsonV::Null,
        }),
        ("capability"@, JsonV::Str(cap_id)),
        ("channel"@, match channel {
            Some((c, _)) => JsonV::Str(c),
            None => JsonV::Null,
        }),
        ("reason"@, JsonV::Str(reason)),
    ])
}

/// Check a request to close `cap_id` early and build the revoke's body.
/// The target must be a loadable capability with a bound manifest (a
/// typo'd kill fails loudly); the reason must not be blank; a
/// broker-originated request (no channel) must name a mechanical reason.
/// Returns the target's bound manifest and the body.
pub fn revocation_body(
    cap_id: &str,
    cap: &Result<Json, String>,
    reason: &str,
    channel: Option<(&str, &str)>,
) -> (r: Result<(String, Json), BrokerError>)
    ensures
        match cap {
            Err(e) => r matches Err(BrokerError::InvalidRevocation(m)) && m@ == "target "@ + cap_id@ + " not found: "@ + e@,
            Ok(c) => match c@.str_at("bound_manifest"@) {
                None => r matches Err(BrokerError::InvalidRevocation(m)) && m@ == "target "@ + cap_id@ + " has no bound_manifest"@,
                Some(bm) => if blank(reason@) {
                    r matches Err(BrokerError::InvalidRevocation(m)) && m@ == "reason must be non-empty"@
                } else if channel is None && reason@ == "operator_request"@ {
                    r matches Err(BrokerError::InvalidRevocation(m)) && m@
                        == "broker-originated revocation must carry a mechanical reason, never operator_request (§5.4)"@
                } else {
                    r matches Ok((m, b)) && m@ == bm && b@ == revoke_body_view(cap_id@, reason@, match channel {
                        Some((x, y)) => Some((x@, y@)),
                        None => None,
                    })
                },
            },
        },
{
    let c = match cap {
        Ok(c) => c,
        Err(e) => return Err(BrokerError::InvalidRevocation(cat(&cat(&cat("target ", cap_id), " not found: "), e))),
    };
    let bound = match c.str_at("bound_manifest") {
        Some(b) => b.to_owned(),
        None => return Err(BrokerError::InvalidRevocation(cat(&cat("target ", cap_id), " has no bound_manifest"))),
    };
    if is_blank(reason) {
        return Err(BrokerError::InvalidRevocation("reason must be non-empty".to_owned()));
    }
    if channel.is_none() && str_eq(reason, "operator_request") {
        return Err(BrokerError::InvalidRevocation(
            "broker-originated revocation must carry a mechanical reason, never operator_request (§5.4)".to_owned(),
        ));
    }
    let (chan, auth) = match channel {
        Some((c, a)) => (Json::from_str(c), Json::from_str(a)),
        None => (Json::Null, Json::Null),
    };
    let mut f: Vec<(String, Json)> = Vec::new();
    f.push(("auth_strength".to_owned(), auth));
    f.push(("capability".to_owned(), Json::from_str(cap_id)));
    f.push(("channel".to_owned(), chan));
    f.push(("reason".to_owned(), Json::from_str(reason)));
    proof { lemma_fields_view_len(f@); }
    assert(fields_view(f@) =~= revoke_body_view(cap_id@, reason@, match channel {
        Some((x, y)) => Some((x@, y@)),
        None => None,
    })->Object_0);
    Ok((bound, Json::Object(f)))
}

// ---------------------------------------------------------------------
// The advertisable view of a capability
// ---------------------------------------------------------------------

/// Whether a capability may be advertised and dispatched under: verified
/// and loaded, bound to the current manifest, with a live mandatory expiry,
/// and live at the head.
pub open spec fn advertisable(
    id: Seq<char>,
    capability: Result<JsonV, Seq<char>>,
    current: Option<Seq<char>>,
    now: Seq<char>,
    live: Result<(), Seq<char>>,
) -> Result<JsonV, BrokerErrV> {
    match capability {
        Err(e) => Err(BrokerErrV::Unavailable(e)),
        Ok(c) => match current {
            None => Err(BrokerErrV::Violation("no current manifest for capability advertisement"@)),
            Some(cur) => if c.str_at("bound_manifest"@) != Some(cur) {
                Err(BrokerErrV::Violation("capability "@ + id + " is not bound to current manifest "@ + cur + " (M2)"@))
            } else {
                match c.str_at("expires_at"@) {
                    None => Err(BrokerErrV::Violation("capability "@ + id + " has no mandatory expiry"@)),
                    Some(exp) => match (rfc3339_instant(now), rfc3339_instant(exp)) {
                        (Some(n), Some(b)) if n <= b => match live {
                            Ok(()) => Ok(c),
                            Err(why) => Err(BrokerErrV::Closed(why)),
                        },
                        _ => Err(BrokerErrV::Violation("capability "@ + id + " is expired or has an invalid expiry"@)),
                    },
                }
            },
        },
    }
}

/// The capability prerequisite shared by tool advertisement and dispatch.
pub fn current_advertisable_capability(
    id: &str,
    capability: Result<Json, String>,
    current: &Option<String>,
    now: &str,
    live: &Result<(), String>,
) -> (r: Result<Json, BrokerError>)
    ensures
        match advertisable(id@, crate::authority::manifest_view(capability), opt_chars(*current), now@, match live {
            Ok(()) => Ok(()),
            Err(w) => Err(w@),
        }) {
            Ok(c) => r matches Ok(x) && x@ == c,
            Err(e) => r matches Err(x) && x.view() == e,
        },
{
    let c = match capability {
        Ok(c) => c,
        Err(e) => return Err(BrokerError::Unavailable(e)),
    };
    let cur = match current {
        Some(m) => m,
        None => return Err(BrokerError::GateTraceViolation("no current manifest for capability advertisement".to_owned())),
    };
    let bound_ok = match c.str_at("bound_manifest") {
        Some(b) => str_eq(b, cur),
        None => false,
    };
    if !bound_ok {
        return Err(BrokerError::GateTraceViolation(cat(&cat(&cat(&cat("capability ", id), " is not bound to current manifest "), cur),
            " (M2)")));
    }
    let expiry = match c.str_at("expires_at") {
        Some(e) => e,
        None => return Err(BrokerError::GateTraceViolation(cat(&cat("capability ", id), " has no mandatory expiry"))),
    };
    let in_time = match (parse_instant(now), parse_instant(expiry)) {
        (Some(n), Some(b)) => n <= b,
        _ => false,
    };
    if !in_time {
        return Err(BrokerError::GateTraceViolation(cat(&cat("capability ", id), " is expired or has an invalid expiry")));
    }
    match live {
        Ok(()) => {},
        Err(why) => return Err(BrokerError::CapabilityClosed(why.clone())),
    }
    Ok(c)
}

// ---------------------------------------------------------------------
// Descendants: what a revoke of a capability closes
// ---------------------------------------------------------------------

/// The parent the stored objects give `q` (the last entry for `q`).
pub open spec fn parent_of(objs: Seq<(Seq<char>, Option<Seq<char>>)>, q: Seq<char>) -> Option<Seq<char>>
    decreases objs.len(),
{
    if objs.len() == 0 {
        None
    } else if objs.last().0 == q {
        objs.last().1
    } else {
        parent_of(objs.drop_last(), q)
    }
}

/// Walking parents from `cur`, at most `hops` steps, reaches `target`.
pub open spec fn reaches(objs: Seq<(Seq<char>, Option<Seq<char>>)>, cur: Seq<char>, target: Seq<char>, hops: nat) -> bool
    decreases hops,
{
    if cur == target {
        true
    } else if hops == 0 {
        false
    } else {
        match parent_of(objs, cur) {
            Some(p) => reaches(objs, p, target, (hops - 1) as nat),
            None => false,
        }
    }
}

pub open spec fn objects_view(s: Seq<(String, Option<String>)>) -> Seq<(Seq<char>, Option<Seq<char>>)> {
    s.map_values(|p: (String, Option<String>)| (p.0@, opt_chars(p.1)))
}

fn parent_in(objs: &Vec<(String, Option<String>)>, q: &str) -> (r: Option<String>)
    ensures
        opt_chars(r) == parent_of(objects_view(objs@), q@),
{
    let ghost ov = objects_view(objs@);
    let mut i: usize = objs.len();
    assert(ov.subrange(0, i as int) =~= ov);
    while i > 0
        invariant
            i <= objs.len(),
            ov == objects_view(objs@),
            parent_of(ov, q@) == parent_of(ov.subrange(0, i as int), q@),
        decreases i,
    {
        proof {
            assert(ov.subrange(0, i as int).drop_last() =~= ov.subrange(0, i - 1));
            assert(ov.subrange(0, i as int).last() == (objs@[i - 1].0@, opt_chars(objs@[i - 1].1)));
        }
        if str_eq(&objs[i - 1].0, q) {
            return crate::trace::copy_opt(&objs[i - 1].1);
        }
        i -= 1;
    }
    None
}

/// Every stored capability whose ancestry passes through `cap_id` (the
/// subtree a revoke of `cap_id` closes), in increasing id order. A display
/// view, not enforcement: closure is definitional in the liveness view.
/// `objects` lists each stored capability's id with the parent its raw
/// object names.
pub fn capability_descendants(objects: &Vec<(String, Option<String>)>, cap_id: &str) -> (r: Vec<String>)
    ensures
        exists|keys: Seq<Seq<char>>| strictly_sorted(keys)
            && (forall|q: Seq<char>| keys.contains(q) <==> exists|i: int| 0 <= i < objects@.len() && objects@[i].0@ == q)
            && string_views(r@) == descendant_ids(keys, objects_view(objects@), cap_id@, keys.len()),
{
    let ghost ov = objects_view(objects@);
    let mut ids = Tree::new();
    let mut i: usize = 0;
    while i < objects.len()
        invariant
            i <= objects.len(),
            ids.wf(),
            forall|q: Seq<char>| (#[trigger] ids.at(q) is Some) <==> exists|j: int| 0 <= j < i && objects@[j].0@ == q,
        decreases objects.len() - i,
    {
        ids.insert(objects[i].0.clone(), String::new());
        proof {
            assert forall|q: Seq<char>| (#[trigger] ids.at(q) is Some) <==> exists|j: int| 0 <= j < i + 1 && objects@[j].0@ == q by {
                if objects@[i as int].0@ == q {
                    assert(0 <= i < i + 1 && objects@[i as int].0@ == q);
                }
            }
        }
        i += 1;
    }
    let keys = tree_keys(&ids);
    let ghost kv = string_views(keys@);
    let n = keys.len();
    let mut out: Vec<String> = Vec::new();
    let mut k: usize = 0;
    assert(string_views(out@) =~= descendant_ids(kv.subrange(0, 0), ov, cap_id@, n as nat));
    while k < keys.len()
        invariant
            k <= keys.len(),
            n == keys.len(),
            kv == string_views(keys@),
            ov == objects_view(objects@),
            string_views(out@) == descendant_ids(kv.subrange(0, k as int), ov, cap_id@, n as nat),
        decreases keys.len() - k,
    {
        proof {
            assert(kv.subrange(0, k + 1).drop_last() =~= kv.subrange(0, k as int));
            assert(kv.subrange(0, k + 1).last() == keys@[k as int]@);
        }
        let id = &keys[k];
        let mut cur: String = id.clone();
        let mut hops: usize = 0;
        let mut hit = false;
        loop
            invariant
                hops <= n,
                ov == objects_view(objects@),
                !hit,
                reaches(ov, id@, cap_id@, n as nat) == reaches(ov, cur@, cap_id@, (n - hops) as nat),
            decreases n - hops,
        {
            if str_eq(&cur, cap_id) {
                hit = true;
                break;
            }
            if hops >= n {
                break;
            }
            hops += 1;
            match parent_in(objects, &cur) {
                Some(p) => cur = p,
                None => break,
            }
        }
        assert(hit == reaches(ov, id@, cap_id@, n as nat));
        if hit && !str_eq(id, cap_id) {
            let ghost before = string_views(out@);
            out.push(id.clone());
            assert(string_views(out@) =~= before.push(id@));
        }
        k += 1;
    }
    assert(kv.subrange(0, keys.len() as int) =~= kv);
    proof {
        assert forall|q: Seq<char>| kv.contains(q) <==> exists|i: int| 0 <= i < objects@.len() && objects@[i].0@ == q by {
            if kv.contains(q) {
                let w = choose|w: int| 0 <= w < kv.len() && kv[w] == q;
                assert(kv.to_set().contains(q));
            }
            if exists|i: int| 0 <= i < objects@.len() && objects@[i].0@ == q {
                assert(ids.at(q) is Some);
                assert(kv.to_set().contains(q));
            }
        }
    }
    out
}

/// The ids among `keys`, in order, that are not `cap_id` and reach it
/// within `hops` steps.
pub open spec fn descendant_ids(keys: Seq<Seq<char>>, objs: Seq<(Seq<char>, Option<Seq<char>>)>, cap_id: Seq<char>, hops: nat) -> Seq<Seq<char>>
    decreases keys.len(),
{
    if keys.len() == 0 {
        Seq::empty()
    } else {
        let r = descendant_ids(keys.drop_last(), objs, cap_id, hops);
        let id = keys.last();
        if id != cap_id && reaches(objs, id, cap_id, hops) {
            r.push(id)
        } else {
            r
        }
    }
}

} // verus!
