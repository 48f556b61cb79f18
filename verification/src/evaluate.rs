//! Call-time capability evaluation.
//!
//! Deterministic, injection-proof, conjunctive: every caveat on the
//! capability is checked; all must pass. Unknown dimensions fail closed and
//! are never escalatable — a restriction that cannot be explained cannot be
//! waived by a human. Structural failures (expiry, manifest binding) deny
//! outright and bypass escalation entirely.
//!
//! The evaluator is pure: budget meters and approval exemptions come in as
//! tables, decisions go out as data. The broker owns the side effects, and
//! consumes a reported exemption only when the outcome is `Allow`.

use vstd::prelude::*;
use crate::json::{
    chars_of, elems_view, fields_view, json_view, lemma_elems_view_len, lemma_elems_view_push,
    lemma_fields_view_len, str_eq, string_views, Json, JsonV,
};
use crate::json_text::{json_text, to_json_text};
use crate::capability::{
    auth_rank, caveat_key, cat, glob_matches, reach_rank, reversibility_rank, spec_auth_rank,
    spec_caveat_key, spec_glob_matches, spec_reach_rank, spec_reversibility_rank,
    auth_rank_at, rev_rank_at, reach_rank_at,
};
use crate::{parse_instant, rfc3339_instant};

verus! {

/// Everything the evaluator may know about the proposed call. Built by the
/// broker exclusively from registered tool metadata and broker-observed
/// state — never from agent-supplied claims.
pub struct CallCtx<'a> {
    pub tool: &'a str,
    pub action: &'a str,
    /// From registration, conservative defaults already applied.
    pub reversibility: &'a str,
    pub side_effect: &'a str,
    pub action_class: &'a str,
    /// `None` = the action writes no paths; `Some(paths)` = it writes
    /// exactly these (broker-extracted). `Some(empty)` fails closed.
    pub write_paths: Option<Vec<String>>,
    pub now: &'a str,
    /// The fabric's current manifest id.
    pub current_manifest: &'a str,
}

/// The mathematical reading of a call context.
pub struct CtxV {
    pub tool: Seq<char>,
    pub action: Seq<char>,
    pub reversibility: Seq<char>,
    pub side_effect: Seq<char>,
    pub action_class: Seq<char>,
    pub write_paths: Option<Seq<Seq<char>>>,
    pub now: Seq<char>,
    pub current_manifest: Seq<char>,
}

impl<'a> CallCtx<'a> {
    pub open spec fn view(&self) -> CtxV {
        CtxV {
            tool: self.tool@,
            action: self.action@,
            reversibility: self.reversibility@,
            side_effect: self.side_effect@,
            action_class: self.action_class@,
            write_paths: match self.write_paths {
                Some(p) => Some(string_views(p@)),
                None => None,
            },
            now: self.now@,
            current_manifest: self.current_manifest@,
        }
    }
}

/// One caveat check as recorded in the trace.
#[derive(Debug)]
pub struct Check {
    /// Caveat key (dim, or dim:class for budgets).
    pub caveat: String,
    pub ok: bool,
    /// Meter / explanation payload recorded in the trace.
    pub meter: Json,
}

pub struct CheckV {
    pub caveat: Seq<char>,
    pub ok: bool,
    pub meter: JsonV,
}

impl Check {
    pub open spec fn view(&self) -> CheckV {
        CheckV { caveat: self.caveat@, ok: self.ok, meter: self.meter@ }
    }
}

pub open spec fn checks_view(cs: Seq<Check>) -> Seq<CheckV> {
    cs.map_values(|c: Check| c.view())
}

/// The evaluator's verdict.
#[derive(Debug, PartialEq, Eq)]
pub enum Outcome {
    Allow,
    /// Denied outright: structural failure or non-escalatable caveat.
    Deny { failed: Vec<String>, structural: Option<String> },
    /// All failures sit in on_violation.escalatable — park for a human.
    Escalate { failed: Vec<String> },
}

pub enum OutcomeV {
    Allow,
    Deny { failed: Seq<Seq<char>>, structural: Option<Seq<char>> },
    Escalate { failed: Seq<Seq<char>> },
}

impl Outcome {
    pub open spec fn view(&self) -> OutcomeV {
        match self {
            Outcome::Allow => OutcomeV::Allow,
            Outcome::Deny { failed, structural } => OutcomeV::Deny {
                failed: string_views(failed@),
                structural: match structural {
                    Some(s) => Some(s@),
                    None => None,
                },
            },
            Outcome::Escalate { failed } => OutcomeV::Escalate { failed: string_views(failed@) },
        }
    }

    pub fn is_allow(&self) -> (r: bool)
        ensures
            r == (self.view() is Allow),
    {
        match self {
            Outcome::Allow => true,
            _ => false,
        }
    }
}

#[derive(Debug)]
pub struct Evaluation {
    pub checks: Vec<Check>,
    pub outcome: Outcome,
    /// `(caveat_key, escalation_id)` for each approval exemption that made a
    /// failing check pass. The evaluator only reports what would be
    /// consumed; the broker commits the decrement solely on `Allow`, so a
    /// denied call never burns an exemption.
    pub consumed_exemptions: Vec<(String, String)>,
}

pub struct EvaluationV {
    pub checks: Seq<CheckV>,
    pub outcome: OutcomeV,
    pub consumed_exemptions: Seq<(Seq<char>, Seq<char>)>,
}

pub open spec fn pairs_view(v: Seq<(String, String)>) -> Seq<(Seq<char>, Seq<char>)> {
    v.map_values(|p: (String, String)| (p.0@, p.1@))
}

pub open spec fn meters_view(v: Seq<(String, u64)>) -> Seq<(Seq<char>, u64)> {
    v.map_values(|p: (String, u64)| (p.0@, p.1))
}

impl Evaluation {
    pub open spec fn view(&self) -> EvaluationV {
        EvaluationV {
            checks: checks_view(self.checks@),
            outcome: self.outcome.view(),
            consumed_exemptions: pairs_view(self.consumed_exemptions@),
        }
    }
}

// ---------------------------------------------------------------------
// The evaluation, stated
// ---------------------------------------------------------------------

/// Prior consumption recorded for `key` (0 when none).
pub open spec fn meter_used(meters: Seq<(Seq<char>, u64)>, key: Seq<char>) -> u64
    decreases meters.len(),
{
    if meters.len() == 0 {
        0
    } else if meters[0].0 == key {
        meters[0].1
    } else {
        meter_used(meters.drop_first(), key)
    }
}

/// The approval exemption available for `key`, if any.
pub open spec fn exemption_for(ex: Seq<(Seq<char>, Seq<char>)>, key: Seq<char>) -> Option<Seq<char>>
    decreases ex.len(),
{
    if ex.len() == 0 {
        None
    } else if ex[0].0 == key {
        Some(ex[0].1)
    } else {
        exemption_for(ex.drop_first(), key)
    }
}

pub open spec fn obj1(k: Seq<char>, v: JsonV) -> JsonV {
    JsonV::Object(seq![(k, v)])
}

pub open spec fn obj2(k1: Seq<char>, v1: JsonV, k2: Seq<char>, v2: JsonV) -> JsonV {
    JsonV::Object(seq![(k1, v1), (k2, v2)])
}

pub open spec fn str_list(s: Seq<Seq<char>>) -> JsonV {
    JsonV::Array(s.map_values(|x: Seq<char>| JsonV::Str(x)))
}

/// `t` occurs in `s` as a contiguous run.
pub open spec fn has_substring(s: Seq<char>, t: Seq<char>) -> bool {
    exists|i: int| 0 <= i && i + t.len() <= s.len() && #[trigger] s.subrange(i, i + t.len()) == t
}

/// Some glob of `globs` matches `p`.
pub open spec fn matched_by_any(globs: Seq<Seq<char>>, p: Seq<char>) -> bool {
    exists|g: int| 0 <= g < globs.len() && spec_glob_matches(#[trigger] globs[g], p)
}

/// The paths (in order) that no glob matches.
pub open spec fn out_of_scope(paths: Seq<Seq<char>>, globs: Seq<Seq<char>>) -> Seq<Seq<char>>
    decreases paths.len(),
{
    if paths.len() == 0 {
        Seq::empty()
    } else {
        let rest = out_of_scope(paths.drop_last(), globs);
        if matched_by_any(globs, paths.last()) {
            rest
        } else {
            rest.push(paths.last())
        }
    }
}

/// `action.allow`: the tool and the action are both listed.
pub open spec fn action_allow_check(key: Seq<char>, cav: JsonV, ctx: CtxV) -> CheckV {
    let tools = match cav.at("tools"@).as_array() {
        Some(a) => Some(a.contains(JsonV::Str(ctx.tool))),
        None => None,
    };
    let actions = match cav.at("actions"@).as_array() {
        Some(a) => Some(a.contains(JsonV::Str(ctx.action))),
        None => None,
    };
    CheckV { caveat: key, ok: tools == Some(true) && actions == Some(true), meter: JsonV::Null }
}

/// `reversibility.max`: the action is no less reversible than the bound.
pub open spec fn reversibility_check(key: Seq<char>, cav: JsonV, ctx: CtxV) -> CheckV {
    CheckV {
        caveat: key,
        ok: match (rev_rank_at(cav, "max"@), spec_reversibility_rank(ctx.reversibility)) {
            (Some(m), Some(h)) => h <= m,
            _ => false,
        },
        meter: obj2("action_class"@, JsonV::Str(ctx.reversibility), "max"@, cav.at("max"@)),
    }
}

/// `external_reach`: an external call needs the `live` mode.
pub open spec fn reach_check(key: Seq<char>, cav: JsonV, ctx: CtxV) -> CheckV {
    CheckV {
        caveat: key,
        ok: if ctx.side_effect == "external"@ {
            reach_rank_at(cav, "mode"@) == spec_reach_rank("live"@)
        } else {
            true
        },
        meter: obj1("mode"@, cav.at("mode"@)),
    }
}

/// `budget.count`: within the action class it names, prior consumption is
/// below the maximum; only the `run` window is metered.
pub open spec fn budget_check(key: Seq<char>, cav: JsonV, ctx: CtxV, meters: Seq<(Seq<char>, u64)>) -> CheckV {
    if cav.str_at("action_class"@) != Some(ctx.action_class) {
        CheckV { caveat: key, ok: true, meter: obj1("applies"@, JsonV::Bool(false)) }
    } else {
        let max: u64 = match cav.at("max"@).as_u64() {
            Some(m) => m,
            None => 0,
        };
        let window = match cav.str_at("window"@) {
            Some(w) => w,
            None => Seq::empty(),
        };
        if window != "run"@ {
            CheckV {
                caveat: key,
                ok: false,
                meter: obj1("reason"@, JsonV::Str("window '"@ + window + "' unsupported (fail closed)"@)),
            }
        } else {
            let used = meter_used(meters, key);
            CheckV {
                caveat: key,
                ok: used < max,
                meter: obj2("max"@, JsonV::Int(max as int), "used"@, JsonV::Int(used as int)),
            }
        }
    }
}

/// `paths.write`: every written path is matched by some glob; a write with
/// no extractable paths fails closed.
pub open spec fn paths_check(key: Seq<char>, cav: JsonV, ctx: CtxV) -> CheckV {
    let globs = cav.str_list_at("globs"@);
    match ctx.write_paths {
        None => CheckV { caveat: key, ok: true, meter: obj1("applies"@, JsonV::Bool(false)) },
        Some(paths) => if paths.len() == 0 {
            CheckV {
                caveat: key,
                ok: false,
                meter: obj1("reason"@, JsonV::Str("write action with no extractable paths (fail closed)"@)),
            }
        } else {
            let bad = out_of_scope(paths, globs);
            CheckV {
                caveat: key,
                ok: bad.len() == 0,
                meter: obj2("out_of_scope"@, str_list(bad), "paths"@, str_list(paths)),
            }
        },
    }
}

/// One bound of a `time` caveat: absent, or both instants parse and `now`
/// is on the allowed side (`not_before` when `before`, else `not_after`).
pub open spec fn time_bound_ok(cav: JsonV, key: Seq<char>, now: Seq<char>, before: bool) -> bool {
    match cav.str_at(key) {
        None => true,
        Some(b) => match (rfc3339_instant(now), rfc3339_instant(b)) {
            (Some(n), Some(t)) => if before {
                n >= t
            } else {
                n <= t
            },
            _ => false,
        },
    }
}

/// `time`: now lies within the window, compared as instants.
pub open spec fn time_check(key: Seq<char>, cav: JsonV, ctx: CtxV) -> CheckV {
    CheckV {
        caveat: key,
        ok: time_bound_ok(cav, "not_before"@, ctx.now, true) && time_bound_ok(cav, "not_after"@, ctx.now, false),
        meter: JsonV::Null,
    }
}

/// `approval.min_auth`: recorded; valid when the strength is rankable.
pub open spec fn min_auth_check(key: Seq<char>, cav: JsonV) -> CheckV {
    CheckV { caveat: key, ok: auth_rank_at(cav, "min"@) is Some, meter: obj1("gates"@, JsonV::Str("approvals"@)) }
}

/// An unknown dimension fails closed.
pub open spec fn unknown_check(key: Seq<char>, dim: Seq<char>) -> CheckV {
    CheckV {
        caveat: key,
        ok: false,
        meter: obj1("reason"@, JsonV::Str("unknown dimension '"@ + dim + "' (fail closed, §0)"@)),
    }
}

/// The check recorded for a keyed caveat of dimension `dim`, and whether
/// the dimension is unknown.
pub open spec fn dim_check(dim: Seq<char>, key: Seq<char>, cav: JsonV, ctx: CtxV, meters: Seq<(Seq<char>, u64)>) -> (CheckV, bool) {
    if dim == "action.allow"@ {
        (action_allow_check(key, cav, ctx), false)
    } else if dim == "reversibility.max"@ {
        (reversibility_check(key, cav, ctx), false)
    } else if dim == "external_reach"@ {
        (reach_check(key, cav, ctx), false)
    } else if dim == "budget.count"@ {
        (budget_check(key, cav, ctx, meters), false)
    } else if dim == "paths.write"@ {
        (paths_check(key, cav, ctx), false)
    } else if dim == "time"@ {
        (time_check(key, cav, ctx), false)
    } else if dim == "approval.min_auth"@ {
        (min_auth_check(key, cav), false)
    } else {
        (unknown_check(key, dim), true)
    }
}

/// The check recorded for one caveat, and whether it failed as unknown or
/// malformed (never escalatable).
pub open spec fn caveat_check(cav: JsonV, ctx: CtxV, meters: Seq<(Seq<char>, u64)>) -> (CheckV, bool) {
    match spec_caveat_key(cav) {
        None => (
            CheckV {
                caveat: json_text(cav),
                ok: false,
                meter: obj1("reason"@, JsonV::Str("malformed caveat (fail closed)"@)),
            },
            true,
        ),
        Some(key) => dim_check(cav.str_at("dim"@).unwrap(), key, cav, ctx, meters),
    }
}

pub open spec fn caveat_checks(cavs: Seq<JsonV>, ctx: CtxV, meters: Seq<(Seq<char>, u64)>) -> Seq<CheckV> {
    cavs.map_values(|c: JsonV| caveat_check(c, ctx, meters).0)
}

/// Some caveat failed as unknown or malformed.
pub open spec fn unknown_failed(cavs: Seq<JsonV>, ctx: CtxV, meters: Seq<(Seq<char>, u64)>) -> bool {
    exists|i: int| 0 <= i < cavs.len() && (#[trigger] caveat_check(cavs[i], ctx, meters)).1
}

/// The escalatable caveat keys of a capability.
pub open spec fn escalatable_of(cap: JsonV) -> Seq<Seq<char>> {
    cap.at("on_violation"@).str_list_at("escalatable"@)
}

/// The meter explains an unknown-dimension failure.
pub open spec fn reason_mentions_unknown(meter: JsonV) -> bool {
    match meter.str_at("reason"@) {
        Some(r) => has_substring(r, "unknown"@),
        None => false,
    }
}

/// The check after an exemption pass, and the consumed exemption if one
/// flipped it.
pub open spec fn exempted(c: CheckV, esc: Seq<Seq<char>>, ex: Seq<(Seq<char>, Seq<char>)>) -> (CheckV, Option<(Seq<char>, Seq<char>)>) {
    if !c.ok && esc.contains(c.caveat) && !reason_mentions_unknown(c.meter) {
        match exemption_for(ex, c.caveat) {
            Some(id) => (
                CheckV {
                    caveat: c.caveat,
                    ok: true,
                    meter: obj2("approved_exemption"@, JsonV::Str(id), "was"@, c.meter),
                },
                Some((c.caveat, id)),
            ),
            None => (c, None),
        }
    } else {
        (c, None)
    }
}

/// The checks after the exemption pass.
pub open spec fn exempted_checks(cs: Seq<CheckV>, esc: Seq<Seq<char>>, ex: Seq<(Seq<char>, Seq<char>)>) -> Seq<CheckV> {
    cs.map_values(|c: CheckV| exempted(c, esc, ex).0)
}

/// The exemptions consumed by the pass, in check order.
pub open spec fn consumed(cs: Seq<CheckV>, esc: Seq<Seq<char>>, ex: Seq<(Seq<char>, Seq<char>)>) -> Seq<(Seq<char>, Seq<char>)>
    decreases cs.len(),
{
    if cs.len() == 0 {
        Seq::empty()
    } else {
        opt_seq(exempted(cs[0], esc, ex).1) + consumed(cs.drop_first(), esc, ex)
    }
}

pub open spec fn opt_seq<A>(o: Option<A>) -> Seq<A> {
    match o {
        Some(p) => seq![p],
        None => Seq::empty(),
    }
}

/// Keys of the failing checks, in order.
pub open spec fn failed_keys(cs: Seq<CheckV>) -> Seq<Seq<char>>
    decreases cs.len(),
{
    if cs.len() == 0 {
        Seq::empty()
    } else {
        (if cs[0].ok {
            Seq::<Seq<char>>::empty()
        } else {
            seq![cs[0].caveat]
        }) + failed_keys(cs.drop_first())
    }
}

/// A structural denial.
pub open spec fn structural_deny(why: Seq<char>) -> EvaluationV {
    EvaluationV {
        checks: Seq::empty(),
        outcome: OutcomeV::Deny { failed: Seq::empty(), structural: Some(why) },
        consumed_exemptions: Seq::empty(),
    }
}

/// The caveats of a capability (empty when absent or not an array).
pub open spec fn cap_caveats(cap: JsonV) -> Seq<JsonV> {
    match cap.at("caveats"@).as_array() {
        Some(a) => a,
        None => Seq::empty(),
    }
}

/// Evaluation of `cap` against a proposed call, given the prior budget
/// consumption and the available approval exemptions.
pub open spec fn spec_evaluate(cap: JsonV, ctx: CtxV, meters: Seq<(Seq<char>, u64)>, ex: Seq<(Seq<char>, Seq<char>)>) -> EvaluationV {
    match cap.str_at("expires_at"@) {
        None => structural_deny("capability has no expiry (mandatory, §5)"@),
        Some(exp) => match (rfc3339_instant(ctx.now), rfc3339_instant(exp)) {
            (Some(now), Some(exp_t)) => if now <= exp_t {
                match cap.str_at("bound_manifest"@) {
                    None => structural_deny("capability has no bound_manifest (M2)"@),
                    Some(m) => if m != ctx.current_manifest {
                        structural_deny(
                            "M2 violation: capability bound to "@ + m + ", current manifest is "@
                                + ctx.current_manifest,
                        )
                    } else {
                        let cavs = cap_caveats(cap);
                        let raw = caveat_checks(cavs, ctx, meters);
                        let esc = escalatable_of(cap);
                        let checks = exempted_checks(raw, esc, ex);
                        let failed = failed_keys(checks);
                        EvaluationV {
                            checks,
                            outcome: if failed.len() == 0 {
                                OutcomeV::Allow
                            } else if !unknown_failed(cavs, ctx, meters) && (forall|i: int|
                                0 <= i < failed.len() ==> esc.contains(#[trigger] failed[i])) {
                                OutcomeV::Escalate { failed }
                            } else {
                                OutcomeV::Deny { failed, structural: None }
                            },
                            consumed_exemptions: consumed(raw, esc, ex),
                        }
                    },
                }
            } else {
                structural_deny("capability expired at "@ + exp)
            },
            _ => structural_deny("unparseable timestamp in expiry check (fail closed)"@),
        },
    }
}

/// Every check of a list with no failed key passed.
proof fn lemma_no_failed_keys_all_ok(cs: Seq<CheckV>)
    requires
        failed_keys(cs).len() == 0,
    ensures
        forall|j: int| 0 <= j < cs.len() ==> (#[trigger] cs[j]).ok,
    decreases cs.len(),
{
    if cs.len() > 0 {
        let t = cs.drop_first();
        lemma_no_failed_keys_all_ok(t);
        assert forall|j: int| 0 <= j < cs.len() implies (#[trigger] cs[j]).ok by {
            if j > 0 {
                assert(cs[j] == t[j - 1]);
            }
        }
    }
}

/// Under an allowing evaluation, a keyed caveat with no approval exemption
/// on hand for its key passed its own check.
proof fn lemma_allowed_caveat_passed(
    cap: JsonV,
    ctx: CtxV,
    meters: Seq<(Seq<char>, u64)>,
    ex: Seq<(Seq<char>, Seq<char>)>,
    i: int,
)
    requires
        0 <= i < cap_caveats(cap).len(),
        spec_caveat_key(cap_caveats(cap)[i]) matches Some(k) && exemption_for(ex, k) is None,
        spec_evaluate(cap, ctx, meters, ex).outcome is Allow,
    ensures
        caveat_check(cap_caveats(cap)[i], ctx, meters).0.ok,
{
    let cavs = cap_caveats(cap);
    let raw = caveat_checks(cavs, ctx, meters);
    let esc = escalatable_of(cap);
    let checks = exempted_checks(raw, esc, ex);
    assert(spec_evaluate(cap, ctx, meters, ex).checks == checks && failed_keys(checks).len() == 0);
    lemma_no_failed_keys_all_ok(checks);
    assert(checks[i] == exempted(raw[i], esc, ex).0);
    assert(raw[i] == caveat_check(cavs[i], ctx, meters).0);
    assert(raw[i].caveat == spec_caveat_key(cavs[i])->0);
}

/// The paths no glob matches are none only when every path is matched.
proof fn lemma_nothing_out_of_scope(paths: Seq<Seq<char>>, globs: Seq<Seq<char>>)
    requires
        out_of_scope(paths, globs).len() == 0,
    ensures
        forall|j: int| 0 <= j < paths.len() ==> matched_by_any(globs, #[trigger] paths[j]),
    decreases paths.len(),
{
    if paths.len() > 0 {
        let init = paths.drop_last();
        lemma_nothing_out_of_scope(init, globs);
        assert forall|j: int| 0 <= j < paths.len() implies matched_by_any(globs, #[trigger] paths[j]) by {
            if j < init.len() {
                assert(paths[j] == init[j]);
            }
        }
    }
}

/// An allowed call is one that every narrowing caveat admits, unless an
/// approval exemption for that caveat is on hand: the tool and the action
/// are both listed by an `action.allow` caveat; the action is no less
/// reversible than a `reversibility.max` bound; an external side effect
/// needs `external_reach` mode `live`; a `budget.count` caveat of the
/// call's action class counts over the `run` window and has been used
/// fewer times than its maximum; every path a `paths.write` caveat sees
/// written is matched by one of its globs.
pub proof fn law_allowed_calls_satisfy_every_caveat(
    cap: JsonV,
    ctx: CtxV,
    meters: Seq<(Seq<char>, u64)>,
    ex: Seq<(Seq<char>, Seq<char>)>,
    i: int,
    k: Seq<char>,
)
    requires
        0 <= i < cap_caveats(cap).len(),
        spec_caveat_key(cap_caveats(cap)[i]) == Some(k),
        exemption_for(ex, k) is None,
        spec_evaluate(cap, ctx, meters, ex).outcome is Allow,
    ensures
        ({
            let cav = cap_caveats(cap)[i];
            &&& cav.str_at("dim"@) == Some("action.allow"@) ==> (cav.at("tools"@).as_array() matches Some(a) && a.contains(
                JsonV::Str(ctx.tool),
            )) && (cav.at("actions"@).as_array() matches Some(a) && a.contains(JsonV::Str(ctx.action)))
            &&& cav.str_at("dim"@) == Some("reversibility.max"@) ==> (cav.str_at("max"@) matches Some(m) && (ctx.reversibility
                == "reversible"@ || ctx.reversibility == "compensable"@ || ctx.reversibility == "irreversible"@) && (
            m == "irreversible"@ || ctx.reversibility == "reversible"@ || ctx.reversibility == m) && (m == "reversible"@
                || m == "compensable"@ || m == "irreversible"@))
            &&& cav.str_at("dim"@) == Some("external_reach"@) && ctx.side_effect == "external"@ ==> cav.str_at("mode"@)
                == Some("live"@)
            &&& cav.str_at("dim"@) == Some("budget.count"@) && cav.str_at("action_class"@) == Some(ctx.action_class) ==> (
            cav.str_at("window"@) == Some("run"@) && (cav.at("max"@).as_u64() matches Some(max) && meter_used(meters, k) < max))
            &&& (ctx.write_paths matches Some(ps) ==> (cav.str_at("dim"@) == Some("paths.write"@) ==> ps.len() > 0 && forall|j: int|
                0 <= j < ps.len() ==> exists|g: int|
                    0 <= g < cav.str_list_at("globs"@).len() && spec_glob_matches(
                        #[trigger] cav.str_list_at("globs"@)[g],
                        #[trigger] ps[j],
                    )))
        }),
{
    reveal_strlit("time");
    reveal_strlit("budget.count");
    reveal_strlit("action.allow");
    reveal_strlit("reversibility.max");
    reveal_strlit("external_reach");
    reveal_strlit("paths.write");
    reveal_strlit("approval.min_auth");
    reveal_strlit("reversible");
    reveal_strlit("compensable");
    reveal_strlit("irreversible");
    reveal_strlit("none");
    reveal_strlit("mocks");
    reveal_strlit("live");
    reveal_strlit("run");
    lemma_allowed_caveat_passed(cap, ctx, meters, ex, i);
    let cav = cap_caveats(cap)[i];
    let c = caveat_check(cav, ctx, meters).0;
    if cav.str_at("dim"@) == Some("action.allow"@) {
        assert(c == action_allow_check(k, cav, ctx));
    }
    if cav.str_at("dim"@) == Some("reversibility.max"@) {
        assert(c == reversibility_check(k, cav, ctx));
    }
    if cav.str_at("dim"@) == Some("external_reach"@) {
        assert(c == reach_check(k, cav, ctx));
    }
    if cav.str_at("dim"@) == Some("budget.count"@) {
        assert("budget.count"@[0] != "action.allow"@[0]);
        assert(c == budget_check(k, cav, ctx, meters));
    }
    if cav.str_at("dim"@) == Some("paths.write"@) {
        assert(c == paths_check(k, cav, ctx));
        if let Some(ps) = ctx.write_paths {
            if ps.len() > 0 {
                lemma_nothing_out_of_scope(ps, cav.str_list_at("globs"@));
                assert forall|j: int| 0 <= j < ps.len() implies exists|g: int|
                    0 <= g < cav.str_list_at("globs"@).len() && spec_glob_matches(
                        #[trigger] cav.str_list_at("globs"@)[g],
                        #[trigger] ps[j],
                    ) by {
                    assert(matched_by_any(cav.str_list_at("globs"@), ps[j]));
                }
            }
        }
    }
}

/// A call outside the window of a `time` caveat is never allowed unless an
/// approval exemption for that caveat is spent: when the evaluation allows
/// the call and no exemption for `time` is on hand, the call's time is
/// (as an instant) no earlier than each `time` caveat's `not_before` and
/// no later than its `not_after`, and both parse.
pub proof fn law_allowed_calls_lie_in_every_time_window(
    cap: JsonV,
    ctx: CtxV,
    meters: Seq<(Seq<char>, u64)>,
    ex: Seq<(Seq<char>, Seq<char>)>,
    i: int,
)
    requires
        0 <= i < cap_caveats(cap).len(),
        cap_caveats(cap)[i].str_at("dim"@) == Some("time"@),
        exemption_for(ex, "time"@) is None,
        spec_evaluate(cap, ctx, meters, ex).outcome is Allow,
    ensures
        cap_caveats(cap)[i].str_at("not_before"@) matches Some(b) ==> (rfc3339_instant(ctx.now) matches Some(n)
            && rfc3339_instant(b) matches Some(t) && n >= t),
        cap_caveats(cap)[i].str_at("not_after"@) matches Some(b) ==> (rfc3339_instant(ctx.now) matches Some(n)
            && rfc3339_instant(b) matches Some(t) && n <= t),
{
    reveal_strlit("time");
    reveal_strlit("budget.count");
    reveal_strlit("action.allow");
    reveal_strlit("reversibility.max");
    reveal_strlit("external_reach");
    reveal_strlit("paths.write");
    let cav = cap_caveats(cap)[i];
    let e = spec_evaluate(cap, ctx, meters, ex);
    let cavs = cap_caveats(cap);
    let raw = caveat_checks(cavs, ctx, meters);
    let esc = escalatable_of(cap);
    let checks = exempted_checks(raw, esc, ex);
    assert(e.outcome is Allow ==> e.checks == checks && failed_keys(checks).len() == 0);
    lemma_no_failed_keys_all_ok(checks);
    assert(checks[i] == exempted(raw[i], esc, ex).0);
    assert(spec_caveat_key(cav) == Some("time"@));
    assert(raw[i] == time_check("time"@, cav, ctx));
    assert(raw[i].ok);
}

/// An approval exemption is used only by a check that failed, whose key is
/// escalatable and whose failure is not an unknown dimension; it then
/// flips that check and is consumed. Any other check passes through
/// untouched and consumes nothing.
pub proof fn law_exemptions_only_flip_failed_escalatable_checks(c: CheckV, esc: Seq<Seq<char>>, ex: Seq<(Seq<char>, Seq<char>)>)
    ensures
        (c.ok || !esc.contains(c.caveat) || reason_mentions_unknown(c.meter)) ==> exempted(c, esc, ex) == (c, None::<(Seq<char>, Seq<char>)>),
        exempted(c, esc, ex).1 matches Some((k, id)) ==> {
            &&& !c.ok && esc.contains(c.caveat) && !reason_mentions_unknown(c.meter)
            &&& k == c.caveat && exemption_for(ex, k) == Some(id)
            &&& exempted(c, esc, ex).0.ok
        },
{
}

/// A check flipped by an approval exemption: it failed, and passes under
/// the exemption named for its key.
pub open spec fn flipped_by(c: CheckV, esc: Seq<Seq<char>>, ex: Seq<(Seq<char>, Seq<char>)>, k: Seq<char>, id: Seq<char>) -> bool {
    !c.ok && exempted(c, esc, ex).0.ok && k == c.caveat && exemption_for(ex, k) == Some(id)
}

/// The consumed exemptions are exactly those that flipped a check, one for
/// each flipped check, in check order.
pub proof fn law_consumed_exemptions_are_the_flips(cs: Seq<CheckV>, esc: Seq<Seq<char>>, ex: Seq<(Seq<char>, Seq<char>)>)
    ensures
        consumed(cs, esc, ex).len() <= cs.len(),
        forall|k: Seq<char>, id: Seq<char>|
            #[trigger] consumed(cs, esc, ex).contains((k, id)) <==> exists|i: int|
                0 <= i < cs.len() && flipped_by(#[trigger] cs[i], esc, ex, k, id),
    decreases cs.len(),
{
    if cs.len() > 0 {
        let t = cs.drop_first();
        law_consumed_exemptions_are_the_flips(t, esc, ex);
        let h = opt_seq(exempted(cs[0], esc, ex).1);
        assert(consumed(cs, esc, ex) == h + consumed(t, esc, ex));
        assert forall|k: Seq<char>, id: Seq<char>| #[trigger] consumed(cs, esc, ex).contains((k, id)) <==> exists|i: int|
            0 <= i < cs.len() && flipped_by(#[trigger] cs[i], esc, ex, k, id) by {
            let all = consumed(cs, esc, ex);
            let rest = consumed(t, esc, ex);
            if all.contains((k, id)) {
                let j = choose|j: int| 0 <= j < all.len() && all[j] == (k, id);
                if j < h.len() {
                    assert(flipped_by(cs[0], esc, ex, k, id));
                } else {
                    assert(rest[j - h.len()] == (k, id));
                    assert(rest.contains((k, id)));
                    let i = choose|i: int| 0 <= i < t.len() && flipped_by(#[trigger] t[i], esc, ex, k, id);
                    assert(cs[i + 1] == t[i]);
                }
            }
            if exists|i: int| 0 <= i < cs.len() && flipped_by(#[trigger] cs[i], esc, ex, k, id) {
                let i = choose|i: int| 0 <= i < cs.len() && flipped_by(#[trigger] cs[i], esc, ex, k, id);
                if i == 0 {
                    assert(h[0] == (k, id));
                    assert(all[0] == (k, id));
                } else {
                    assert(t[i - 1] == cs[i]);
                    assert(rest.contains((k, id)));
                    let j = choose|j: int| 0 <= j < rest.len() && rest[j] == (k, id);
                    assert(all[h.len() + j] == (k, id));
                }
            }
        }
    }
}

/// A budget check reads prior consumption only for its own caveat key, and
/// only when it applies to the call's action class over the `run` window:
/// otherwise its outcome does not depend on the meters at all.
pub proof fn law_budget_reads_only_its_own_meter(
    key: Seq<char>,
    cav: JsonV,
    ctx: CtxV,
    m1: Seq<(Seq<char>, u64)>,
    m2: Seq<(Seq<char>, u64)>,
)
    ensures
        meter_used(m1, key) == meter_used(m2, key) ==> budget_check(key, cav, ctx, m1) == budget_check(key, cav, ctx, m2),
        (cav.str_at("action_class"@) != Some(ctx.action_class) || cav.str_at("window"@) != Some("run"@))
            ==> budget_check(key, cav, ctx, m1) == budget_check(key, cav, ctx, m2),
{
    reveal_strlit("run");
}

// ---------------------------------------------------------------------
// The evaluation, computed
// ---------------------------------------------------------------------

fn mk_obj1(k: &str, v: Json) -> (r: Json)
    ensures
        r@ == obj1(k@, v@),
{
    let f = vec![(k.to_owned(), v)];
    proof { lemma_fields_view_len(f@); }
    let r = Json::Object(f);
    assert(fields_view(f@) =~= seq![(k@, v@)]);
    r
}

fn mk_obj2(k1: &str, v1: Json, k2: &str, v2: Json) -> (r: Json)
    ensures
        r@ == obj2(k1@, v1@, k2@, v2@),
{
    let f = vec![(k1.to_owned(), v1), (k2.to_owned(), v2)];
    proof { lemma_fields_view_len(f@); }
    let r = Json::Object(f);
    assert(fields_view(f@) =~= seq![(k1@, v1@), (k2@, v2@)]);
    r
}

fn mk_str_list(s: &Vec<String>) -> (r: Json)
    ensures
        r@ == str_list(string_views(s@)),
{
    let mut out: Vec<Json> = Vec::new();
    let mut i: usize = 0;
    while i < s.len()
        invariant
            i <= s.len(),
            elems_view(out@) == string_views(s@).take(i as int).map_values(|x: Seq<char>| JsonV::Str(x)),
        decreases s.len() - i,
    {
        let e = Json::from_str(s[i].as_str());
        proof { lemma_elems_view_push(out@, e); }
        out.push(e);
        i += 1;
        assert(elems_view(out@) =~= string_views(s@).take(i as int).map_values(|x: Seq<char>| JsonV::Str(x)));
    }
    assert(string_views(s@).take(s.len() as int) =~= string_views(s@));
    Json::Array(out)
}

fn json_at(v: &Json, key: &str) -> (r: Json)
    ensures
        r@ == v@.at(key@),
{
    match v.get(key) {
        Some(x) => x.deep_clone(),
        None => Json::Null,
    }
}

fn array_has_str(a: &Vec<Json>, s: &str) -> (r: bool)
    ensures
        r == elems_view(a@).contains(JsonV::Str(s@)),
{
    proof { lemma_elems_view_len(a@); }
    let ghost e = elems_view(a@);
    let mut i: usize = 0;
    while i < a.len()
        invariant
            i <= a.len(),
            e == elems_view(a@),
            e.len() == a.len(),
            forall|j: int| 0 <= j < a.len() ==> #[trigger] e[j] == json_view(a@[j]),
            forall|j: int| 0 <= j < i ==> e[j] != JsonV::Str(s@),
        decreases a.len() - i,
    {
        match a[i].as_str() {
            Some(x) => {
                if str_eq(x, s) {
                    assert(e[i as int] == JsonV::Str(s@));
                    return true;
                }
            },
            None => {},
        }
        i += 1;
    }
    false
}

/// Whether `t` occurs in `s` as a contiguous run.
fn contains_sub(s: &str, t: &str) -> (r: bool)
    ensures
        r == has_substring(s@, t@),
{
    let sc = chars_of(s);
    let tc = chars_of(t);
    if tc.len() > sc.len() {
        return false;
    }
    let mut i: usize = 0;
    while i <= sc.len() - tc.len()
        invariant
            tc.len() <= sc.len(),
            i <= sc.len() - tc.len() + 1,
            forall|k: int| 0 <= k < i ==> #[trigger] sc@.subrange(k, k + tc.len()) != tc@,
        decreases sc.len() - i,
    {
        let mut j: usize = 0;
        while j < tc.len() && sc[i + j] == tc[j]
            invariant
                j <= tc.len(),
                i + tc.len() <= sc.len(),
                forall|m: int| 0 <= m < j ==> sc@[i + m] == tc@[m],
            decreases tc.len() - j,
        {
            j += 1;
        }
        if j == tc.len() {
            assert(sc@.subrange(i as int, i + tc.len()) =~= tc@);
            return true;
        }
        assert(sc@.subrange(i as int, i + tc.len())[j as int] != tc@[j as int]);
        i += 1;
    }
    assert forall|k: int| 0 <= k && k + tc@.len() <= sc@.len() implies #[trigger] sc@.subrange(k, k + tc@.len()) != tc@ by {
        assert(k < i);
    }
    false
}

fn lookup_meter(meters: &Vec<(String, u64)>, key: &str) -> (r: u64)
    ensures
        r == meter_used(meters_view(meters@), key@),
{
    let ghost mv = meters_view(meters@);
    let mut i: usize = 0;
    assert(mv.skip(0) =~= mv);
    while i < meters.len()
        invariant
            i <= meters.len(),
            mv == meters_view(meters@),
            meter_used(mv, key@) == meter_used(mv.skip(i as int), key@),
        decreases meters.len() - i,
    {
        assert(mv.skip(i as int).drop_first() =~= mv.skip(i + 1));
        assert(mv.skip(i as int)[0] == (meters@[i as int].0@, meters@[i as int].1));
        if str_eq(meters[i].0.as_str(), key) {
            return meters[i].1;
        }
        i += 1;
    }
    0
}

fn lookup_exemption(ex: &Vec<(String, String)>, key: &str) -> (r: Option<String>)
    ensures
        match r {
            Some(id) => exemption_for(pairs_view(ex@), key@) == Some(id@),
            None => exemption_for(pairs_view(ex@), key@) is None,
        },
{
    let ghost xv = pairs_view(ex@);
    let mut i: usize = 0;
    assert(xv.skip(0) =~= xv);
    while i < ex.len()
        invariant
            i <= ex.len(),
            xv == pairs_view(ex@),
            exemption_for(xv, key@) == exemption_for(xv.skip(i as int), key@),
        decreases ex.len() - i,
    {
        assert(xv.skip(i as int).drop_first() =~= xv.skip(i + 1));
        assert(xv.skip(i as int)[0] == (ex@[i as int].0@, ex@[i as int].1@));
        if str_eq(ex[i].0.as_str(), key) {
            return Some(ex[i].1.clone());
        }
        i += 1;
    }
    None
}

fn str_list_of(v: &Json, key: &str) -> (r: Vec<String>)
    ensures
        string_views(r@) == v@.str_list_at(key@),
{
    crate::capability::as_str_set(v, key)
}

fn out_of_scope_paths(paths: &Vec<String>, globs: &Vec<String>) -> (r: Vec<String>)
    ensures
        string_views(r@) == out_of_scope(string_views(paths@), string_views(globs@)),
{
    let ghost pv = string_views(paths@);
    let ghost gv = string_views(globs@);
    let mut out: Vec<String> = Vec::new();
    let mut i: usize = 0;
    while i < paths.len()
        invariant
            i <= paths.len(),
            pv == string_views(paths@),
            gv == string_views(globs@),
            string_views(out@) == out_of_scope(pv.take(i as int), gv),
        decreases paths.len() - i,
    {
        let mut matched = false;
        let mut g: usize = 0;
        while g < globs.len()
            invariant
                g <= globs.len(),
                i < paths.len(),
                gv == string_views(globs@),
                pv == string_views(paths@),
                matched == (exists|q: int| 0 <= q < g && spec_glob_matches(#[trigger] gv[q], pv[i as int])),
            decreases globs.len() - g,
        {
            let m = glob_matches(globs[g].as_str(), paths[i].as_str());
            proof {
                assert(gv[g as int] == globs@[g as int]@);
                assert(pv[i as int] == paths@[i as int]@);
                if !matched && !m {
                    assert forall|q: int| 0 <= q < g + 1 implies !spec_glob_matches(#[trigger] gv[q], pv[i as int]) by {
                        if q == g as int {
                            assert(gv[q] == globs@[q]@);
                        }
                    }
                }
            }
            matched = matched || m;
            g += 1;
        }
        let ghost before = out@;
        proof {
            assert(pv.take(i + 1).drop_last() =~= pv.take(i as int));
            assert(pv.take(i + 1).last() == pv[i as int]);
            assert(matched == matched_by_any(gv, pv[i as int]));
        }
        if !matched {
            out.push(paths[i].clone());
            assert(string_views(out@) =~= string_views(before).push(pv[i as int]));
        }
        i += 1;
    }
    assert(pv.take(paths.len() as int) =~= pv);
    out
}

fn time_bound(cav: &Json, key: &str, now: &str, before: bool) -> (r: bool)
    ensures
        r == time_bound_ok(cav@, key@, now@, before),
{
    match cav.str_at(key) {
        None => true,
        Some(b) => match (parse_instant(now), parse_instant(b)) {
            (Some(n), Some(t)) => if before {
                n >= t
            } else {
                n <= t
            },
            _ => false,
        },
    }
}

fn check_action_allow(key: String, cav: &Json, ctx: &CallCtx) -> (r: Check)
    ensures
        r.view() == action_allow_check(key@, cav@, ctx.view()),
{
    let tools = match cav.get("tools") {
        Some(t) => match t.as_array() {
            Some(a) => Some(array_has_str(a, ctx.tool)),
            None => None,
        },
        None => None,
    };
    let actions = match cav.get("actions") {
        Some(t) => match t.as_array() {
            Some(a) => Some(array_has_str(a, ctx.action)),
            None => None,
        },
        None => None,
    };
    let ok = match (tools, actions) {
        (Some(true), Some(true)) => true,
        _ => false,
    };
    Check { caveat: key, ok, meter: Json::Null }
}

fn check_reversibility(key: String, cav: &Json, ctx: &CallCtx) -> (r: Check)
    ensures
        r.view() == reversibility_check(key@, cav@, ctx.view()),
{
    let max = match cav.str_at("max") {
        Some(s) => reversibility_rank(s),
        None => None,
    };
    let have = reversibility_rank(ctx.reversibility);
    let ok = match (max, have) {
        (Some(m), Some(h)) => h <= m,
        _ => false,
    };
    let meter = mk_obj2("action_class", Json::from_str(ctx.reversibility), "max", json_at(cav, "max"));
    Check { caveat: key, ok, meter }
}

fn check_reach(key: String, cav: &Json, ctx: &CallCtx) -> (r: Check)
    ensures
        r.view() == reach_check(key@, cav@, ctx.view()),
{
    let allowed = match cav.str_at("mode") {
        Some(s) => reach_rank(s),
        None => None,
    };
    let ok = if str_eq(ctx.side_effect, "external") {
        allowed == reach_rank("live")
    } else {
        true
    };
    let meter = mk_obj1("mode", json_at(cav, "mode"));
    Check { caveat: key, ok, meter }
}

fn check_budget(key: String, cav: &Json, ctx: &CallCtx, meters: &Vec<(String, u64)>) -> (r: Check)
    ensures
        r.view() == budget_check(key@, cav@, ctx.view(), meters_view(meters@)),
{
    let applies = match cav.str_at("action_class") {
        Some(c) => str_eq(c, ctx.action_class),
        None => false,
    };
    if !applies {
        let meter = mk_obj1("applies", Json::Bool(false));
        return Check { caveat: key, ok: true, meter };
    }
    let max: u64 = match cav.get("max") {
        Some(m) => match m.as_u64() {
            Some(x) => x,
            None => 0,
        },
        None => 0,
    };
    let window = match cav.str_at("window") {
        Some(w) => w.to_owned(),
        None => String::new(),
    };
    if !str_eq(window.as_str(), "run") {
        let msg = cat(&cat("window '", window.as_str()), "' unsupported (fail closed)");
        let meter = mk_obj1("reason", Json::Str(msg));
        Check { caveat: key, ok: false, meter }
    } else {
        let used = lookup_meter(meters, key.as_str());
        let meter = mk_obj2("max", Json::from_u64(max), "used", Json::from_u64(used));
        Check { caveat: key, ok: used < max, meter }
    }
}

fn check_paths(key: String, cav: &Json, ctx: &CallCtx) -> (r: Check)
    ensures
        r.view() == paths_check(key@, cav@, ctx.view()),
{
    let globs = str_list_of(cav, "globs");
    match &ctx.write_paths {
        None => {
            let meter = mk_obj1("applies", Json::Bool(false));
            Check { caveat: key, ok: true, meter }
        },
        Some(paths) => if paths.len() == 0 {
            let meter = mk_obj1(
                "reason",
                Json::from_str("write action with no extractable paths (fail closed)"),
            );
            Check { caveat: key, ok: false, meter }
        } else {
            let bad = out_of_scope_paths(paths, &globs);
            let ok = bad.len() == 0;
            let meter = mk_obj2("out_of_scope", mk_str_list(&bad), "paths", mk_str_list(paths));
            Check { caveat: key, ok, meter }
        },
    }
}

/// The check for one caveat, and whether it failed as unknown/malformed.
fn check_caveat(cav: &Json, ctx: &CallCtx, meters: &Vec<(String, u64)>) -> (r: (Check, bool))
    ensures
        (r.0.view(), r.1) == caveat_check(cav@, ctx.view(), meters_view(meters@)),
{
    let key = match caveat_key(cav) {
        Ok(k) => k,
        Err(_) => {
            let meter = mk_obj1("reason", Json::from_str("malformed caveat (fail closed)"));
            return (Check { caveat: to_json_text(cav), ok: false, meter }, true);
        },
    };
    let dim = match cav.str_at("dim") {
        Some(d) => d,
        None => {
            assert(false);
            "dim"
        },
    };
    if str_eq(dim, "action.allow") {
        (check_action_allow(key, cav, ctx), false)
    } else if str_eq(dim, "reversibility.max") {
        (check_reversibility(key, cav, ctx), false)
    } else if str_eq(dim, "external_reach") {
        (check_reach(key, cav, ctx), false)
    } else if str_eq(dim, "budget.count") {
        (check_budget(key, cav, ctx, meters), false)
    } else if str_eq(dim, "paths.write") {
        (check_paths(key, cav, ctx), false)
    } else if str_eq(dim, "time") {
        let ok_before = time_bound(cav, "not_before", ctx.now, true);
        let ok_after = time_bound(cav, "not_after", ctx.now, false);
        (Check { caveat: key, ok: ok_before && ok_after, meter: Json::Null }, false)
    } else if str_eq(dim, "approval.min_auth") {
        let ok = match cav.str_at("min") {
            Some(s) => auth_rank(s).is_some(),
            None => false,
        };
        let meter = mk_obj1("gates", Json::from_str("approvals"));
        (Check { caveat: key, ok, meter }, false)
    } else {
        let msg = cat(&cat("unknown dimension '", dim), "' (fail closed, §0)");
        let meter = mk_obj1("reason", Json::Str(msg));
        (Check { caveat: key, ok: false, meter }, true)
    }
}

fn structural(why: String) -> (r: Evaluation)
    ensures
        r.view() == structural_deny(why@),
{
    let failed: Vec<String> = Vec::new();
    assert(string_views(failed@) =~= Seq::<Seq<char>>::empty());
    let r = Evaluation {
        checks: Vec::new(),
        outcome: Outcome::Deny { failed, structural: Some(why) },
        consumed_exemptions: Vec::new(),
    };
    assert(r.view().checks =~= Seq::<CheckV>::empty());
    assert(r.view().consumed_exemptions =~= Seq::<(Seq<char>, Seq<char>)>::empty());
    r
}

/// Evaluate `cap` against a proposed call. `meters` lists the prior
/// consumption per budget caveat key (absent keys have consumed nothing);
/// `exemptions` lists, per caveat key, an unconsumed approval exemption and
/// its escalation id. Both are only read: consumption is the broker's, and
/// only on `Allow`.
pub fn evaluate(
    cap: &Json,
    ctx: &CallCtx,
    meters: &Vec<(String, u64)>,
    exemptions: &Vec<(String, String)>,
) -> (r: Evaluation)
    ensures
        r.view() == spec_evaluate(cap@, ctx.view(), meters_view(meters@), pairs_view(exemptions@)),
{
    let exp = match cap.str_at("expires_at") {
        None => return structural("capability has no expiry (mandatory, §5)".to_owned()),
        Some(e) => e,
    };
    match (parse_instant(ctx.now), parse_instant(exp)) {
        (Some(now), Some(exp_t)) => {
            if !(now <= exp_t) {
                return structural(cat("capability expired at ", exp));
            }
        },
        _ => return structural("unparseable timestamp in expiry check (fail closed)".to_owned()),
    }
    match cap.str_at("bound_manifest") {
        Some(m) => {
            if !str_eq(m, ctx.current_manifest) {
                let msg = cat(&cat(&cat("M2 violation: capability bound to ", m), ", current manifest is "), ctx.current_manifest);
                return structural(msg);
            }
        },
        None => return structural("capability has no bound_manifest (M2)".to_owned()),
    }

    let ghost ctxv = ctx.view();
    let ghost mv = meters_view(meters@);
    let ghost xv = pairs_view(exemptions@);
    let caveats = match cap.get("caveats") {
        Some(c) => match c.as_array() {
            Some(a) => crate::capability::clone_vec(a),
            None => Vec::new(),
        },
        None => Vec::new(),
    };
    proof { lemma_elems_view_len(caveats@); }
    let ghost cavs = elems_view(caveats@);
    assert(cavs == cap_caveats(cap@));
    let mut checks: Vec<Check> = Vec::new();
    let mut unknown = false;
    let mut i: usize = 0;
    while i < caveats.len()
        invariant
            i <= caveats.len(),
            cavs == elems_view(caveats@),
            cavs.len() == caveats.len(),
            forall|j: int| 0 <= j < caveats.len() ==> #[trigger] cavs[j] == json_view(caveats@[j]),
            checks_view(checks@) == caveat_checks(cavs.take(i as int), ctxv, mv),
            unknown == unknown_failed(cavs.take(i as int), ctxv, mv),
        decreases caveats.len() - i,
    {
        let (c, u) = check_caveat(&caveats[i], ctx, meters);
        let ghost before = checks@;
        checks.push(c);
        proof {
            assert(cavs.take(i + 1) =~= cavs.take(i as int).push(cavs[i as int]));
            assert(checks_view(checks@) =~= checks_view(before).push(c.view()));
            assert(caveat_checks(cavs.take(i + 1), ctxv, mv) =~= caveat_checks(cavs.take(i as int), ctxv, mv).push(caveat_check(cavs[i as int], ctxv, mv).0));
            let t = cavs.take(i + 1);
            if u {
                assert(caveat_check(t[i as int], ctxv, mv).1);
            }
            if unknown_failed(t, ctxv, mv) && !u {
                let w = choose|w: int| 0 <= w < t.len() && (#[trigger] caveat_check(t[w], ctxv, mv)).1;
                assert(w < i);
                assert(t[w] == cavs.take(i as int)[w]);
            }
            if unknown {
                let w = choose|w: int| 0 <= w < i && (#[trigger] caveat_check(cavs.take(i as int)[w], ctxv, mv)).1;
                assert(t[w] == cavs.take(i as int)[w]);
            }
        }
        unknown = unknown || u;
        i += 1;
    }
    assert(cavs.take(caveats.len() as int) =~= cavs);

    // Approval exemptions: a failing, escalatable check with a granted
    // exemption flips to ok; unknown dimensions never flip.
    let escalatable = match cap.get("on_violation") {
        Some(ov) => str_list_of(ov, "escalatable"),
        None => Vec::new(),
    };
    let ghost raw = checks_view(checks@);
    let ghost esc = string_views(escalatable@);
    assert(esc == escalatable_of(cap@)) by {
        if cap@.get("on_violation"@) is None {
            assert(esc =~= Seq::<Seq<char>>::empty());
        }
    }
    let mut consumed_ex: Vec<(String, String)> = Vec::new();
    let mut out: Vec<Check> = Vec::new();
    let mut k: usize = 0;
    while k < checks.len()
        invariant
            k <= checks.len(),
            raw == checks_view(checks@),
            esc == string_views(escalatable@),
            checks_view(out@) == exempted_checks(raw.take(k as int), esc, xv),
            pairs_view(consumed_ex@) == consumed(raw.take(k as int), esc, xv),
        decreases checks.len() - k,
    {
        let c = &checks[k];
        let ghost cv = c.view();
        let ghost before_out = out@;
        let ghost before_con = consumed_ex@;
        let mut flipped = false;
        if !c.ok && crate::capability::str_list_contains(&escalatable, c.caveat.as_str()) {
            let mentions_unknown = match c.meter.str_at("reason") {
                Some(r) => contains_sub(r, "unknown"),
                None => false,
            };
            if !mentions_unknown {
                match lookup_exemption(exemptions, c.caveat.as_str()) {
                    Some(id) => {
                        let was = c.meter.deep_clone();
                        let meter = mk_obj2("approved_exemption", Json::from_str(id.as_str()), "was", was);
                        out.push(Check { caveat: c.caveat.clone(), ok: true, meter });
                        consumed_ex.push((c.caveat.clone(), id));
                        flipped = true;
                    },
                    None => {},
                }
            }
        }
        if !flipped {
            let copy = Check { caveat: c.caveat.clone(), ok: c.ok, meter: c.meter.deep_clone() };
            out.push(copy);
        }
        proof {
            assert(raw.take(k + 1) =~= raw.take(k as int).push(raw[k as int]));
            assert(raw[k as int] == cv);
            assert(checks_view(out@) =~= checks_view(before_out).push(exempted(cv, esc, xv).0));
            assert(exempted_checks(raw.take(k + 1), esc, xv) =~= exempted_checks(raw.take(k as int), esc, xv).push(exempted(cv, esc, xv).0));
            lemma_consumed_push(raw.take(k as int), cv, esc, xv);
            if flipped {
                assert(pairs_view(consumed_ex@) =~= pairs_view(before_con).push(exempted(cv, esc, xv).1.unwrap()));
            } else {
                assert(pairs_view(consumed_ex@) =~= pairs_view(before_con));
            }
        }
        k += 1;
    }
    assert(raw.take(checks.len() as int) =~= raw);

    let ghost fin = checks_view(out@);
    let mut failed: Vec<String> = Vec::new();
    let mut all_esc = true;
    let mut q: usize = 0;
    while q < out.len()
        invariant
            q <= out.len(),
            fin == checks_view(out@),
            esc == string_views(escalatable@),
            string_views(failed@) == failed_keys(fin.take(q as int)),
            all_esc == (forall|w: int| 0 <= w < failed_keys(fin.take(q as int)).len() ==> esc.contains(#[trigger] failed_keys(fin.take(q as int))[w])),
        decreases out.len() - q,
    {
        let ghost before = failed@;
        proof {
            assert(fin.take(q + 1) =~= fin.take(q as int).push(fin[q as int]));
            lemma_failed_keys_push(fin.take(q as int), fin[q as int]);
        }
        if !out[q].ok {
            let inesc = crate::capability::str_list_contains(&escalatable, out[q].caveat.as_str());
            failed.push(out[q].caveat.clone());
            proof {
                let fk = failed_keys(fin.take(q + 1));
                assert(string_views(failed@) =~= string_views(before).push(out@[q as int].caveat@));
                if all_esc && inesc {
                    assert forall|w: int| 0 <= w < fk.len() implies esc.contains(#[trigger] fk[w]) by {
                        if w < fk.len() - 1 {
                            assert(fk[w] == failed_keys(fin.take(q as int))[w]);
                        }
                    }
                }
                if !inesc {
                    assert(!esc.contains(fk[fk.len() - 1]));
                }
                if !all_esc {
                    let w = choose|w: int| 0 <= w < failed_keys(fin.take(q as int)).len() && !esc.contains(#[trigger] failed_keys(fin.take(q as int))[w]);
                    assert(fk[w] == failed_keys(fin.take(q as int))[w]);
                }
            }
            all_esc = all_esc && inesc;
        } else {
            proof {
                assert(failed_keys(fin.take(q + 1)) =~= failed_keys(fin.take(q as int)));
            }
        }
        q += 1;
    }
    assert(fin.take(out.len() as int) =~= fin);
    let outcome = if failed.len() == 0 {
        Outcome::Allow
    } else if !unknown && all_esc {
        Outcome::Escalate { failed }
    } else {
        Outcome::Deny { failed, structural: None }
    };
    Evaluation { checks: out, outcome, consumed_exemptions: consumed_ex }
}

proof fn lemma_consumed_push(cs: Seq<CheckV>, c: CheckV, esc: Seq<Seq<char>>, ex: Seq<(Seq<char>, Seq<char>)>)
    ensures
        consumed(cs.push(c), esc, ex) == consumed(cs, esc, ex) + opt_seq(exempted(c, esc, ex).1),
    decreases cs.len(),
{
    if cs.len() == 0 {
        assert(cs.push(c).drop_first() =~= cs);
        assert(consumed(cs.push(c), esc, ex) =~= consumed(cs, esc, ex) + opt_seq(exempted(c, esc, ex).1));
    } else {
        lemma_consumed_push(cs.drop_first(), c, esc, ex);
        assert(cs.push(c).drop_first() =~= cs.drop_first().push(c));
        assert(consumed(cs.push(c), esc, ex) =~= consumed(cs, esc, ex) + opt_seq(exempted(c, esc, ex).1));
    }
}

proof fn lemma_failed_keys_push(cs: Seq<CheckV>, c: CheckV)
    ensures
        failed_keys(cs.push(c)) == failed_keys(cs) + (if c.ok {
            Seq::<Seq<char>>::empty()
        } else {
            seq![c.caveat]
        }),
    decreases cs.len(),
{
    if cs.len() == 0 {
        assert(cs.push(c).drop_first() =~= cs);
        assert(failed_keys(cs.push(c)) =~= failed_keys(cs) + (if c.ok {
            Seq::<Seq<char>>::empty()
        } else {
            seq![c.caveat]
        }));
    } else {
        lemma_failed_keys_push(cs.drop_first(), c);
        assert(cs.push(c).drop_first() =~= cs.drop_first().push(c));
        assert(failed_keys(cs.push(c)) =~= failed_keys(cs) + (if c.ok {
            Seq::<Seq<char>>::empty()
        } else {
            seq![c.caveat]
        }));
    }
}

/// The §6 tool_call rendering of checks: `{"caveat", "meter", "ok"}` each.
pub open spec fn check_json(c: CheckV) -> JsonV {
    JsonV::Object(seq![("caveat"@, JsonV::Str(c.caveat)), ("meter"@, c.meter), ("ok"@, JsonV::Bool(c.ok))])
}

/// Render checks for the §6 tool_call body.
pub fn checks_json(checks: &Vec<Check>) -> (r: Json)
    ensures
        r@ == JsonV::Array(checks_view(checks@).map_values(|c: CheckV| check_json(c))),
{
    let mut out: Vec<Json> = Vec::new();
    let mut i: usize = 0;
    while i < checks.len()
        invariant
            i <= checks.len(),
            elems_view(out@) == checks_view(checks@).take(i as int).map_values(|c: CheckV| check_json(c)),
        decreases checks.len() - i,
    {
        let c = &checks[i];
        let f = vec![
            ("caveat".to_owned(), Json::from_str(c.caveat.as_str())),
            ("meter".to_owned(), c.meter.deep_clone()),
            ("ok".to_owned(), Json::Bool(c.ok)),
        ];
        proof { lemma_fields_view_len(f@); }
        let e = Json::Object(f);
        assert(fields_view(f@) =~= seq![("caveat"@, JsonV::Str(c.caveat@)), ("meter"@, c.meter@), ("ok"@, JsonV::Bool(c.ok))]);
        proof { lemma_elems_view_push(out@, e); }
        out.push(e);
        i += 1;
        assert(elems_view(out@) =~= checks_view(checks@).take(i as int).map_values(|c: CheckV| check_json(c)));
    }
    assert(checks_view(checks@).take(checks.len() as int) =~= checks_view(checks@));
    Json::Array(out)
}

} // verus!
