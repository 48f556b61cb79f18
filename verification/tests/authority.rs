use asf_kernel::authority::{
    a22_ancestry, a22_grant_bindings, a22_revoke_offsets, a22_state_at, check_min_auth_for_manifest, extract_paths,
    gate_trace_check, liveness_at_head, m7_effect_capability, m7_grant_offsets, m7_verify_grant, parse_i64_text,
    propose_call, refuse_closed_id, starts_with, w11_final_tool_call, w11_span_events_in_signed_sequence,
    w14_decision_authority, w14_require_approval_strength, w14_required_approval_strength, w14_reserve_signed_checks,
    BrokerError, CallPlan, DecisionAuthority, PromotionOutcome,
};
use asf_kernel::json::{Json, JsonNumber};
use asf_kernel::tools::registration_body;
use asf_kernel::trace::{VerifiedEvent, VerifiedEventSnapshot};
use serde_json::Value;

fn conv(v: &Value) -> Json {
    match v {
        Value::Null => Json::Null,
        Value::Bool(b) => Json::Bool(*b),
        Value::Number(n) => match n.as_i64() {
            Some(i) => Json::Number(JsonNumber::Int(i as i128)),
            None => Json::Number(JsonNumber::Float(n.to_string())),
        },
        Value::String(s) => Json::Str(s.clone()),
        Value::Array(a) => Json::Array(a.iter().map(conv).collect()),
        Value::Object(m) => Json::Object(m.iter().map(|(k, v)| (k.clone(), conv(v))).collect()),
    }
}

fn j(text: &str) -> Json {
    conv(&serde_json::from_str::<Value>(text).unwrap())
}

const SUB: &str = "span:substrate";
const RUN: &str = "span:run";
const MAN: &str = "man:one";

fn ev(offset: i64, span: &str, seq: i64, kind: &str, manifest: Option<&str>, body: &str) -> VerifiedEvent {
    let raw = match manifest {
        Some(m) => j(&format!(r#"{{"body":{body},"kind":"{kind}","manifest":"{m}"}}"#)),
        None => j(&format!(r#"{{"body":{body},"kind":"{kind}"}}"#)),
    };
    VerifiedEvent {
        offset,
        id: format!("evt:{offset}"),
        span: span.to_string(),
        seq,
        prev: None,
        manifest: manifest.map(str::to_string),
        at: "2026-07-08T01:00:00Z".to_string(),
        kind: kind.to_string(),
        raw,
    }
}

fn cap_obj(id: &str, parent: Option<&str>, manifest: &str, extra_caveats: &str) -> Json {
    let parent = match parent {
        Some(p) => format!(r#""{p}""#),
        None => "null".to_string(),
    };
    j(&format!(
        r#"{{"id":"{id}","holder":"prin:agent","bound_manifest":"{manifest}","parent":{parent},
            "issued_at":"2026-07-08T00:00:00Z","expires_at":"2026-07-09T00:00:00Z",
            "caveats":[{{"dim":"action.allow","tools":["tool:vault@1.0"],"actions":["note.write","note.read"]}},
                       {{"dim":"paths.write","globs":["inbox/**"]}},
                       {{"dim":"budget.count","action_class":"write","max":1,"window":"run"}}{extra_caveats}],
            "on_violation":{{"default":"deny","escalatable":["budget.count:write"]}}}}"#
    ))
}

fn caps_table(entries: Vec<(&str, Json)>) -> Vec<(String, Result<Json, String>)> {
    entries.into_iter().map(|(id, c)| (id.to_string(), Ok(c))).collect()
}

fn tools() -> Vec<Json> {
    let actions = j(r#"[
        { "name": "note.read", "side_effect": "local", "surface": "fixed", "reversibility": "reversible",
          "domain": "files.vault", "class": "read", "store": "fs:vault", "path_args": ["path"] },
        { "name": "note.write", "side_effect": "local", "surface": "fixed", "reversibility": "reversible",
          "domain": "files.vault", "class": "write", "store": "fs:vault", "path_args": ["path"],
          "credentials": {"arg": "token", "secret": "vault-token"} }
    ]"#);
    vec![Json::Object(registration_body("tool:vault@1.0", &actions, "t0").ok().unwrap())]
}

fn write_call(offset: i64, seq: i64, cap: &str, path: &str) -> VerifiedEvent {
    ev(offset, RUN, seq, "tool_call", Some(MAN), &format!(
        r#"{{"tool":"tool:vault@1.0","action":"note.write","summary":{{"capability":"{cap}","paths":["{path}"]}},"checks":[]}}"#
    ))
}

fn grant(offset: i64, seq: i64, cap: &str, parent: Option<&str>) -> VerifiedEvent {
    let parent = match parent {
        Some(p) => format!(r#""{p}""#),
        None => "null".to_string(),
    };
    ev(offset, SUB, seq, "grant", Some(MAN), &format!(r#"{{"capability":"{cap}","parent":{parent}}}"#))
}

fn violation(r: Result<Json, BrokerError>) -> String {
    match r {
        Err(BrokerError::GateTraceViolation(m)) => m,
        _ => panic!("expected a trace violation"),
    }
}

fn brokered() -> Result<Json, String> {
    Ok(j(r#"{"id":"man:one","authority":{"mode":"brokered"}}"#))
}

fn field<'a>(v: &'a Json, k: &str) -> &'a Json {
    match v {
        Json::Object(f) => &f.iter().find(|(n, _)| n == k).unwrap().1,
        _ => panic!("not an object"),
    }
}

fn ival(n: i128) -> Json {
    Json::Number(JsonNumber::Int(n))
}

// ---- helpers ---------------------------------------------------------

#[test]
fn signed_sequence_is_stable_by_seq_within_the_span() {
    let evs = vec![
        ev(1, RUN, 2, "tool_call", None, "{}"),
        ev(2, SUB, 0, "grant", None, "{}"),
        ev(3, RUN, 1, "snapshot", None, "{}"),
        ev(4, RUN, 2, "verdict", None, "{}"),
    ];
    let ordered = w11_span_events_in_signed_sequence(&evs, RUN);
    let offsets: Vec<i64> = ordered.iter().map(|e| e.offset).collect();
    assert_eq!(offsets, vec![3, 1, 4]);
    let last = w11_final_tool_call(&evs, RUN).unwrap();
    assert_eq!(last.offset, 1);
    assert!(w11_final_tool_call(&evs, SUB).is_none());
}

#[test]
fn grant_offsets_keep_the_earliest_grant_of_this_manifest_on_the_substrate() {
    let evs = vec![
        grant(5, 0, "cap:a", None),
        grant(7, 1, "cap:a", None),
        ev(8, RUN, 0, "grant", Some(MAN), r#"{"capability":"cap:b","parent":null}"#),
        ev(9, SUB, 2, "grant", Some("man:other"), r#"{"capability":"cap:c","parent":null}"#),
    ];
    assert_eq!(m7_grant_offsets(&evs, SUB, MAN), vec![("cap:a".to_string(), 5)]);
}

#[test]
fn revokes_close_by_id_wherever_emitted() {
    let evs = vec![
        ev(3, RUN, 0, "revoke", Some("man:x"), r#"{"capability":"cap:a"}"#),
        ev(4, SUB, 0, "revoke", None, r#"{"capability":"cap:a"}"#),
        ev(5, SUB, 1, "revoke", None, r#"{"reason":"none named"}"#),
    ];
    assert_eq!(a22_revoke_offsets(&evs), vec![("cap:a".to_string(), 3)]);
    assert!(refuse_closed_id(&evs, "cap:b").is_ok());
    match refuse_closed_id(&evs, "cap:a") {
        Err(BrokerError::CapabilityClosed(m)) => assert_eq!(
            m,
            "cap:a was revoked at offset 3; closure is permanent for the id — mint a new capability"
        ),
        _ => panic!("a revoked id must stay closed"),
    }
}

#[test]
fn grant_bindings_read_the_signed_parent_exactly() {
    let evs = vec![
        grant(1, 0, "cap:root", None),
        grant(2, 1, "cap:child", Some("cap:root")),
        ev(3, SUB, 2, "grant", Some(MAN), r#"{"capability":"cap:noparent"}"#),
        ev(4, SUB, 3, "grant", Some(MAN), r#"{"capability":"cap:badparent","parent":7}"#),
    ];
    let b = a22_grant_bindings(&evs, SUB);
    assert_eq!(
        b,
        vec![
            (("cap:root".to_string(), MAN.to_string(), None), 1),
            (("cap:child".to_string(), MAN.to_string(), Some("cap:root".to_string())), 2),
        ]
    );
}

fn chain() -> Vec<(String, String)> {
    vec![("cap:child".to_string(), MAN.to_string()), ("cap:root".to_string(), MAN.to_string())]
}

fn bindings() -> Vec<((String, String, Option<String>), i64)> {
    vec![
        (("cap:root".to_string(), MAN.to_string(), None), 1),
        (("cap:child".to_string(), MAN.to_string(), Some("cap:root".to_string())), 2),
    ]
}

#[test]
fn liveness_needs_grants_in_order_and_no_prior_revoke() {
    assert_eq!(a22_state_at(&chain(), 3, &bindings(), &vec![]), Ok(()));
    assert_eq!(
        a22_state_at(&chain(), 2, &bindings(), &vec![]),
        Err("operation at offset 2 precedes the grant of cap:child at 2 (M7 ordering)".to_string())
    );
    // An ancestor's revoke closes the descendant.
    assert_eq!(
        a22_state_at(&chain(), 9, &bindings(), &vec![("cap:root".to_string(), 4)]),
        Err("capability cap:root revoked at offset 4 (§5.4; closure is permanent for the id)".to_string())
    );
    // A revoke at or after the operation's offset never retro-fails it.
    assert_eq!(a22_state_at(&chain(), 3, &bindings(), &vec![("cap:root".to_string(), 3)]), Ok(()));
    let out_of_order = vec![
        (("cap:root".to_string(), MAN.to_string(), None), 5),
        (("cap:child".to_string(), MAN.to_string(), Some("cap:root".to_string())), 2),
    ];
    assert_eq!(
        a22_state_at(&chain(), 9, &out_of_order, &vec![]),
        Err("ancestry grants out of order: cap:root granted at 5, its child at 2 (§5.4, fail closed)".to_string())
    );
    assert_eq!(
        a22_state_at(&chain(), 9, &vec![(("cap:root".to_string(), MAN.to_string(), None), 1)], &vec![]),
        Err("no verified grant binds cap:child to man:one with parent Some(\"cap:root\") (A21/M7, fail closed)".to_string())
    );
    assert_eq!(
        a22_state_at(&vec![], 9, &bindings(), &vec![]),
        Err("empty capability ancestry (fail closed)".to_string())
    );
}

#[test]
fn ancestry_walks_parents_and_fails_closed() {
    let caps = caps_table(vec![
        ("cap:child", cap_obj("cap:child", Some("cap:root"), MAN, "")),
        ("cap:root", cap_obj("cap:root", None, MAN, "")),
        ("cap:loop", cap_obj("cap:loop", Some("cap:loop"), MAN, "")),
        ("cap:orphan", cap_obj("cap:orphan", Some("cap:gone"), MAN, "")),
    ]);
    assert_eq!(a22_ancestry(&caps, "cap:child"), Ok(chain()));
    assert_eq!(
        a22_ancestry(&caps, "cap:loop"),
        Err("ancestry of cap:loop contains a cycle at cap:loop (fail closed)".to_string())
    );
    assert_eq!(
        a22_ancestry(&caps, "cap:orphan"),
        Err("capability cap:gone in ancestry of cap:orphan unavailable or mistyped: object cap:gone not found (fail closed)"
            .to_string())
    );
    let unmanifested = vec![("cap:x".to_string(), Ok(j(r#"{"id":"cap:x","parent":null}"#)))];
    assert_eq!(
        a22_ancestry(&unmanifested, "cap:x"),
        Err("capability cap:x has no bound_manifest (fail closed)".to_string())
    );
    let broken = vec![("cap:y".to_string(), Err("bad signature".to_string()))];
    assert_eq!(
        a22_ancestry(&broken, "cap:y"),
        Err("capability cap:y in ancestry of cap:y unavailable or mistyped: bad signature (fail closed)".to_string())
    );
}

#[test]
fn attribution_and_grant_ordering() {
    let attributed = j(r#"{"summary":{"capability":"cap:a"}}"#);
    let bare = j(r#"{"summary":{}}"#);
    assert_eq!(m7_effect_capability(true, &attributed, "evt:1"), Ok(Some("cap:a")));
    assert_eq!(m7_effect_capability(false, &bare, "evt:1"), Ok(None));
    assert_eq!(
        m7_effect_capability(true, &bare, "evt:1"),
        Err("event evt:1 has no capability attribution under brokered authority (M7)".to_string())
    );
    let grants = vec![("cap:a".to_string(), 5)];
    assert!(m7_verify_grant(true, "cap:a", "evt:9", 9, &grants).is_ok());
    assert_eq!(
        m7_verify_grant(true, "cap:a", "evt:4", 4, &grants),
        Err("event evt:4 precedes the grant of cap:a (M7 ordering)".to_string())
    );
    assert_eq!(
        m7_verify_grant(true, "cap:b", "evt:9", 9, &grants),
        Err("event evt:9: no verified grant event binds cap:b to this manifest (M7)".to_string())
    );
    assert!(m7_verify_grant(false, "cap:b", "evt:9", 9, &grants).is_ok());
}

#[test]
fn paths_come_only_from_declared_path_args() {
    let reg = j(r#"{"path_args":["path","dest",7,"missing"]}"#);
    let args = j(r#"{"path":"inbox/a.md","dest":"inbox/b.md","other":"x","missing":3}"#);
    assert_eq!(extract_paths(&reg, &args), vec!["inbox/a.md".to_string(), "inbox/b.md".to_string()]);
    assert!(extract_paths(&j("{}"), &args).is_empty());
}

#[test]
fn approval_strength_is_the_strongest_min_auth() {
    let cap = j(r#"{"caveats":[{"dim":"approval.min_auth","min":"platform_oauth"},
                              {"dim":"approval.min_auth","min":"passkey"},
                              {"dim":"action.allow"}]}"#);
    assert!(matches!(w14_required_approval_strength("cap:a", &cap), Ok(Some((2, ref m))) if m == "passkey"));
    assert!(matches!(w14_required_approval_strength("cap:a", &j(r#"{"caveats":[]}"#)), Ok(None)));
    assert!(w14_require_approval_strength("cap:a", &cap, "local_session").is_ok());
    match w14_require_approval_strength("cap:a", &cap, "unverified") {
        Err(BrokerError::ChannelTooWeak { have, need }) => {
            assert_eq!(have, "unverified");
            assert_eq!(need, "passkey");
        }
        _ => panic!("a weak channel must be refused"),
    }
    match w14_required_approval_strength("cap:a", &j(r#"{"caveats":[{"dim":"approval.min_auth","min":"telepathy"}]}"#)) {
        Err(BrokerError::GateTraceViolation(m)) => assert_eq!(m, "capability cap:a has unknown approval strength telepathy"),
        _ => panic!("an unknown strength must be refused"),
    }
    match w14_required_approval_strength("cap:a", &j("{}")) {
        Err(BrokerError::GateTraceViolation(m)) => assert_eq!(m, "capability cap:a has no signed caveat array"),
        _ => panic!("a capability without caveats must be refused"),
    }
}

#[test]
fn decimal_ids_parse_as_std_does() {
    for (text, want) in [("7", Some(7)), ("+7", Some(7)), ("-12", Some(-12)), ("9223372036854775807", Some(i64::MAX)),
        ("-9223372036854775808", Some(i64::MIN)), ("9223372036854775808", None), ("", None), ("-", None), ("1x", None),
        ("99999999999999999999999", None)] {
        assert_eq!(parse_i64_text(text), want, "{text}");
        assert_eq!(text.parse::<i64>().ok(), want, "{text}");
    }
    assert!(starts_with("budget.count:write", "budget.count:"));
    assert!(!starts_with("budget", "budget.count:"));
}

#[test]
fn reservations_count_budgets_and_spend_signed_approvals() {
    let mut meters: Vec<(String, u64)> = Vec::new();
    let mut remaining = vec![(("cap:a".to_string(), "budget.count:write".to_string(), 7), 1)];
    let checks = j(r#"[{"caveat":"budget.count:write","ok":true,"meter":{"approved_exemption":"esc:7"}},
                        {"caveat":"budget.count:read","ok":true,"meter":{"applies":false}},
                        {"caveat":"paths.write","ok":true,"meter":{}}]"#);
    assert!(w14_reserve_signed_checks("cap:a", &checks, &mut meters, &mut remaining).is_ok());
    assert_eq!(meters, vec![("budget.count:write".to_string(), 1)]);
    assert_eq!(remaining[0].1, 0);
    match w14_reserve_signed_checks("cap:a", &checks, &mut meters, &mut remaining) {
        Err(BrokerError::GateTraceViolation(m)) => assert_eq!(m, "authorized call for cap:a exceeds signed approval 7"),
        _ => panic!("spent headroom must not be reused"),
    }
    let forged = j(r#"[{"caveat":"budget.count:write","meter":{"approved_exemption":"esc:8"}}]"#);
    match w14_reserve_signed_checks("cap:a", &forged, &mut meters, &mut remaining) {
        Err(BrokerError::GateTraceViolation(m)) => {
            assert_eq!(m, "authorized call for cap:a consumes unsigned or mismatched escalation 8")
        }
        _ => panic!("an unsigned escalation must not be consumed"),
    }
    let malformed = j(r#"[{"caveat":"x","meter":{"approved_exemption":"esc:seven"}}]"#);
    assert!(w14_reserve_signed_checks("cap:a", &malformed, &mut meters, &mut remaining).is_err());
    assert!(w14_reserve_signed_checks("cap:a", &j("{}"), &mut meters, &mut remaining).is_err());
}

fn decision_events() -> Vec<VerifiedEvent> {
    vec![
        ev(1, SUB, 0, "escalation", Some(MAN), r#"{"escalation":7,"capability":"cap:a","caveat":"budget.count:write"}"#),
        ev(2, SUB, 1, "approval", Some(MAN), r#"{"escalation":7,"capability":"cap:a","caveat":"budget.count:write",
            "resolution":"approved","auth_strength":"passkey","channel":"cli","uses":2}"#),
        ev(3, RUN, 0, "tool_call", Some(MAN), r#"{"summary":{"capability":"cap:a"},
            "checks":[{"caveat":"budget.count:write","meter":{"approved_exemption":"esc:7"}}]}"#),
    ]
}

#[test]
fn decision_authority_rebuilds_headroom_from_signed_events() {
    let caps = caps_table(vec![("cap:a", cap_obj("cap:a", None, MAN, ""))]);
    let d = w14_decision_authority(&decision_events(), SUB, "cap:a", &caps, &vec![]).ok().unwrap();
    assert_eq!(d.meters, vec![("budget.count:write".to_string(), 1)]);
    assert_eq!(d.exemptions, vec![("budget.count:write".to_string(), "esc:7".to_string())]);
    // An in-flight call reserves the last use.
    let pending = vec![("cap:a".to_string(), j(r#"[{"caveat":"budget.count:write","meter":{"approved_exemption":"esc:7"}}]"#))];
    let d2 = w14_decision_authority(&decision_events(), SUB, "cap:a", &caps, &pending).ok().unwrap();
    assert_eq!(d2.meters, vec![("budget.count:write".to_string(), 2)]);
    assert!(d2.exemptions.is_empty());
    // Another capability sees none of it.
    let d3 = w14_decision_authority(&decision_events(), SUB, "cap:b", &caps, &vec![]).ok().unwrap();
    assert!(d3.meters.is_empty() && d3.exemptions.is_empty());
}

#[test]
fn decision_authority_refuses_conflicting_or_repeated_resolutions() {
    let caps = caps_table(vec![("cap:a", cap_obj("cap:a", None, MAN, ""))]);
    let mut evs = decision_events();
    evs.push(ev(4, SUB, 2, "escalation", Some(MAN), r#"{"escalation":7,"capability":"cap:b","caveat":"budget.count:write"}"#));
    match w14_decision_authority(&evs, SUB, "cap:a", &caps, &vec![]) {
        Err(BrokerError::GateTraceViolation(m)) => assert_eq!(m, "signed escalation 7 has conflicting authority bindings"),
        _ => panic!("conflicting bindings must fail"),
    }
    let mut evs = decision_events();
    evs.push(ev(4, SUB, 2, "approval", Some(MAN), r#"{"escalation":7,"resolution":"denied"}"#));
    match w14_decision_authority(&evs, SUB, "cap:a", &caps, &vec![]) {
        Err(BrokerError::GateTraceViolation(m)) => assert_eq!(m, "signed escalation 7 has multiple resolutions"),
        _ => panic!("a second resolution must fail"),
    }
}

#[test]
fn gate_approvals_meet_the_manifests_strongest_minimum() {
    let strict = cap_obj("cap:a", None, MAN, r#",{"dim":"approval.min_auth","min":"passkey"}"#);
    let caps = caps_table(vec![("cap:a", strict)]);
    let evs = vec![grant(1, 0, "cap:a", None)];
    assert!(check_min_auth_for_manifest(&evs, SUB, MAN, "passkey", &caps).is_ok());
    assert!(matches!(
        check_min_auth_for_manifest(&evs, SUB, MAN, "platform_oauth", &caps),
        Err(BrokerError::ChannelTooWeak { .. })
    ));
    assert!(check_min_auth_for_manifest(&evs, SUB, "man:other", "unverified", &caps).is_ok());
    let misbound = caps_table(vec![("cap:a", cap_obj("cap:a", None, "man:elsewhere", ""))]);
    match check_min_auth_for_manifest(&evs, SUB, MAN, "passkey", &misbound) {
        Err(BrokerError::GateTraceViolation(m)) => assert_eq!(
            m,
            "grant binds capability cap:a to man:one, but its signed object binds a different manifest"
        ),
        _ => panic!("a misbound grant must fail"),
    }
}

#[test]
fn liveness_is_judged_just_past_the_observed_head() {
    let caps = caps_table(vec![("cap:a", cap_obj("cap:a", None, MAN, ""))]);
    let snap = VerifiedEventSnapshot { events: vec![grant(4, 0, "cap:a", None)], head: 4 };
    assert!(liveness_at_head(&snap, SUB, &caps, "cap:a").is_ok());
    let early = VerifiedEventSnapshot { events: vec![grant(4, 0, "cap:a", None)], head: 3 };
    assert!(liveness_at_head(&early, SUB, &caps, "cap:a").is_err());
}

// ---- promotion replay ------------------------------------------------

fn run_events(calls: Vec<VerifiedEvent>) -> Vec<VerifiedEvent> {
    let mut evs = vec![grant(1, 0, "cap:a", None)];
    evs.extend(calls);
    evs
}

#[test]
fn gate_replays_a_clean_run() {
    let caps = caps_table(vec![("cap:a", cap_obj("cap:a", None, MAN, ""))]);
    let evs = run_events(vec![write_call(2, 0, "cap:a", "inbox/a.md")]);
    let report = gate_trace_check(&evs, RUN, SUB, MAN, &brokered(), &caps, &tools()).ok().unwrap();
    assert_eq!(field(&report, "events"), &ival(1));
    assert_eq!(field(&report, "tool_calls"), &ival(1));
    assert_eq!(field(&report, "unattributed_tool_calls"), &ival(0));
    assert_eq!(field(&report, "capabilities"), &Json::Array(vec![Json::Str("cap:a".to_string())]));
    assert_eq!(field(&report, "ok"), &Json::Bool(true));
}

#[test]
fn gate_replays_budgets_in_signed_order() {
    let caps = caps_table(vec![("cap:a", cap_obj("cap:a", None, MAN, ""))]);
    let evs = run_events(vec![write_call(2, 0, "cap:a", "inbox/a.md"), write_call(3, 1, "cap:a", "inbox/b.md")]);
    let m = violation(gate_trace_check(&evs, RUN, SUB, MAN, &brokered(), &caps, &tools()));
    assert_eq!(m, "event evt:3 executed without signed approval headroom: [budget.count:write]");
}

#[test]
fn gate_rejects_out_of_scope_paths_and_unattributed_brokered_calls() {
    let caps = caps_table(vec![("cap:a", cap_obj("cap:a", None, MAN, ""))]);
    let evs = run_events(vec![write_call(2, 0, "cap:a", "secrets/key")]);
    let m = violation(gate_trace_check(&evs, RUN, SUB, MAN, &brokered(), &caps, &tools()));
    assert!(m.starts_with("event evt:2 fails re-evaluation under cap:a: failed [paths.write"), "{m}");

    let bare = ev(2, RUN, 0, "tool_call", Some(MAN), r#"{"tool":"tool:vault@1.0","action":"note.read","summary":{}}"#);
    let evs = run_events(vec![bare]);
    let m = violation(gate_trace_check(&evs, RUN, SUB, MAN, &brokered(), &caps, &tools()));
    assert_eq!(m, "event evt:2 has no capability attribution under brokered authority (M7)");
    let observed = Ok(j(r#"{"id":"man:one"}"#));
    let report = gate_trace_check(&evs, RUN, SUB, MAN, &observed, &caps, &tools()).ok().unwrap();
    assert_eq!(field(&report, "unattributed_tool_calls"), &ival(1));
}

#[test]
fn gate_rejects_calls_after_a_revoke_and_before_a_grant() {
    let caps = caps_table(vec![("cap:a", cap_obj("cap:a", None, MAN, ""))]);
    let mut evs = run_events(vec![write_call(3, 0, "cap:a", "inbox/a.md")]);
    evs.insert(1, ev(2, SUB, 1, "revoke", Some(MAN), r#"{"capability":"cap:a","reason":"done"}"#));
    let m = violation(gate_trace_check(&evs, RUN, SUB, MAN, &brokered(), &caps, &tools()));
    assert_eq!(m, "event evt:3: capability cap:a revoked at offset 2 (§5.4; closure is permanent for the id)");

    let evs = vec![write_call(1, 0, "cap:a", "inbox/a.md"), grant(2, 0, "cap:a", None)];
    let m = violation(gate_trace_check(&evs, RUN, SUB, MAN, &brokered(), &caps, &tools()));
    assert_eq!(m, "event evt:1 precedes the grant of cap:a (M7 ordering)");
}

#[test]
fn gate_reports_closure_anomalies_without_failing() {
    let caps = caps_table(vec![("cap:a", cap_obj("cap:a", None, MAN, ""))]);
    let mut evs = run_events(vec![write_call(4, 0, "cap:a", "inbox/a.md")]);
    evs.push(ev(5, RUN, 1, "revoke", Some("man:x"), r#"{"capability":"cap:zz","channel":"cli","reason":"  "}"#));
    let report = gate_trace_check(&evs, RUN, SUB, MAN, &brokered(), &caps, &tools()).ok().unwrap();
    let anomalies = match field(&report, "closure_anomalies") {
        Json::Array(a) => a.clone(),
        _ => panic!("anomalies are an array"),
    };
    let texts: Vec<String> = anomalies.iter().map(|a| match a {
        Json::Str(s) => s.clone(),
        _ => panic!("anomaly is text"),
    }).collect();
    assert_eq!(texts, vec![
        "revoke evt:5 of cap:zz emitted on span span:run instead of the fabric-lifetime span — closure holds (§5.4)".to_string(),
        "revoke evt:5 targets unavailable, mistyped, or unverifiable capability cap:zz: object cap:zz not found — closure holds (§5.4)".to_string(),
        "revoke evt:5 of cap:zz has unpaired C1 provenance (channel cli, auth_strength null) — closure holds (§5.4)".to_string(),
        "revoke evt:5 of cap:zz carries no reason — closure holds (§5.4)".to_string(),
    ]);
}

#[test]
fn gate_needs_a_loadable_manifest_and_a_bound_capability() {
    let caps = caps_table(vec![("cap:a", cap_obj("cap:a", None, "man:other", ""))]);
    let evs = run_events(vec![write_call(2, 0, "cap:a", "inbox/a.md")]);
    let m = violation(gate_trace_check(&evs, RUN, SUB, MAN, &Err("object man:one not found".to_string()), &caps, &tools()));
    assert_eq!(m, "manifest man:one unavailable, mistyped, or unverifiable: object man:one not found");
    let m = violation(gate_trace_check(&evs, RUN, SUB, MAN, &brokered(), &caps, &tools()));
    assert_eq!(m, "event evt:2 authorized by capability bound to a different manifest (M2)");
}

// ---- the call decision -------------------------------------------------

fn no_authority() -> Result<DecisionAuthority, String> {
    Ok(DecisionAuthority { meters: vec![], exemptions: vec![] })
}

#[test]
fn proposals_allow_within_scope_and_carry_the_credential() {
    let cap = Ok(cap_obj("cap:a", None, MAN, ""));
    let args = j(r#"{"path":"inbox/a.md","body":"hi"}"#);
    let plan = propose_call("cap:a", "tool:vault@1.0", "note.write", &args, "2026-07-08T02:00:00Z", &cap, &Ok(()), &tools(),
        &Some(MAN.to_string()), &no_authority());
    match plan {
        CallPlan::Allow { reversibility, summary, credential, .. } => {
            assert_eq!(reversibility, "reversible");
            assert_eq!(credential, Some(("token".to_string(), "vault-token".to_string())));
            assert_eq!(field(&summary, "capability"), &Json::Str("cap:a".to_string()));
            assert_eq!(field(&summary, "paths"), &Json::Array(vec![Json::Str("inbox/a.md".to_string())]));
        }
        _ => panic!("an in-scope call must be allowed"),
    }
}

#[test]
fn proposals_deny_structurally_before_evaluation() {
    let args = j(r#"{"path":"inbox/a.md"}"#);
    let now = "2026-07-08T02:00:00Z";
    let man = Some(MAN.to_string());
    let deny = |plan: CallPlan| match plan {
        CallPlan::Deny { structural, .. } => structural.unwrap(),
        _ => panic!("expected a denial"),
    };
    let bad_cap = Err("object cap:a not found".to_string());
    assert_eq!(
        deny(propose_call("cap:a", "tool:vault@1.0", "note.write", &args, now, &bad_cap, &Ok(()), &tools(), &man, &no_authority())),
        "capability object invalid (F1/RF-19): object cap:a not found"
    );
    let cap = Ok(cap_obj("cap:a", None, MAN, ""));
    assert_eq!(
        deny(propose_call("cap:a", "tool:vault@1.0", "note.write", &args, now, &cap, &Err("closed".to_string()), &tools(), &man,
            &no_authority())),
        "closed"
    );
    assert_eq!(
        deny(propose_call("cap:a", "tool:vault@1.0", "note.nuke", &args, now, &cap, &Ok(()), &tools(), &man, &no_authority())),
        "tool tool:vault@1.0 has no declared action note.nuke — undeclared actions cannot be called"
    );
    let broken = Err(BrokerError::GateTraceViolation("signed escalation 7 has multiple resolutions".to_string()).text());
    assert_eq!(
        deny(propose_call("cap:a", "tool:vault@1.0", "note.write", &args, now, &cap, &Ok(()), &tools(), &man, &broken)),
        "signed decision authority unavailable: promotion gate: trace exceeds capability — signed escalation 7 has multiple resolutions (nothing merged)"
    );
}

#[test]
fn proposals_escalate_an_exhausted_budget() {
    let cap = Ok(cap_obj("cap:a", None, MAN, ""));
    let args = j(r#"{"path":"inbox/a.md"}"#);
    let spent: Result<DecisionAuthority, String> = Ok(DecisionAuthority { meters: vec![("budget.count:write".to_string(), 1)], exemptions: vec![] });
    match propose_call("cap:a", "tool:vault@1.0", "note.write", &args, "2026-07-08T02:00:00Z", &cap, &Ok(()), &tools(),
        &Some(MAN.to_string()), &spent) {
        CallPlan::Escalate { failed, sample } => {
            assert_eq!(failed, vec!["budget.count:write".to_string()]);
            assert_eq!(field(&sample, "tool"), &Json::Str("tool:vault@1.0".to_string()));
        }
        _ => panic!("an exhausted escalatable budget must escalate"),
    }
    let exempt: Result<DecisionAuthority, String> = Ok(DecisionAuthority {
        meters: vec![("budget.count:write".to_string(), 1)],
        exemptions: vec![("budget.count:write".to_string(), "esc:7".to_string())],
    });
    assert!(matches!(
        propose_call("cap:a", "tool:vault@1.0", "note.write", &args, "2026-07-08T02:00:00Z", &cap, &Ok(()), &tools(),
            &Some(MAN.to_string()), &exempt),
        CallPlan::Allow { .. }
    ));
}

#[test]
fn promotion_outcomes_carry_their_handle() {
    let applied = PromotionOutcome::Applied { event: "evt:9".to_string() };
    let parked = PromotionOutcome::Parked { promotion: 4 };
    assert!(matches!(applied, PromotionOutcome::Applied { ref event } if event == "evt:9"));
    assert!(matches!(parked, PromotionOutcome::Parked { promotion: 4 }));
}

#[test]
fn broker_error_texts() {
    assert_eq!(
        BrokerError::ChannelTooWeak { have: "unverified".into(), need: "passkey".into() }.text(),
        "approval channel too weak: unverified < required passkey (approval.min_auth)"
    );
    assert_eq!(BrokerError::CapabilityClosed("x".into()).text(), "capability closed (§5.4): x");
    assert_eq!(BrokerError::Unavailable("object x not found".into()).text(), "object x not found");
}
