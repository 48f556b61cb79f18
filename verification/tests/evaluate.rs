use asf_kernel::evaluate::{checks_json, evaluate, CallCtx, Evaluation, Outcome};
use asf_kernel::json::{Json, JsonNumber};
use serde_json::Value;

fn conv(v: &Value) -> Json {
    match v {
        Value::Null => Json::Null,
        Value::Bool(b) => Json::Bool(*b),
        Value::Number(n) => {
            if let Some(i) = n.as_i64() {
                Json::Number(JsonNumber::Int(i as i128))
            } else if let Some(u) = n.as_u64() {
                Json::Number(JsonNumber::Int(u as i128))
            } else {
                Json::Number(JsonNumber::Float(n.to_string()))
            }
        }
        Value::String(s) => Json::Str(s.clone()),
        Value::Array(a) => Json::Array(a.iter().map(conv).collect()),
        Value::Object(m) => Json::Object(m.iter().map(|(k, v)| (k.clone(), conv(v))).collect()),
    }
}

fn j(text: &str) -> Json {
    conv(&serde_json::from_str::<Value>(text).unwrap())
}

const BASE_CAVEATS: [&str; 4] = [
    r#"{"dim":"action.allow","tools":["tool:vault@1.0"],"actions":["note.write","note.read"]}"#,
    r#"{"dim":"reversibility.max","max":"compensable"}"#,
    r#"{"dim":"paths.write","globs":["inbox/**"]}"#,
    r#"{"dim":"budget.count","action_class":"write","max":2,"window":"run"}"#,
];

fn cap_with(escalatable: &[&str], caveats: &[&str], expires: &str, manifest: &str) -> Json {
    let esc: Vec<String> = escalatable.iter().map(|e| format!("\"{e}\"")).collect();
    j(&format!(
        r#"{{"id":"cap:test","holder":"prin:agent","bound_manifest":"{manifest}",
            "issued_at":"2026-07-08T00:00:00Z","expires_at":"{expires}",
            "caveats":[{}],
            "on_violation":{{"default":"deny","escalatable":[{}]}}}}"#,
        caveats.join(","),
        esc.join(",")
    ))
}

fn cap(escalatable: &[&str], extra: &[&str]) -> Json {
    let mut cavs: Vec<&str> = BASE_CAVEATS.to_vec();
    cavs.extend_from_slice(extra);
    cap_with(escalatable, &cavs, "2026-07-08T12:00:00Z", "man:current")
}

fn ctx<'a>(action: &'a str, paths: Option<Vec<String>>) -> CallCtx<'a> {
    CallCtx {
        tool: "tool:vault@1.0",
        action,
        reversibility: "reversible",
        side_effect: "local",
        action_class: "write",
        write_paths: paths,
        now: "2026-07-08T06:00:00Z",
        current_manifest: "man:current",
    }
}

fn eval(cap: &Json, ctx: &CallCtx, used: u64) -> Evaluation {
    evaluate(cap, ctx, &vec![("budget.count:write".to_string(), used)], &vec![])
}

fn failed_contains(o: &Outcome, key: &str) -> bool {
    match o {
        Outcome::Deny { failed, .. } => failed.iter().any(|f| f == key),
        _ => false,
    }
}

#[test]
fn time_caveat_no_longer_fails_open_at_subsecond_boundary() {
    let c = cap(&[], &[r#"{"dim":"time","not_after":"2026-07-08T06:00:00Z"}"#]);
    let mut cx = ctx("note.write", Some(vec!["inbox/a.md".into()]));
    cx.now = "2026-07-08T06:00:00.3Z";
    let e = eval(&c, &cx, 0);
    assert!(failed_contains(&e.outcome, "time"), "call past not_after must be denied, got {:?}", e.outcome);
    cx.now = "2026-07-08T06:00:00Z";
    assert_eq!(eval(&c, &cx, 0).outcome, Outcome::Allow);
    cx.now = "2026-07-08T05:59:59.9Z";
    assert_eq!(eval(&c, &cx, 0).outcome, Outcome::Allow);
}

#[test]
fn unparseable_time_bound_fails_closed() {
    let c = cap(&[], &[r#"{"dim":"time","not_after":"whenever"}"#]);
    let cx = ctx("note.write", Some(vec!["inbox/a.md".into()]));
    assert!(matches!(eval(&c, &cx, 0).outcome, Outcome::Deny { .. }));
}

#[test]
fn clean_call_allows_with_full_check_record() {
    let e = eval(&cap(&[], &[]), &ctx("note.write", Some(vec!["inbox/a.md".into()])), 0);
    assert_eq!(e.outcome, Outcome::Allow);
    assert_eq!(e.checks.len(), 4);
    assert!(e.checks.iter().all(|c| c.ok));
}

#[test]
fn out_of_scope_path_denies() {
    let e = eval(&cap(&[], &[]), &ctx("note.write", Some(vec!["secrets/key.md".into()])), 0);
    assert!(matches!(e.outcome, Outcome::Deny { ref failed, .. } if failed == &vec!["paths.write".to_string()]));
}

#[test]
fn write_with_no_extractable_paths_fails_closed() {
    let e = eval(&cap(&[], &[]), &ctx("note.write", Some(vec![])), 0);
    assert!(matches!(e.outcome, Outcome::Deny { ref failed, .. } if failed == &vec!["paths.write".to_string()]));
    let paths = e.checks.iter().find(|check| check.caveat == "paths.write").unwrap();
    assert!(matches!(paths.meter.get("reason"), Some(Json::Str(r)) if r.contains("no extractable paths")));
}

#[test]
fn external_reach_requires_live_only_for_external_calls() {
    for mode in ["none", "mocks"] {
        let reach = format!(r#"{{"dim":"external_reach","mode":"{mode}"}}"#);
        let c = cap(&[], &[reach.as_str()]);
        let mut cx = ctx("note.read", None);
        cx.side_effect = "external";
        assert!(failed_contains(&eval(&c, &cx, 0).outcome, "external_reach"));
        cx.side_effect = "local";
        assert_eq!(eval(&c, &cx, 0).outcome, Outcome::Allow, "local calls do not consume external reach");
    }
    let c = cap(&[], &[r#"{"dim":"external_reach","mode":"live"}"#]);
    let mut cx = ctx("note.read", None);
    cx.side_effect = "external";
    assert_eq!(eval(&c, &cx, 0).outcome, Outcome::Allow);
}

#[test]
fn unlisted_action_denies() {
    let e = eval(&cap(&[], &[]), &ctx("note.delete", None), 0);
    assert!(failed_contains(&e.outcome, "action.allow"));
}

#[test]
fn budget_exhaustion_escalates_when_escalatable_else_denies() {
    let c_esc = cap(&["budget.count:write"], &[]);
    let e = eval(&c_esc, &ctx("note.write", Some(vec!["inbox/a.md".into()])), 2);
    assert!(matches!(e.outcome, Outcome::Escalate { .. }));
    let c_no = cap(&[], &[]);
    let e = eval(&c_no, &ctx("note.write", Some(vec!["inbox/a.md".into()])), 2);
    assert!(matches!(e.outcome, Outcome::Deny { .. }));
}

#[test]
fn approval_exemption_flips_the_check() {
    let c = cap(&["budget.count:write"], &[]);
    let e = evaluate(
        &c,
        &ctx("note.write", Some(vec!["inbox/a.md".into()])),
        &vec![("budget.count:write".to_string(), 2)],
        &vec![("budget.count:write".to_string(), "esc:7".to_string())],
    );
    assert_eq!(e.outcome, Outcome::Allow);
    let budget = e.checks.iter().find(|c| c.caveat == "budget.count:write").unwrap();
    assert_eq!(budget.meter.get("approved_exemption"), Some(&Json::Str("esc:7".to_string())));
    assert_eq!(e.consumed_exemptions, vec![("budget.count:write".to_string(), "esc:7".to_string())]);
}

#[test]
fn unknown_dimension_fails_closed_and_never_escalates() {
    let c = cap(&["quantum.entanglement"], &[r#"{"dim":"quantum.entanglement","max":3}"#]);
    let e = evaluate(
        &c,
        &ctx("note.write", Some(vec!["inbox/a.md".into()])),
        &vec![],
        &vec![("quantum.entanglement".to_string(), "esc:9".to_string())],
    );
    assert!(failed_contains(&e.outcome, "quantum.entanglement"));
}

#[test]
fn structural_gates_deny_outright() {
    let c = cap_with(&[], &BASE_CAVEATS, "2026-07-08T01:00:00Z", "man:current");
    let e = eval(&c, &ctx("note.read", None), 0);
    assert!(matches!(e.outcome, Outcome::Deny { structural: Some(ref s), .. } if s.contains("expired")));

    let c = cap(&[], &[]);
    let mut cx = ctx("note.read", None);
    cx.current_manifest = "man:other";
    let e = eval(&c, &cx, 0);
    assert!(matches!(e.outcome, Outcome::Deny { structural: Some(ref s), .. } if s.contains("M2")));
}

#[test]
fn irreversible_action_blocked_by_reversibility_max() {
    let c = cap(&[], &[]);
    let mut cx = ctx("note.write", Some(vec!["inbox/a.md".into()]));
    cx.reversibility = "irreversible";
    let e = eval(&c, &cx, 0);
    assert!(failed_contains(&e.outcome, "reversibility.max"));
}

#[test]
fn unsupported_budget_window_fails_closed() {
    let cavs = [
        BASE_CAVEATS[0],
        BASE_CAVEATS[1],
        BASE_CAVEATS[2],
        r#"{"dim":"budget.count","action_class":"write","max":2,"window":"P7D"}"#,
    ];
    let c = cap_with(&[], &cavs, "2026-07-08T12:00:00Z", "man:current");
    let e = eval(&c, &ctx("note.write", Some(vec!["inbox/a.md".into()])), 0);
    assert!(failed_contains(&e.outcome, "budget.count:write"));
}

#[test]
fn missing_expiry_and_manifest_are_structural() {
    let c = j(r#"{"bound_manifest":"man:current","caveats":[]}"#);
    let e = eval(&c, &ctx("note.read", None), 0);
    assert_eq!(
        e.outcome,
        Outcome::Deny { failed: vec![], structural: Some("capability has no expiry (mandatory, §5)".to_string()) }
    );
    let c = j(r#"{"expires_at":"2026-07-08T12:00:00Z","caveats":[]}"#);
    let e = eval(&c, &ctx("note.read", None), 0);
    assert_eq!(
        e.outcome,
        Outcome::Deny { failed: vec![], structural: Some("capability has no bound_manifest (M2)".to_string()) }
    );
    let c = cap_with(&[], &[], "soon", "man:current");
    assert!(matches!(eval(&c, &ctx("note.read", None), 0).outcome,
        Outcome::Deny { structural: Some(ref s), .. } if s.contains("unparseable")));
}

#[test]
fn checks_render_with_caveat_meter_and_ok() {
    let e = eval(&cap(&[], &[]), &ctx("note.write", Some(vec!["inbox/a.md".into()])), 1);
    let rendered = checks_json(&e.checks);
    match rendered {
        Json::Array(items) => {
            assert_eq!(items.len(), 4);
            let budget = &items[3];
            assert_eq!(budget.get("caveat"), Some(&Json::Str("budget.count:write".to_string())));
            assert_eq!(budget.get("ok"), Some(&Json::Bool(true)));
            let meter = budget.get("meter").unwrap();
            assert_eq!(meter.get("used"), Some(&Json::Number(JsonNumber::Int(1))));
            assert_eq!(meter.get("max"), Some(&Json::Number(JsonNumber::Int(2))));
        }
        other => panic!("expected an array, got {other:?}"),
    }
}

#[test]
fn malformed_caveat_is_named_by_its_text_and_denies() {
    let c = cap(&["budget.count:write"], &[r#"{"max":3}"#]);
    let e = eval(&c, &ctx("note.write", Some(vec!["inbox/a.md".into()])), 0);
    assert!(failed_contains(&e.outcome, r#"{"max":3}"#));
}
