use asf_kernel::authority::BrokerError;
use asf_kernel::escalation::{
    batched_samples, denial_body, escalation_body, escalation_resolution_body, escalation_sample, grant_body,
    grants_exemption, w14_pending_escalation, escalation_batch_step, BatchStep, PendingBatch,
};
use asf_kernel::json::{Json, JsonNumber};
use asf_kernel::trace::VerifiedEvent;
use serde_json::Value;

fn conv(v: &Value) -> Json {
    match v {
        Value::Null => Json::Null,
        Value::Bool(b) => Json::Bool(*b),
        Value::Number(n) => Json::Number(JsonNumber::Int(n.as_i64().unwrap() as i128)),
        Value::String(s) => Json::Str(s.clone()),
        Value::Array(a) => Json::Array(a.iter().map(conv).collect()),
        Value::Object(m) => Json::Object(m.iter().map(|(k, v)| (k.clone(), conv(v))).collect()),
    }
}

fn back(v: &Json) -> Value {
    match v {
        Json::Null => Value::Null,
        Json::Bool(b) => Value::Bool(*b),
        Json::Number(JsonNumber::Int(i)) => Value::from(*i as i64),
        Json::Number(JsonNumber::Float(f)) => serde_json::from_str(f).unwrap(),
        Json::Str(s) => Value::String(s.clone()),
        Json::Array(a) => Value::Array(a.iter().map(back).collect()),
        Json::Object(f) => Value::Object(f.iter().map(|(k, v)| (k.clone(), back(v))).collect()),
    }
}

fn v(text: &str) -> Value {
    serde_json::from_str(text).unwrap()
}

fn j(text: &str) -> Json {
    conv(&v(text))
}

const SUB: &str = "span:substrate";

fn ev(offset: i64, seq: i64, kind: &str, manifest: Option<&str>, body: &str) -> VerifiedEvent {
    VerifiedEvent {
        offset,
        id: format!("evt:{offset}"),
        span: SUB.to_string(),
        seq,
        prev: None,
        manifest: manifest.map(str::to_string),
        at: "2026-07-08T01:00:00Z".to_string(),
        kind: kind.to_string(),
        raw: j(&format!(r#"{{"kind":"{kind}","body":{body}}}"#)),
    }
}

fn esc(offset: i64, seq: i64, id: i64, cap: &str, caveat: &str) -> VerifiedEvent {
    ev(offset, seq, "escalation", Some("man:x"), &format!(
        r#"{{"escalation":{id},"capability":"{cap}","caveat":"{caveat}","count":1}}"#
    ))
}

#[test]
fn approval_binds_to_the_signed_escalation() {
    let events = vec![esc(1, 0, 9, "cap:a", "budget.count:write"), esc(2, 1, 9, "cap:a", "budget.count:write")];
    let b = w14_pending_escalation(&events, SUB, 9).ok().unwrap();
    assert_eq!((b.capability.as_str(), b.manifest.as_str(), b.caveat.as_str()), ("cap:a", "man:x", "budget.count:write"));
}

#[test]
fn unknown_resolved_or_conflicting_escalations_are_refused() {
    let r = w14_pending_escalation(&vec![], SUB, 9);
    assert_eq!(r.err().unwrap().text(), "escalation 9 not found or not pending");
    let resolved = vec![esc(1, 0, 9, "cap:a", "k"), ev(2, 1, "approval", Some("man:x"), r#"{"escalation":9}"#)];
    assert!(matches!(w14_pending_escalation(&resolved, SUB, 9), Err(BrokerError::NoSuchEscalation(9))));
    let conflicting = vec![esc(1, 0, 9, "cap:a", "k"), esc(2, 1, 9, "cap:b", "k")];
    let r = w14_pending_escalation(&conflicting, SUB, 9);
    assert_eq!(
        r.err().unwrap().text(),
        "promotion gate: trace exceeds capability — signed escalation 9 has conflicting bindings (nothing merged)"
    );
}

#[test]
fn batch_keeps_at_most_five_samples() {
    let mut s: Vec<Json> = Vec::new();
    for i in 0..7 {
        s = batched_samples(s, j(&i.to_string()));
    }
    assert_eq!(s.len(), 5);
    assert_eq!(back(&s[4]), v("4"));
}

#[test]
fn approval_surface_bodies() {
    let d = denial_body("cap:a", "tool:t", "act", &vec!["k1".to_string()], &None, &j("[]"));
    assert_eq!(
        back(&d),
        v(r#"{"verdict": "deny", "source": "broker", "capability": "cap:a", "tool": "tool:t", "action": "act",
              "failed": ["k1"], "structural": null, "checks": []}"#)
    );
    let sample = escalation_sample("tool:t", "act", &Some(vec!["inbox/a.md".to_string()]));
    assert_eq!(back(&sample), v(r#"{"tool": "tool:t", "action": "act", "paths": ["inbox/a.md"]}"#));
    assert_eq!(back(&escalation_sample("tool:t", "act", &None))["paths"], Value::Null);
    let e = escalation_body(3, "cap:a", "k", 2, &sample);
    assert_eq!(
        back(&e),
        v(r#"{"escalation": 3, "capability": "cap:a", "caveat": "k", "count": 2,
              "sample": [{"tool": "tool:t", "action": "act", "paths": ["inbox/a.md"]}]}"#)
    );
    let b = w14_pending_escalation(&vec![esc(1, 0, 3, "cap:a", "k")], SUB, 3).ok().unwrap();
    let r = escalation_resolution_body(3, true, 2, &b, "cli", "local");
    assert_eq!(
        back(&r),
        v(r#"{"escalation": 3, "resolution": "approved", "uses": 2, "capability": "cap:a", "caveat": "k",
              "channel": "cli", "auth_strength": "local"}"#)
    );
    assert!(grants_exemption(true, 1));
    assert!(!grants_exemption(true, 0));
    assert!(!grants_exemption(false, 3));
    assert_eq!(back(&grant_body("cap:a", None)), v(r#"{"capability": "cap:a", "parent": null}"#));
    assert_eq!(back(&grant_body("cap:b", Some("cap:a"))), v(r#"{"capability": "cap:b", "parent": "cap:a"}"#));
}

#[test]
fn violations_batch_per_capability_and_caveat_key() {
    let sample = |n: u64| Json::Object(vec![("n".to_string(), Json::from_u64(n))]);
    let first = match escalation_batch_step(None, sample(1)) {
        BatchStep::Open { samples } => samples,
        other => panic!("a first violation opens a batch: {other:?}"),
    };
    assert_eq!(first, vec![sample(1)]);
    let mut batch = PendingBatch { id: 7, count: 1, samples: first };
    for n in 2..=6u64 {
        match escalation_batch_step(Some(batch), sample(n)) {
            BatchStep::Join { id, count, samples } => {
                assert_eq!(id, 7);
                assert_eq!(count, n as i64);
                assert_eq!(samples.len(), std::cmp::min(n, 5) as usize, "samples stop at five");
                batch = PendingBatch { id, count, samples };
            }
            other => panic!("a repeat violation joins: {other:?}"),
        }
    }
    assert_eq!(batch.samples.last(), Some(&sample(5)));
}
