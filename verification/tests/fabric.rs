use asf_kernel::fabric::{
    branch_key, divergence_ops, drift_attribution, drift_body, expected_roots, remanifest_body, revert_body, revert_roots,
    snapshot_body, tool_call_body, trunk_root_updates,
};
use asf_kernel::json::{Json, JsonNumber};
use asf_kernel::snapshot::{StoreKind, StoreSpec};
use serde_json::Value;

fn conv(v: &Value) -> Json {
    match v {
        Value::Null => Json::Null,
        Value::Bool(b) => Json::Bool(*b),
        Value::Number(n) => Json::Number(JsonNumber::Int(n.as_i64().unwrap() as i128)),
        Value::String(s) => Json::Str(s.clone()),
        Value::Array(a) => Json::Array(a.iter().map(conv).collect()),
        Value::Object(m) => Json::Object(m.iter().map(|(k, v)| (k.clone(), conv(v))).collect()),
    }
}

fn back(v: &Json) -> Value {
    match v {
        Json::Null => Value::Null,
        Json::Bool(b) => Value::Bool(*b),
        Json::Number(JsonNumber::Int(i)) => Value::from(*i as i64),
        Json::Number(JsonNumber::Float(f)) => serde_json::from_str(f).unwrap(),
        Json::Str(s) => Value::String(s.clone()),
        Json::Array(a) => Value::Array(a.iter().map(back).collect()),
        Json::Object(f) => Value::Object(f.iter().map(|(k, v)| (k.clone(), back(v))).collect()),
    }
}

fn v(text: &str) -> Value {
    serde_json::from_str(text).unwrap()
}

fn j(text: &str) -> Json {
    conv(&v(text))
}

fn tree(entries: &[(&str, &str)]) -> Json {
    let es: Vec<String> = entries
        .iter()
        .map(|(p, h)| format!(r#"{{"path":"{p}","hash":"{h}","mode":"644","size":1}}"#))
        .collect();
    j(&format!(r#"{{"kind":"fs_tree","entries":[{}]}}"#, es.join(",")))
}

fn pairs(p: &[(&str, &str)]) -> Vec<(String, String)> {
    p.iter().map(|(a, b)| (a.to_string(), b.to_string())).collect()
}

#[test]
fn divergence_reads_as_operation_classes() {
    let fs = StoreSpec { store: "fs:vault".into(), tier: 1, kind: StoreKind::Fs, path: "/v".into() };
    let e = tree(&[("a.md", "sha256:1"), ("b.md", "sha256:2")]);
    let o = tree(&[("a.md", "sha256:9"), ("docs/b.md", "sha256:2")]);
    let ops: Vec<Value> = divergence_ops(&fs, "r:e", "r:o", Some(&e), Some(&o)).iter().map(back).collect();
    assert_eq!(
        ops,
        vec![
            v(r#"{"op": "move", "from": "b.md", "to": "docs/b.md"}"#),
            v(r#"{"op": "modify", "path": "a.md"}"#),
        ]
    );
    let missing: Vec<Value> = divergence_ops(&fs, "r:e", "r:o", Some(&e), None).iter().map(back).collect();
    assert_eq!(missing, vec![v(r#"{"op": "modify", "path": "(tree unavailable)"}"#)]);
    let db = StoreSpec { store: "db:memory".into(), tier: 1, kind: StoreKind::Sqlite, path: "/m".into() };
    let whole: Vec<Value> = divergence_ops(&db, "a", "b", None, None).iter().map(back).collect();
    assert_eq!(whole, vec![v(r#"{"op": "modify", "path": "db:memory (whole store)"}"#)]);
}

#[test]
fn drift_event_body() {
    assert_eq!(drift_attribution(), "human_local");
    let b = drift_body("fs:vault", "sha256:e", "sha256:o", 4, 9, vec![j(r#"{"op": "add", "path": "x"}"#)]);
    assert_eq!(
        back(&b),
        v(r#"{"store": "fs:vault", "expected_root": "sha256:e", "observed_root": "sha256:o", "between": [4, 9],
               "attribution": "human_local", "ops": [{"op": "add", "path": "x"}]}"#)
    );
}

#[test]
fn step_boundary_bodies_and_expectations() {
    let sealed = j(r#"{"state": {"roots": [{"store": "fs:vault", "root": "sha256:a"}, {"store": "db:m", "root": "sha256:b"}]}}"#);
    assert_eq!(back(&snapshot_body(&sealed)), v(r#"{"roots": [{"store": "fs:vault", "root": "sha256:a"}, {"store": "db:m", "root": "sha256:b"}]}"#));
    assert_eq!(expected_roots(&sealed), pairs(&[("fs:vault", "sha256:a"), ("db:m", "sha256:b")]));
    assert_eq!(back(&remanifest_body("man:p", true)), v(r#"{"parent": "man:p", "behavior_changed": true}"#));
}

#[test]
fn tool_call_body_and_trunk_expectations() {
    let roots = pairs(&[("branch:fs:vault", "sha256:b"), ("db:m", "sha256:t")]);
    let body = tool_call_body(
        "tool:t",
        "act",
        j(r#"{"hash": "sha256:args"}"#),
        j(r#"{"hash": "sha256:res"}"#),
        j(r#"{"capability": "cap:a"}"#),
        j(r#"[]"#),
        None,
        &roots,
    );
    assert_eq!(
        back(&body),
        v(r#"{"tool": "tool:t", "action": "act", "args": {"hash": "sha256:args"}, "result": {"hash": "sha256:res"},
               "summary": {"capability": "cap:a"}, "checks": [], "reversibility": "irreversible", "compensator": null,
               "state_root_after": {"branch:fs:vault": "sha256:b", "db:m": "sha256:t"}}"#)
    );
    assert_eq!(trunk_root_updates(&roots), pairs(&[("db:m", "sha256:t")]));
    assert_eq!(branch_key("fs:vault"), "branch:fs:vault");
}

#[test]
fn revert_reads_every_root_or_refuses() {
    let man = j(r#"{"state": {"roots": [{"store": "fs:vault", "root": "sha256:a"}]}}"#);
    let roots = revert_roots(&man).ok().unwrap();
    assert_eq!(roots, pairs(&[("fs:vault", "sha256:a")]));
    assert_eq!(revert_roots(&j(r#"{"state": {}}"#)).err().unwrap(), "state.roots missing");
    assert_eq!(revert_roots(&j(r#"{"state": {"roots": [{"root": "x"}]}}"#)).err().unwrap(), "root without store");
    assert_eq!(revert_roots(&j(r#"{"state": {"roots": [{"store": "x"}]}}"#)).err().unwrap(), "root without hash");
    assert_eq!(
        back(&revert_body("man:a", &roots)),
        v(r#"{"manifest": "man:a", "roots_restored": [{"store": "fs:vault", "root": "sha256:a"}]}"#)
    );
}
