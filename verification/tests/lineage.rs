use asf_kernel::canon::{seal, verify};
use asf_kernel::fabric::{remanifest_body, require_safe_sqlite_version, tool_call_body, MIN_SAFE_SQLITE_VERSION};
use asf_kernel::json::{Json, JsonNumber};
use asf_kernel::ledger::{behavior_changed, manifest_body, AuthorityMode};
use asf_kernel::promote::default_policy_allows;
use asf_kernel::promotion::plan_sqlite_store;
use ed25519_dalek::SigningKey;
use serde_json::Value;

fn conv(v: &Value) -> Json {
    match v {
        Value::Null => Json::Null,
        Value::Bool(b) => Json::Bool(*b),
        Value::Number(n) => match n.as_i64() {
            Some(i) => Json::Number(JsonNumber::Int(i as i128)),
            None => Json::Number(JsonNumber::Float(n.to_string())),
        },
        Value::String(s) => Json::Str(s.clone()),
        Value::Array(a) => Json::Array(a.iter().map(conv).collect()),
        Value::Object(m) => Json::Object(m.iter().map(|(k, v)| (k.clone(), conv(v))).collect()),
    }
}

fn j(text: &str) -> Json {
    conv(&serde_json::from_str::<Value>(text).unwrap())
}

fn field<'a>(v: &'a Json, k: &str) -> Option<&'a Json> {
    match v {
        Json::Object(f) => f.iter().find(|(n, _)| n == k).map(|(_, x)| x),
        _ => None,
    }
}

fn behavior_v1() -> Json {
    j(r#"{"bundle":"sha256:1111111111111111111111111111111111111111111111111111111111111111","skills":[]}"#)
}

fn roots() -> Vec<Json> {
    vec![j(r#"{"store":"fs:vault","tier":1,"kind":"fs","root":"sha256:00"}"#)]
}

#[test]
fn m5_behavior_change_forces_remanifest() {
    let sk = SigningKey::from_bytes(&[5; 32]);
    let body1 = manifest_body(&None, "t1", "prin:human", "prin:agent", "int:1", roots(), AuthorityMode::Observed, behavior_v1(),
        "span:1", 0);
    let s1 = Json::Object(seal("man", body1, &sk.to_bytes()).ok().unwrap());
    let s1_id = match field(&s1, "id") {
        Some(Json::Str(s)) => s.clone(),
        _ => panic!("sealed manifest has an id"),
    };
    assert!(verify(&s1, sk.verifying_key().as_bytes()).is_ok());
    assert!(!behavior_changed(None, &behavior_v1()), "a first manifest has nothing to change from");
    assert!(!behavior_changed(Some(&s1), &behavior_v1()), "same behavior, no change");

    // Skill hot-loaded mid-run: bundle hash changes.
    let behavior_v2 = j(r#"{
        "bundle": "sha256:2222222222222222222222222222222222222222222222222222222222222222",
        "skills": [
            { "skill": "vault-filing", "version": "sha256:bbbb", "domains": ["files.vault"] }
        ]
    }"#);
    let changed = behavior_changed(Some(&s1), &behavior_v2);
    assert!(changed);
    let body2 = manifest_body(&Some(s1_id.clone()), "t2", "prin:human", "prin:agent", "int:1", roots(), AuthorityMode::Observed,
        behavior_v2.deep_clone(), "span:2", 3);
    let man2 = Json::Object(body2);
    assert_eq!(field(&man2, "parent"), Some(&Json::Str(s1_id.clone())), "lineage");
    assert_eq!(field(&man2, "behavior"), Some(&behavior_v2), "new behavior hash bound");
    // The re-manifest event records that behavior changed.
    let rm = remanifest_body(&s1_id, changed);
    assert_eq!(field(&rm, "behavior_changed"), Some(&Json::Bool(true)));
    assert_eq!(field(&rm, "parent"), Some(&Json::Str(s1_id)));
}

#[test]
fn conservative_default_reversibility_is_irreversible() {
    let body = tool_call_body("tool:x@1", "y.z", j("{}"), j("{}"), j("{}"), j("[]"), None, &Vec::new());
    assert_eq!(
        field(&body, "reversibility"),
        Some(&Json::Str("irreversible".to_string())),
        "undeclared reversibility = irreversible"
    );
    let declared = tool_call_body("tool:x@1", "y.z", j("{}"), j("{}"), j("{}"), j("[]"), Some("reversible"), &Vec::new());
    assert_eq!(field(&declared, "reversibility"), Some(&Json::Str("reversible".to_string())));
}

#[test]
fn brokered_manifests_declare_their_authority() {
    let brokered = Json::Object(manifest_body(&None, "t", "h", "a", "i", roots(), AuthorityMode::Brokered, behavior_v1(), "span:x", 0));
    assert_eq!(field(field(&brokered, "authority").unwrap(), "mode"), Some(&Json::Str("brokered".to_string())));
    let observed = Json::Object(manifest_body(&None, "t", "h", "a", "i", roots(), AuthorityMode::Observed, behavior_v1(), "span:x", 0));
    assert!(field(&observed, "authority").is_none(), "observed manifests omit authority");
}

#[test]
fn patched_sqlite_runtime_opens_fabric() {
    assert!(
        rusqlite::version_number() >= MIN_SAFE_SQLITE_VERSION,
        "bundled SQLite {} is below the floor {}",
        rusqlite::version(),
        MIN_SAFE_SQLITE_VERSION
    );
    assert!(require_safe_sqlite_version(MIN_SAFE_SQLITE_VERSION).is_ok());
    assert!(require_safe_sqlite_version(rusqlite::version_number()).is_ok());
}

#[test]
fn affected_sqlite_runtime_creates_no_fabric_state() {
    match require_safe_sqlite_version(MIN_SAFE_SQLITE_VERSION - 1) {
        Err(e) => {
            assert_eq!(e.observed, MIN_SAFE_SQLITE_VERSION - 1);
            assert_eq!(e.minimum, MIN_SAFE_SQLITE_VERSION);
        }
        Ok(()) => panic!("an unsafe SQLite runtime must be refused"),
    }
}

#[test]
fn sqlite_branch_change_promotes_whole_store() {
    // Branch-only change: a whole-store modify, trunk untouched, so it
    // auto-promotes and installs the branch image.
    let p = plan_sqlite_store("db:memory", "sha256:base", "sha256:branch", "sha256:base");
    assert_eq!(p.install.as_deref(), Some("sha256:branch"), "branch memory image installed on trunk");
    assert!(p.conflicts.is_empty());
    assert!(default_policy_allows(&p.ops, &p.conflicts), "branch-only memory change must auto-promote");
}

#[test]
fn sqlite_both_changed_is_conflict_trunk_wins() {
    let p = plan_sqlite_store("db:memory", "sha256:base", "sha256:agent", "sha256:human");
    assert!(!default_policy_allows(&p.ops, &p.conflicts), "a conflict parks");
    assert!(p.conflicts[0].path.contains("db:memory"));
    assert_eq!(p.conflicts[0].resolution, "trunk_wins");
    assert_eq!(p.install, None, "opaque-store conflict: trunk wins");
}
