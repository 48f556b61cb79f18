use asf_kernel::capability::{build, glob_covers, glob_matches, verify_attenuation, CapError};
use asf_kernel::json::{Json, JsonNumber};
use serde_json::Value;

fn conv(v: &Value) -> Json {
    match v {
        Value::Null => Json::Null,
        Value::Bool(b) => Json::Bool(*b),
        Value::Number(n) => {
            if let Some(i) = n.as_i64() {
                Json::Number(JsonNumber::Int(i as i128))
            } else if let Some(u) = n.as_u64() {
                Json::Number(JsonNumber::Int(u as i128))
            } else {
                Json::Number(JsonNumber::Float(n.to_string()))
            }
        }
        Value::String(s) => Json::Str(s.clone()),
        Value::Array(a) => Json::Array(a.iter().map(conv).collect()),
        Value::Object(m) => Json::Object(m.iter().map(|(k, v)| (k.clone(), conv(v))).collect()),
    }
}

fn j(text: &str) -> Json {
    conv(&serde_json::from_str::<Value>(text).unwrap())
}

fn cap(id: &str, parent: Option<&str>, expires: &str, caveats: &[&str]) -> Json {
    let parent = match parent {
        Some(p) => format!("\"{p}\""),
        None => "null".to_string(),
    };
    j(&format!(
        r#"{{"id":"{id}","parent":{parent},"holder":"prin:agent","bound_manifest":"man:x",
            "issued_at":"2026-07-08T00:00:00Z","expires_at":"{expires}",
            "caveats":[{}],
            "on_violation":{{"default":"deny","escalatable":[]}}}}"#,
        caveats.join(",")
    ))
}

const P_ACTION: &str = r#"{"dim":"action.allow","tools":["tool:vault@1.0"],"actions":["note.read","note.write","note.move"]}"#;
const P_REV: &str = r#"{"dim":"reversibility.max","max":"compensable"}"#;
const P_PATHS: &str = r#"{"dim":"paths.write","globs":["inbox/**","MOCs/**"]}"#;
const P_BUDGET: &str = r#"{"dim":"budget.count","action_class":"write","max":10,"window":"run"}"#;

fn parent_cap() -> Json {
    cap("cap:parent", None, "2026-07-08T12:00:00Z", &[P_ACTION, P_REV, P_PATHS, P_BUDGET])
}

#[test]
fn glob_semantics() {
    assert!(glob_matches("inbox/**", "inbox/a/b.md"));
    assert!(glob_matches("inbox/**", "inbox"));
    assert!(glob_matches("**", "anything/at/all"));
    assert!(glob_matches("inbox/*.md", "inbox/x.md"));
    assert!(!glob_matches("inbox/*.md", "inbox/sub/x.md"));
    assert!(!glob_matches("inbox/**", "MOCs/x.md"));
}

#[test]
fn glob_cover_is_conservative() {
    assert!(glob_covers("inbox/**", "inbox/drafts/**"));
    assert!(glob_covers("inbox/**", "inbox/*.md"));
    assert!(glob_covers("**", "anything/**"));
    assert!(!glob_covers("inbox/*.md", "inbox/a.md"));
    assert!(!glob_covers("inbox/**", "MOCs/**"));
    assert!(!glob_covers("in*/**", "inbox/**"));
}

#[test]
fn valid_attenuation_narrows_everything() {
    let parent = parent_cap();
    let child = cap(
        "cap:child",
        Some("cap:parent"),
        "2026-07-08T11:00:00Z",
        &[
            r#"{"dim":"action.allow","tools":["tool:vault@1.0"],"actions":["note.read","note.write"]}"#,
            r#"{"dim":"reversibility.max","max":"reversible"}"#,
            r#"{"dim":"paths.write","globs":["inbox/drafts/**"]}"#,
            r#"{"dim":"budget.count","action_class":"write","max":3,"window":"run"}"#,
            r#"{"dim":"time","not_after":"2026-07-08T10:00:00Z"}"#,
        ],
    );
    verify_attenuation(&parent, &child).unwrap();
}

#[test]
fn attenuation_identity_is_legal() {
    let parent = parent_cap();
    let child = cap("cap:child", Some("cap:parent"), "2026-07-08T12:00:00Z", &[P_ACTION, P_REV, P_PATHS, P_BUDGET]);
    verify_attenuation(&parent, &child).unwrap();
}

#[test]
fn child_expiry_is_compared_as_an_instant() {
    let parent = cap("cap:parent", None, "2026-07-08T12:00:00Z", &[]);
    let child = cap("cap:child", Some("cap:parent"), "2026-07-08T12:00:00.5Z", &[]);
    assert!(verify_attenuation(&parent, &child).is_err());
    let malformed = cap("cap:child", Some("cap:parent"), "later", &[]);
    assert!(verify_attenuation(&parent, &malformed).is_err());
}

#[test]
fn widening_attempts_all_rejected() {
    let parent = parent_cap();
    let base = |cavs: &[&str]| cap("cap:child", Some("cap:parent"), "2026-07-08T12:00:00Z", cavs);

    // 1. Later expiry.
    let c = cap("cap:child", Some("cap:parent"), "2026-07-09T00:00:00Z", &[P_ACTION, P_REV, P_PATHS, P_BUDGET]);
    assert!(verify_attenuation(&parent, &c).is_err());

    // 2. Extra action.
    let wide_action = r#"{"dim":"action.allow","tools":["tool:vault@1.0"],"actions":["note.read","note.write","note.move","note.delete"]}"#;
    assert!(verify_attenuation(&parent, &base(&[wide_action, P_REV, P_PATHS, P_BUDGET])).is_err());

    // 3. Worse reversibility.
    let worse_rev = r#"{"dim":"reversibility.max","max":"irreversible"}"#;
    assert!(verify_attenuation(&parent, &base(&[P_ACTION, worse_rev, P_PATHS, P_BUDGET])).is_err());

    // 4. Wider paths.
    let wide_paths = r#"{"dim":"paths.write","globs":["**"]}"#;
    assert!(verify_attenuation(&parent, &base(&[P_ACTION, P_REV, wide_paths, P_BUDGET])).is_err());

    // 5. Bigger budget.
    let big_budget = r#"{"dim":"budget.count","action_class":"write","max":100,"window":"run"}"#;
    assert!(verify_attenuation(&parent, &base(&[P_ACTION, P_REV, P_PATHS, big_budget])).is_err());

    // 6. Dropping a parent dimension (omission widens).
    assert!(verify_attenuation(&parent, &base(&[P_ACTION, P_REV, P_PATHS])).is_err());

    // 7. Wrong parent reference.
    let c = cap("cap:child", Some("cap:someone-else"), "2026-07-08T12:00:00Z", &[P_ACTION, P_REV, P_PATHS, P_BUDGET]);
    assert!(verify_attenuation(&parent, &c).is_err());
}

#[test]
fn unknown_dimension_cannot_be_attenuation_verified() {
    let quantum = r#"{"dim":"quantum.entanglement","max":3}"#;
    let parent = cap("cap:parent", None, "2026-07-08T12:00:00Z", &[P_ACTION, P_REV, P_PATHS, P_BUDGET, quantum]);
    let child = cap("cap:child", Some("cap:parent"), "2026-07-08T12:00:00Z", &[P_ACTION, P_REV, P_PATHS, P_BUDGET, quantum]);
    assert!(verify_attenuation(&parent, &child).is_err());
}

#[test]
fn expiry_is_mandatory() {
    assert!(matches!(build("prin:a", "man:x", None, "t", "", vec![], vec![]), Err(CapError::NoExpiry)));
}

#[test]
fn cover_rule_agrees_with_matching_on_concrete_paths() {
    // Soundness of the cover rule on concrete values.
    assert!(glob_covers("inbox/**", "inbox/drafts/*.md"));
    assert!(glob_matches("inbox/drafts/*.md", "inbox/drafts/a.md"));
    assert!(glob_matches("inbox/**", "inbox/drafts/a.md"));
    assert!(glob_covers("inbox/**", "inbox"));
    assert!(glob_matches("inbox", "inbox"));
    assert!(glob_matches("inbox/**", "inbox"));
}

#[test]
fn error_variants_for_attenuation() {
    let parent = parent_cap();
    let no_dim = cap("cap:child", Some("cap:parent"), "2026-07-08T12:00:00Z", &[r#"{"max":1}"#]);
    assert!(matches!(verify_attenuation(&parent, &no_dim), Err(CapError::MalformedCaveat(_))));
    let no_expiry = j(r#"{"id":"cap:child","parent":"cap:parent","bound_manifest":"man:x","caveats":[]}"#);
    assert!(matches!(verify_attenuation(&parent, &no_expiry), Err(CapError::NoExpiry)));
    let c = cap("cap:child", Some("cap:other"), "2026-07-08T12:00:00Z", &[]);
    assert!(matches!(verify_attenuation(&parent, &c), Err(CapError::Attenuation(_))));
}

#[test]
fn trailing_slash_changes_nothing() {
    assert_eq!(glob_matches("inbox/**/", "inbox/a/b.md"), glob_matches("inbox/**", "inbox/a/b.md"));
    assert!(glob_matches("inbox/*.md", "inbox/x.md/"));
    assert!(glob_matches("inbox/", "inbox"));
    assert!(!glob_matches("inbox/*.md/", "inbox/sub/x.md"));
}
