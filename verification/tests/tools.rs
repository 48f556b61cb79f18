use asf_kernel::json::{Json, JsonNumber};
use asf_kernel::tools::{find_action, normalize_actions, registration_body, stores_for_tool, ToolError};
use serde_json::Value;

fn conv(v: &Value) -> Json {
    match v {
        Value::Null => Json::Null,
        Value::Bool(b) => Json::Bool(*b),
        Value::Number(n) => match n.as_i64() {
            Some(i) => Json::Number(JsonNumber::Int(i as i128)),
            None => Json::Number(JsonNumber::Float(n.to_string())),
        },
        Value::String(s) => Json::Str(s.clone()),
        Value::Array(a) => Json::Array(a.iter().map(conv).collect()),
        Value::Object(m) => Json::Object(m.iter().map(|(k, v)| (k.clone(), conv(v))).collect()),
    }
}

fn j(text: &str) -> Json {
    conv(&serde_json::from_str::<Value>(text).unwrap())
}

fn get<'a>(v: &'a Json, k: &str) -> &'a Json {
    match v {
        Json::Object(f) => &f.iter().find(|(n, _)| n == k).unwrap().1,
        _ => panic!("not an object"),
    }
}

fn s(v: &str) -> Json {
    Json::Str(v.to_string())
}

fn vault_actions() -> Json {
    j(r#"[
        { "name": "note.read",  "side_effect": "local", "surface": "fixed",
          "reversibility": "reversible", "domain": "files.vault",
          "class": "read", "store": "fs:vault", "path_args": ["path"] },
        { "name": "note.write", "side_effect": "local", "surface": "fixed",
          "reversibility": "reversible", "domain": "files.vault",
          "class": "write", "store": "fs:vault", "path_args": ["path"] },
        { "name": "web.fetch", "side_effect": "external",
          "domain": "web.research", "class": "read", "store": "fs:vault" }
    ]"#)
}

/// The registered tool object a registration of `actions` stores.
fn registered(tool: &str, actions: &Json) -> Json {
    Json::Object(registration_body(tool, actions, "t0").ok().unwrap())
}

#[test]
fn conservative_defaults_applied_at_registration() {
    let tools = vec![registered("tool:vault@1.0", &vault_actions())];
    let fetch = find_action(&tools, "tool:vault@1.0", "web.fetch").ok().unwrap();
    assert_eq!(get(&fetch, "reversibility"), &s("irreversible"), "missing reversibility = irreversible");
    assert_eq!(get(&fetch, "egress"), &Json::Bool(true), "undeclared egress on external open surface = egress");
    assert_eq!(get(&fetch, "surface"), &s("open"), "undeclared surface treated as open (worst case)");
}

#[test]
fn undeclared_actions_cannot_be_called() {
    let tools = vec![registered("tool:vault@1.0", &vault_actions())];
    assert!(matches!(find_action(&tools, "tool:vault@1.0", "note.nuke"), Err(ToolError::UndeclaredAction { .. })));
    assert!(find_action(&tools, "tool:other@1.0", "note.read").is_err());
}

#[test]
fn registration_requires_class_and_store() {
    let bad = j(r#"[{ "name": "x", "side_effect": "local", "domain": "d" }]"#);
    assert!(registration_body("tool:bad@1", &bad, "t0").is_err());
}

#[test]
fn stores_derivation_for_m1() {
    let tools = vec![registered("tool:vault@1.0", &vault_actions())];
    assert_eq!(stores_for_tool(&tools, "tool:vault@1.0"), vec!["fs:vault".to_string()]);
}

#[test]
fn normalization_keeps_declared_values_and_fills_path_args() {
    let out = normalize_actions(&vault_actions()).ok().unwrap();
    let list = match out {
        Json::Array(a) => a,
        _ => panic!("not an array"),
    };
    assert_eq!(list.len(), 3);
    assert_eq!(get(&list[0], "reversibility"), &s("reversible"));
    assert_eq!(get(&list[2], "path_args"), &Json::Array(vec![]));
}

#[test]
fn registration_with_no_actions_is_malformed() {
    match normalize_actions(&Json::Array(vec![])) {
        Err(ToolError::Malformed(m)) => assert_eq!(m, "a tool with no actions registers nothing"),
        _ => panic!("expected a malformed registration"),
    }
}

#[test]
fn missing_required_field_is_named() {
    let bad = j(r#"[{ "name": "x", "side_effect": "local", "domain": "d", "class": "read" }]"#);
    match normalize_actions(&bad) {
        Err(ToolError::Malformed(m)) => assert!(m.starts_with("action missing required field 'store'"), "{m}"),
        _ => panic!("expected a malformed registration"),
    }
}

#[test]
fn stores_are_listed_once_each() {
    let acts = j(r#"[
        { "name": "a", "side_effect": "local", "domain": "d", "class": "read", "store": "fs:one" },
        { "name": "b", "side_effect": "local", "domain": "d", "class": "read", "store": "db:two" },
        { "name": "c", "side_effect": "local", "domain": "d", "class": "read", "store": "fs:one" }
    ]"#);
    let tools = vec![registered("tool:x@1", &acts)];
    assert_eq!(stores_for_tool(&tools, "tool:x@1"), vec!["fs:one".to_string(), "db:two".to_string()]);
    assert!(stores_for_tool(&tools, "tool:y@1").is_empty());
}
