use asf_kernel::broker::{
    attenuate, capability_descendants, check_m1, current_advertisable_capability, mint_at, revocation_body,
};
use asf_kernel::authority::BrokerError;
use asf_kernel::canon::verify;
use asf_kernel::capability::CapError;
use asf_kernel::json::{Json, JsonNumber};
use asf_kernel::tools::registration_body;
use asf_kernel::trace::VerifiedEvent;
use ed25519_dalek::SigningKey;
use serde_json::Value;

fn conv(v: &Value) -> Json {
    match v {
        Value::Null => Json::Null,
        Value::Bool(b) => Json::Bool(*b),
        Value::Number(n) => match n.as_i64() {
            Some(i) => Json::Number(JsonNumber::Int(i as i128)),
            None => Json::Number(JsonNumber::Float(n.to_string())),
        },
        Value::String(s) => Json::Str(s.clone()),
        Value::Array(a) => Json::Array(a.iter().map(conv).collect()),
        Value::Object(m) => Json::Object(m.iter().map(|(k, v)| (k.clone(), conv(v))).collect()),
    }
}

fn j(text: &str) -> Json {
    conv(&serde_json::from_str::<Value>(text).unwrap())
}

fn tools() -> Vec<Json> {
    let vault = j(r#"[{ "name": "note.write", "side_effect": "local", "domain": "files.vault", "class": "write",
                      "store": "fs:vault", "path_args": ["path"] }]"#);
    let db = j(r#"[{ "name": "mem.put", "side_effect": "local", "domain": "db", "class": "write", "store": "db:memory" }]"#);
    vec![
        Json::Object(registration_body("tool:vault@1.0", &vault, "t0").ok().unwrap()),
        Json::Object(registration_body("tool:mem@1.0", &db, "t0").ok().unwrap()),
    ]
}

fn manifest() -> Json {
    j(r#"{"id":"man:one","state":{"roots":[{"store":"fs:vault","root":"sha256:00"}]}}"#)
}

fn caveats(tools: &str) -> Vec<Json> {
    vec![j(&format!(r#"{{"dim":"action.allow","tools":[{tools}],"actions":["note.write"]}}"#))]
}

fn key() -> SigningKey {
    SigningKey::from_bytes(&[11; 32])
}

#[test]
fn m1_mint_rejects_uncovered_store() {
    assert!(check_m1("man:one", &manifest(), &caveats(r#""tool:vault@1.0""#), &tools()).is_ok());
    match check_m1("man:one", &manifest(), &caveats(r#""tool:vault@1.0","tool:mem@1.0""#), &tools()) {
        Err(BrokerError::M1 { store, manifest }) => {
            assert_eq!(store, "db:memory");
            assert_eq!(manifest, "man:one");
        }
        _ => panic!("an uncovered store must be refused"),
    }
    assert!(matches!(
        check_m1("man:one", &manifest(), &vec![j(r#"{"dim":"paths.write","globs":["**"]}"#)], &tools()),
        Err(BrokerError::NoActionAllow)
    ));
}

#[test]
fn minting_seals_a_verifiable_capability_and_refuses_closed_ids() {
    let k = key();
    let (id, sealed) = mint_at("man:one", &manifest(), "prin:agent", caveats(r#""tool:vault@1.0""#), vec![],
        "2026-07-09T00:00:00Z", "2026-07-08T00:00:00Z", &tools(), &vec![], &k.to_bytes()).ok().unwrap();
    assert!(id.starts_with("cap:"));
    let obj = Json::Object(sealed);
    assert!(verify(&obj, k.verifying_key().as_bytes()).is_ok());
    // The same body at the same instant reproduces the id; once revoked, it
    // is never granted again.
    let revoke = VerifiedEvent {
        offset: 9,
        id: "evt:9".into(),
        span: "span:s".into(),
        seq: 0,
        prev: None,
        manifest: Some("man:one".into()),
        at: "2026-07-08T00:00:00Z".into(),
        kind: "revoke".into(),
        raw: j(&format!(r#"{{"body":{{"capability":"{id}","reason":"done"}}}}"#)),
    };
    match mint_at("man:one", &manifest(), "prin:agent", caveats(r#""tool:vault@1.0""#), vec![],
        "2026-07-09T00:00:00Z", "2026-07-08T00:00:00Z", &tools(), &vec![revoke], &k.to_bytes()) {
        Err(BrokerError::CapabilityClosed(m)) => assert!(m.contains("was revoked at offset 9")),
        _ => panic!("a closed id must not be granted"),
    }
    assert!(matches!(
        mint_at("man:one", &manifest(), "prin:agent", caveats(r#""tool:vault@1.0""#), vec![], "", "t", &tools(), &vec![], &k.to_bytes()),
        Err(BrokerError::Cap(CapError::NoExpiry))
    ));
}

#[test]
fn attenuation_narrows_or_is_refused() {
    let k = key();
    let parent_caveats = vec![
        j(r#"{"dim":"action.allow","tools":["tool:vault@1.0"],"actions":["note.write","note.read"]}"#),
        j(r#"{"dim":"paths.write","globs":["inbox/**"]}"#),
    ];
    let (pid, sealed) = mint_at("man:one", &manifest(), "prin:agent", parent_caveats, vec![], "2026-07-09T00:00:00Z",
        "2026-07-08T00:00:00Z", &tools(), &vec![], &k.to_bytes()).ok().unwrap();
    let parent = Ok(Json::Object(sealed));
    let narrower = vec![
        j(r#"{"dim":"action.allow","tools":["tool:vault@1.0"],"actions":["note.write"]}"#),
        j(r#"{"dim":"paths.write","globs":["inbox/drafts/**"]}"#),
    ];
    let child = attenuate(&pid, &parent, &Ok(()), "prin:sub", "man:one", &manifest(), narrower, vec![],
        "2026-07-08T12:00:00Z", "2026-07-08T01:00:00Z", &tools(), &vec![], &k.to_bytes());
    assert!(child.is_ok());
    let wider = vec![
        j(r#"{"dim":"action.allow","tools":["tool:vault@1.0"],"actions":["note.write"]}"#),
        j(r#"{"dim":"paths.write","globs":["**"]}"#),
    ];
    assert!(matches!(
        attenuate(&pid, &parent, &Ok(()), "prin:sub", "man:one", &manifest(), wider, vec![], "2026-07-08T12:00:00Z",
            "2026-07-08T01:00:00Z", &tools(), &vec![], &k.to_bytes()),
        Err(BrokerError::Cap(_))
    ));
    assert!(matches!(
        attenuate(&pid, &parent, &Err("revoked".into()), "prin:sub", "man:one", &manifest(), vec![], vec![],
            "2026-07-08T12:00:00Z", "2026-07-08T01:00:00Z", &tools(), &vec![], &k.to_bytes()),
        Err(BrokerError::CapabilityClosed(ref m)) if m == "revoked"
    ));
}

#[test]
fn revocation_requests_name_a_target_and_a_reason() {
    let cap = Ok(j(r#"{"id":"cap:a","bound_manifest":"man:one"}"#));
    let (man, body) = revocation_body("cap:a", &cap, "done", Some(("cli", "passkey"))).ok().unwrap();
    assert_eq!(man, "man:one");
    assert_eq!(body, j(r#"{"auth_strength":"passkey","capability":"cap:a","channel":"cli","reason":"done"}"#));
    let (_, mech) = revocation_body("cap:a", &cap, "budget exhausted", None).ok().unwrap();
    assert_eq!(mech, j(r#"{"auth_strength":null,"capability":"cap:a","channel":null,"reason":"budget exhausted"}"#));
    let invalid = |r: Result<(String, Json), BrokerError>| match r {
        Err(BrokerError::InvalidRevocation(m)) => m,
        _ => panic!("expected an invalid revocation"),
    };
    assert_eq!(invalid(revocation_body("cap:zz", &Err("object cap:zz not found".into()), "x", None)),
        "target cap:zz not found: object cap:zz not found");
    assert_eq!(invalid(revocation_body("cap:a", &cap, "   ", None)), "reason must be non-empty");
    assert_eq!(invalid(revocation_body("cap:a", &cap, "operator_request", None)),
        "broker-originated revocation must carry a mechanical reason, never operator_request (§5.4)");
    assert!(revocation_body("cap:a", &cap, "operator_request", Some(("cli", "passkey"))).is_ok());
    assert_eq!(invalid(revocation_body("cap:a", &Ok(j(r#"{"id":"cap:a"}"#)), "x", None)), "target cap:a has no bound_manifest");
}

#[test]
fn advertisable_capabilities_are_bound_current_and_live() {
    let cap = || Ok(j(r#"{"id":"cap:a","bound_manifest":"man:one","expires_at":"2026-07-09T00:00:00Z"}"#));
    let cur = Some("man:one".to_string());
    assert!(current_advertisable_capability("cap:a", cap(), &cur, "2026-07-08T00:00:00Z", &Ok(())).is_ok());
    let viol = |r: Result<Json, BrokerError>| match r {
        Err(BrokerError::GateTraceViolation(m)) => m,
        _ => panic!("expected a violation"),
    };
    assert_eq!(viol(current_advertisable_capability("cap:a", cap(), &None, "2026-07-08T00:00:00Z", &Ok(()))),
        "no current manifest for capability advertisement");
    assert_eq!(viol(current_advertisable_capability("cap:a", cap(), &Some("man:two".into()), "2026-07-08T00:00:00Z", &Ok(()))),
        "capability cap:a is not bound to current manifest man:two (M2)");
    assert_eq!(viol(current_advertisable_capability("cap:a", cap(), &cur, "2026-07-10T00:00:00Z", &Ok(()))),
        "capability cap:a is expired or has an invalid expiry");
    assert!(matches!(
        current_advertisable_capability("cap:a", cap(), &cur, "2026-07-08T00:00:00Z", &Err("closed".into())),
        Err(BrokerError::CapabilityClosed(_))
    ));
}

#[test]
fn descendants_follow_parents_through_the_closed_id() {
    let objs = vec![
        ("cap:root".to_string(), None),
        ("cap:mid".to_string(), Some("cap:root".to_string())),
        ("cap:leaf".to_string(), Some("cap:mid".to_string())),
        ("cap:other".to_string(), None),
        ("cap:loop".to_string(), Some("cap:loop".to_string())),
    ];
    assert_eq!(capability_descendants(&objs, "cap:root"), vec!["cap:leaf".to_string(), "cap:mid".to_string()]);
    assert_eq!(capability_descendants(&objs, "cap:mid"), vec!["cap:leaf".to_string()]);
    assert!(capability_descendants(&objs, "cap:leaf").is_empty());
    assert!(capability_descendants(&objs, "cap:loop").is_empty());
}
