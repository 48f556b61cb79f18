use asf_kernel::json::{Json, JsonNumber};
use asf_kernel::keys::{join_path, kek_id, w13_check_key_len, w13_parse_secret_store, KeyError, Keystore, Role};
use asf_kernel::ledger::{
    behavior_changed, event_line_of, explain, manifest_body, root_entry, short, summarize_ops, AuthorityMode, DriftReport,
    StepOutcome,
};
use asf_kernel::payload::PayloadRef;
use asf_kernel::snapshot::{Cas, SnapError, StoreKind, StoreSpec};
use asf_kernel::trace::EventRow;
use serde_json::Value;
use sha2::Digest;

fn conv(v: &Value) -> Json {
    match v {
        Value::Null => Json::Null,
        Value::Bool(b) => Json::Bool(*b),
        Value::Number(n) => match n.as_i64() {
            Some(i) => Json::Number(JsonNumber::Int(i as i128)),
            None => Json::Number(JsonNumber::Float(n.to_string())),
        },
        Value::String(s) => Json::Str(s.clone()),
        Value::Array(a) => Json::Array(a.iter().map(conv).collect()),
        Value::Object(m) => Json::Object(m.iter().map(|(k, v)| (k.clone(), conv(v))).collect()),
    }
}

fn j(text: &str) -> Json {
    conv(&serde_json::from_str::<Value>(text).unwrap())
}

fn row(offset: i64, kind: &str, manifest: Option<&str>, body: &str) -> EventRow {
    EventRow {
        offset,
        id: format!("evt:{offset}"),
        span: "span:a".to_string(),
        seq: offset,
        prev: None,
        manifest: manifest.map(str::to_string),
        at: "2026-07-08T00:00:00Z".to_string(),
        kind: kind.to_string(),
        raw: j(&format!(r#"{{"body":{body}}}"#)),
    }
}

const H1: &str = "sha256:aaaaaaaaaaaaaaaaaaaaaaaaaaaaaaaaaaaaaaaaaaaaaaaaaaaaaaaaaaaaaaaa";
const H2: &str = "sha256:bbbbbbbbbbbbbbbbbbbbbbbbbbbbbbbbbbbbbbbbbbbbbbbbbbbbbbbbbbbbbbbb";

#[test]
fn short_strips_the_prefix_and_keeps_twelve() {
    assert_eq!(short(H1), "aaaaaaaaaaaa");
    assert_eq!(short("abc"), "abc");
    assert_eq!(short("?"), "?");
}

#[test]
fn ops_summary_counts_names_and_shows_three_paths() {
    let ops = j(r#"[{"op":"modify","path":"a.md"},{"op":"add","path":"b.md"},
                    {"op":"move","from":"c.md","to":"d.md"},{"op":"add","path":"e.md"}]"#);
    assert_eq!(summarize_ops(&ops), "2 add, 1 modify, 1 move (a.md, b.md, c.md→d.md, …) · ");
    assert_eq!(summarize_ops(&j("[]")), "");
    assert_eq!(summarize_ops(&j("null")), "");
    assert_eq!(summarize_ops(&j(r#"[{"path":"x"}]"#)), "1 ? (x) · ");
}

#[test]
fn each_event_kind_renders_one_line() {
    let cases: Vec<(EventRow, String)> = vec![
        (row(1, "register", None, r#"{"object_kind":"tool","object":"tool:vault@1.0"}"#),
            "registered tool tool:vault@1.0".to_string()),
        (row(2, "snapshot", Some("man:1"), &format!(r#"{{"roots":[{{"store":"fs:vault","root":"{H1}"}}]}}"#)),
            "manifest man:1 snapshotted [fs:vault=aaaaaaaaaaaa]".to_string()),
        (row(3, "tool_call", None, r#"{"tool":"tool:vault@1.0","action":"note.write","reversibility":"reversible"}"#),
            "tool_call tool:vault@1.0.note.write (reversible)".to_string()),
        (row(4, "drift", None, &format!(r#"{{"store":"fs:vault","expected_root":"{H1}","observed_root":"{H2}",
            "between":[3,5],"attribution":"human","ops":[{{"op":"modify","path":"a.md"}}]}}"#)),
            "DRIFT in fs:vault: 1 modify (a.md) · aaaaaaaaaaaa -> bbbbbbbbbbbb between offsets 3..5, attributed human".to_string()),
        (row(5, "grant", None, r#"{"capability":"cap:b","parent":"cap:a"}"#),
            "capability cap:b granted (attenuated from cap:a)".to_string()),
        (row(6, "revoke", None, r#"{"capability":"cap:b","reason":"done"}"#),
            "REVOKED capability cap:b (done) by broker (mechanical)".to_string()),
        (row(7, "revoke", None, r#"{"capability":"cap:b","reason":"done","channel":"cli","auth_strength":"passkey"}"#),
            "REVOKED capability cap:b (done) via cli (passkey)".to_string()),
        (row(8, "verdict", None, r#"{"tool":"t","action":"a","failed":["paths.write","time"]}"#),
            "DENY t.a — paths.write, time".to_string()),
        (row(9, "escalation", None, r#"{"caveat":"promotion.policy","promotion":4,"sample":[{"ops":["add","delete"],"conflicts":1}]}"#),
            "PARKED promotion #4 — ops [add, delete], 1 conflict(s); resolve via `asf approve --home <H> promotions`".to_string()),
        (row(10, "escalation", None, r#"{"escalation":7,"caveat":"budget.count:write","count":2}"#),
            "ESCALATE #7 caveat budget.count:write (batch count 2)".to_string()),
        (row(11, "approval", None, r#"{"promotion":4,"resolution":"approved","channel":"cli","auth_strength":"passkey"}"#),
            "APPROVAL promotion #4 approved via cli (passkey)".to_string()),
        (row(12, "approval", None, r#"{"escalation":7,"resolution":"approved","uses":2,"channel":"cli","auth_strength":"passkey"}"#),
            "APPROVAL #7 approved (2 uses) via cli (passkey)".to_string()),
        (row(13, "remanifest", None, r#"{"parent":"man:0","behavior_changed":true}"#),
            "re-manifest from parent man:0 (behavior_changed=true)".to_string()),
        (row(14, "intent", None, r#"{"intent":"int:1","channel":"cli","auth_strength":"passkey","captured_before":12}"#),
            "intent int:1 captured via cli (passkey) before offset 12".to_string()),
        (row(15, "shred", None, &format!(r#"{{"payload_hash":"{H1}","reason":"gdpr"}}"#)),
            "shredded payload aaaaaaaaaaaa (gdpr)".to_string()),
        (row(16, "promotion", None, &format!(r#"{{"manifest":"man:1","stores":[{{"store":"fs:vault","merged":"{H2}"}}],
            "ops":[1,2],"conflicts":[],"policy":"auto"}}"#)),
            "PROMOTED manifest man:1 to trunk [fs:vault=bbbbbbbbbbbb] — 2 op(s), 0 conflict(s), policy auto".to_string()),
        (row(17, "revert", None, &format!(r#"{{"manifest":"man:1","roots_restored":[{{"store":"fs:vault","root":"{H1}"}}]}}"#)),
            "REVERT to manifest man:1 [fs:vault=aaaaaaaaaaaa]".to_string()),
        (row(18, "compensation", None, "{}"), "compensation event".to_string()),
        (row(19, "escalation", None, r#"{"caveat":"x"}"#), "ESCALATE #null caveat x (batch count null)".to_string()),
    ];
    for (r, want) in cases {
        assert_eq!(event_line_of(&r), want);
    }
}

#[test]
fn explanation_accounts_for_every_live_root() {
    let events = vec![
        row(1, "snapshot", Some("man:1"), &format!(r#"{{"roots":[{{"store":"fs:vault","root":"{H1}"}},{{"store":"db:mem","root":"{H1}"}}]}}"#)),
        row(2, "tool_call", None, &format!(r#"{{"tool":"t","action":"a","reversibility":"reversible",
            "state_root_after":{{"branch:fs:vault":"{H1}","fs:vault":"{H2}"}}}}"#)),
    ];
    let live = vec![
        ("fs:vault".to_string(), H2.to_string()),
        ("db:mem".to_string(), H2.to_string()),
        ("fs:other".to_string(), H1.to_string()),
    ];
    let ex = explain(&events, &live);
    assert_eq!(ex.lines.len(), 2);
    assert_eq!(ex.lines[0].offset, 1);
    assert_eq!(ex.lines[1].kind, "tool_call");
    assert_eq!(ex.unexplained, vec![
        "db:mem: live root bbbbbbbbbbbb but ledger says aaaaaaaaaaaa".to_string(),
        "fs:other: never appears in ledger".to_string(),
    ]);
}

#[test]
fn manifest_body_lists_fields_in_key_order() {
    let spec = StoreSpec { store: "fs:vault".into(), tier: 1, kind: StoreKind::Fs, path: "/tmp/v".into() };
    let roots = vec![root_entry(&spec, H1)];
    let body = manifest_body(&None, "t0", "prin:human", "prin:agent", "int:1", roots, AuthorityMode::Brokered,
        j(r#"{"model":"m"}"#), "span:1", 4);
    let keys: Vec<&str> = body.iter().map(|(k, _)| k.as_str()).collect();
    assert_eq!(keys, vec!["authority", "behavior", "created_at", "delegate", "delegator", "intent", "parent", "state", "trace"]);
    assert_eq!(body[0].1, j(r#"{"mode":"brokered"}"#));
    assert_eq!(body[6].1, Json::Null);
    assert_eq!(body[8].1, j(r#"{"span":"span:1","substrate_offset":4}"#));
    assert_eq!(root_entry(&spec, H1), j(&format!(r#"{{"kind":"fs","root":"{H1}","store":"fs:vault","tier":1}}"#)));
    let observed = manifest_body(&Some("man:0".into()), "t0", "a", "b", "c", vec![], AuthorityMode::Observed, Json::Null, "s", 0);
    assert_eq!(observed[0].0, "behavior");
    assert_eq!(observed[5].1, Json::Str("man:0".into()));
}

#[test]
fn behavior_change_compares_with_the_parent() {
    let parent = j(r#"{"behavior":{"model":"m"}}"#);
    assert!(!behavior_changed(Some(&parent), &j(r#"{"model":"m"}"#)));
    assert!(behavior_changed(Some(&parent), &j(r#"{"model":"n"}"#)));
    assert!(!behavior_changed(None, &j(r#"{"model":"n"}"#)));
}

#[test]
fn step_and_drift_records_hold_their_values() {
    let d = DriftReport {
        store: "fs:vault".into(),
        expected_root: H1.into(),
        observed_root: H2.into(),
        between: (3, 5),
        attribution: "human".into(),
        event_id: "evt:6".into(),
    };
    let s = StepOutcome { manifest: "man:2".into(), span: "span:2".into(), drift: vec![d], remanifest: true };
    assert_eq!(s.drift[0].between, (3, 5));
    assert!(s.remanifest);
}

#[test]
fn key_files_and_secrets() {
    assert_eq!(Role::UserRoot.file_name(), "user_root.ed25519");
    assert_eq!(Role::Fabric.file_name(), "fabric.ed25519");
    assert_eq!(Role::AgentInstance.file_name(), "agent_instance.ed25519");
    assert_eq!(join_path("/home/keys", "owner.kek"), "/home/keys/owner.kek");
    assert_eq!(join_path("/home/keys/", "owner.kek"), "/home/keys/owner.kek");
    let ks = Keystore::at("/home/keys".into());
    assert_eq!(ks.file("secrets.json"), "/home/keys/secrets.json");
    let store = j(r#"{"vault-token":"s3cret","other":"x"}"#);
    assert_eq!(ks.secret_get(Some(&store), "vault-token").ok().unwrap(), Some("s3cret".to_string()));
    assert_eq!(ks.secret_get(Some(&store), "missing").ok().unwrap(), None);
    assert_eq!(ks.secret_get(None, "vault-token").ok().unwrap(), None);
    match ks.secret_get(Some(&j(r#"{"n":1}"#)), "n") {
        Err(KeyError::MalformedSecretStore(p)) => assert_eq!(p, "/home/keys/secrets.json"),
        _ => panic!("a non-string secret is malformed"),
    }
    assert!(w13_parse_secret_store("p", &j("[]")).is_err());
    assert!(w13_check_key_len("k", 32, 32).is_ok());
    assert!(matches!(w13_check_key_len("k", 31, 32), Err(KeyError::Malformed(ref p)) if p == "k"));
}

#[test]
fn kek_id_is_the_digest_prefix() {
    let key = [5u8; 32];
    let d = sha2::Sha256::digest(key);
    assert_eq!(kek_id(&key), format!("kek:{}", hex::encode(&d[..8])));
}

#[test]
fn blob_paths_live_under_the_store() {
    let cas = Cas::at("/cas".into());
    let hash = format!("sha256:{}", "Ab".repeat(32));
    let p = cas.blob_path(&hash).ok().unwrap();
    assert_eq!(p, format!("/cas/ab/{}", "ab".repeat(32)));
    assert!(matches!(cas.blob_path("sha256:zz"), Err(SnapError::InvalidHash(_))));
}

#[test]
fn payload_refs_name_content() {
    let r = PayloadRef { hash: H1.into(), size: 3, media_type: "text/plain".into(), dek_id: "dek:1".into() };
    assert_eq!(r.size, 3);
    assert_eq!(r.media_type, "text/plain");
}

#[test]
fn a_recorded_drift_leaves_nothing_unexplained() {
    let mut events = vec![
        row(1, "snapshot", Some("man:1"), &format!(r#"{{"roots":[{{"store":"fs:vault","root":"{H1}"}}]}}"#)),
    ];
    let live = vec![("fs:vault".to_string(), H2.to_string())];
    assert_eq!(explain(&events, &live).unexplained.len(), 1);
    events.push(row(2, "drift", None, &format!(r#"{{"store":"fs:vault","expected_root":"{H1}","observed_root":"{H2}"}}"#)));
    assert!(explain(&events, &live).unexplained.is_empty());
}
