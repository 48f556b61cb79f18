use asf_kernel::authority::BrokerError;
use asf_kernel::json::{Json, JsonNumber};
use asf_kernel::promote::Op;
use asf_kernel::promotion::{
    approved_policy, compute_merge_from_roots, manifest_span, pinned_branch_roots, plan_fs_store, plan_sqlite_store,
    plan_store, promotion_escalation_body, promotion_event_body, promotion_preview, promotion_resolution_body,
    root_transitions, verify_branch_tip, w14_promotion_binding, w14_verify_promotion_candidate, with_branch_tip, MergePlan,
    StorePlan, promotion_decision, PromotionAction,
};
use asf_kernel::snapshot::{StoreKind, StoreSpec};
use asf_kernel::trace::VerifiedEvent;
use serde_json::Value;
use sha2::Digest;

fn conv(v: &Value) -> Json {
    match v {
        Value::Null => Json::Null,
        Value::Bool(b) => Json::Bool(*b),
        Value::Number(n) => match n.as_i64() {
            Some(i) => Json::Number(JsonNumber::Int(i as i128)),
            None => Json::Number(JsonNumber::Float(n.to_string())),
        },
        Value::String(s) => Json::Str(s.clone()),
        Value::Array(a) => Json::Array(a.iter().map(conv).collect()),
        Value::Object(m) => Json::Object(m.iter().map(|(k, v)| (k.clone(), conv(v))).collect()),
    }
}

fn back(v: &Json) -> Value {
    match v {
        Json::Null => Value::Null,
        Json::Bool(b) => Value::Bool(*b),
        Json::Number(JsonNumber::Int(i)) => Value::from(*i as i64),
        Json::Number(JsonNumber::Float(f)) => serde_json::from_str(f).unwrap(),
        Json::Str(s) => Value::String(s.clone()),
        Json::Array(a) => Value::Array(a.iter().map(back).collect()),
        Json::Object(f) => Value::Object(f.iter().map(|(k, v)| (k.clone(), back(v))).collect()),
    }
}

fn v(text: &str) -> Value {
    serde_json::from_str(text).unwrap()
}

fn j(text: &str) -> Json {
    conv(&serde_json::from_str::<Value>(text).unwrap())
}

fn address(v: &Value) -> String {
    let bytes = serde_json_canonicalizer::to_vec(v).unwrap();
    format!("sha256:{}", hex::encode(sha2::Sha256::digest(&bytes)))
}

const SUB: &str = "span:substrate";
const RUN: &str = "span:run";

fn ev(offset: i64, span: &str, seq: i64, kind: &str, manifest: Option<&str>, body: &str) -> VerifiedEvent {
    VerifiedEvent {
        offset,
        id: format!("evt:{offset}"),
        span: span.to_string(),
        seq,
        prev: None,
        manifest: manifest.map(str::to_string),
        at: "2026-07-08T01:00:00Z".to_string(),
        kind: kind.to_string(),
        raw: j(&format!(r#"{{"body":{body},"kind":"{kind}"}}"#)),
    }
}

fn tree(entries: &[(&str, &str)]) -> Json {
    let es: Vec<String> = entries
        .iter()
        .map(|(p, h)| format!(r#"{{"path":"{p}","hash":"{h}","mode":"644","size":3}}"#))
        .collect();
    j(&format!(r#"{{"kind":"fs_tree","entries":[{}]}}"#, es.join(",")))
}

fn spec(store: &str, kind: StoreKind) -> StoreSpec {
    StoreSpec { store: store.to_string(), tier: 1, kind, path: format!("/data/{store}") }
}

fn pairs(p: &[(&str, &str)]) -> Vec<(String, String)> {
    p.iter().map(|(a, b)| (a.to_string(), b.to_string())).collect()
}

fn err_text(e: BrokerError) -> String {
    e.text()
}

#[test]
fn sqlite_store_branch_only_change_installs_branch() {
    let p = plan_sqlite_store("db:memory", "sha256:b", "sha256:n", "sha256:b");
    assert_eq!(p.install.as_deref(), Some("sha256:n"));
    assert_eq!(p.ops, vec![Op::Modify { path: "db:memory (whole store)".to_string() }]);
    assert!(p.conflicts.is_empty());
    assert!(p.tree_bytes.is_none());
}

#[test]
fn sqlite_store_both_changed_is_a_conflict_and_trunk_stands() {
    let p = plan_sqlite_store("db:memory", "sha256:b", "sha256:n", "sha256:t");
    assert_eq!(p.install, None);
    assert!(p.ops.is_empty());
    assert_eq!(p.conflicts.len(), 1);
    let c = &p.conflicts[0];
    assert_eq!(c.path, "db:memory (opaque sqlite, whole store)");
    assert_eq!(c.base.as_deref(), Some("sha256:b"));
    assert_eq!(c.branch.as_deref(), Some("sha256:n"));
    assert_eq!(c.trunk.as_deref(), Some("sha256:t"));
    assert_eq!(c.resolution, "trunk_wins");
}

#[test]
fn sqlite_store_untouched_or_agreeing_installs_nothing() {
    for (b, n, t) in [("x", "x", "y"), ("x", "y", "y")] {
        let p = plan_sqlite_store("db:m", b, n, t);
        assert_eq!(p.install, None);
        assert!(p.ops.is_empty() && p.conflicts.is_empty());
    }
}

#[test]
fn fs_store_merge_installs_the_composed_tree() {
    let base = tree(&[("a.md", "sha256:1")]);
    let branch = tree(&[("a.md", "sha256:1"), ("b.md", "sha256:2")]);
    let trunk = tree(&[("a.md", "sha256:1")]);
    let p = plan_fs_store("fs:vault", "r:base", "r:branch", "r:trunk", &base, &branch, &trunk).ok().unwrap();
    assert_eq!(p.ops, vec![Op::Add { path: "b.md".to_string() }]);
    assert!(p.conflicts.is_empty());
    let merged = back(&tree(&[("a.md", "sha256:1"), ("b.md", "sha256:2")]));
    let bytes = serde_json_canonicalizer::to_vec(&merged).unwrap();
    assert_eq!(p.tree_bytes.as_deref(), Some(bytes.as_slice()));
    assert_eq!(p.install, Some(address(&merged)));
}

#[test]
fn fs_store_merge_equal_to_trunk_installs_nothing() {
    let base = tree(&[("a.md", "sha256:1")]);
    let trunk = tree(&[("a.md", "sha256:9")]);
    let trunk_root = address(&back(&trunk));
    let p = plan_fs_store("fs:vault", "r:base", "r:base", &trunk_root, &base, &base, &trunk).ok().unwrap();
    assert_eq!(p.install, None);
    assert!(p.ops.is_empty());
}

#[test]
fn fs_store_malformed_tree_is_refused() {
    let good = tree(&[("a.md", "sha256:1")]);
    let bad = j(r#"{"kind":"fs_tree","entries":[{"path":"../x","hash":"sha256:1","mode":"644","size":1}]}"#);
    let r = plan_fs_store("fs:vault", "r1", "r2", "r3", &good, &bad, &good);
    assert!(matches!(r, Err(BrokerError::Snapshot(_))));
}

#[test]
fn merge_plans_every_manifest_root_in_order() {
    let man = j(r#"{"state":{"roots":[{"store":"db:memory","root":"sha256:b"},{"store":"fs:vault","root":"r:base"}]}}"#);
    let specs = vec![spec("db:memory", StoreKind::Sqlite), spec("fs:vault", StoreKind::Fs)];
    let base = tree(&[("a.md", "sha256:1")]);
    let branch = tree(&[("a.md", "sha256:2")]);
    let trees = vec![
        ("r:base".to_string(), base.deep_clone()),
        ("r:branch".to_string(), branch),
        ("r:trunk".to_string(), base),
    ];
    let plan = compute_merge_from_roots(
        &man,
        &specs,
        &pairs(&[("db:memory", "sha256:n"), ("fs:vault", "r:branch")]),
        &pairs(&[("db:memory", "sha256:b"), ("fs:vault", "r:trunk")]),
        &trees,
    )
    .ok()
    .unwrap();
    assert_eq!(plan.stores.len(), 2);
    assert_eq!(plan.stores[0].store, "db:memory");
    assert_eq!(plan.stores[0].install.as_deref(), Some("sha256:n"));
    assert_eq!(plan.stores[1].store, "fs:vault");
    assert_eq!(
        plan.ops,
        vec![Op::Modify { path: "db:memory (whole store)".to_string() }, Op::Modify { path: "a.md".to_string() }]
    );
    let t = root_transitions(&plan);
    assert_eq!(t[0].before, "sha256:b");
    assert_eq!(t[0].after, "sha256:n");
}

#[test]
fn merge_refuses_unknown_store_and_unpinned_branch() {
    let man = j(r#"{"state":{"roots":[{"store":"fs:ghost","root":"r"}]}}"#);
    let r = compute_merge_from_roots(&man, &vec![], &vec![], &vec![], &vec![]);
    assert_eq!(err_text(r.err().unwrap()), "unknown store fs:ghost");
    let specs = vec![spec("fs:ghost", StoreKind::Fs)];
    let r = plan_store(&j(r#"{"store":"fs:ghost","root":"r"}"#), &specs, &vec![], &vec![], &vec![]);
    assert_eq!(err_text(r.err().unwrap()), "unknown store fs:ghost has no pinned branch root");
    let r = plan_store(&j(r#"{"store":"fs:ghost","root":"r"}"#), &specs, &pairs(&[("fs:ghost", "b")]), &pairs(&[("fs:ghost", "t")]), &vec![]);
    assert_eq!(err_text(r.err().unwrap()), "blob r missing from CAS");
}

fn plan_of(stores: &[(&str, &str)]) -> MergePlan {
    MergePlan {
        stores: stores
            .iter()
            .map(|(s, b)| StorePlan {
                store: s.to_string(),
                base: "sha256:base".to_string(),
                branch: b.to_string(),
                trunk: "sha256:trunk".to_string(),
                install: None,
                ops: vec![],
                conflicts: vec![],
                tree_bytes: None,
            })
            .collect(),
        ops: vec![Op::Delete { path: "x.md".to_string() }],
        conflicts: vec![],
    }
}

#[test]
fn branch_tip_without_tool_calls_must_equal_the_base() {
    let man = j(r#"{"state":{"roots":[{"store":"fs:vault","root":"sha256:base"}]}}"#);
    let ok = verify_branch_tip(&vec![], &man, RUN, &plan_of(&[("fs:vault", "sha256:base")])).ok().unwrap();
    assert_eq!(back(&ok), v(r#"{"last_tool_call": null, "ok": true, "roots": {"fs:vault": "sha256:base"}}"#));
    let r = verify_branch_tip(&vec![], &man, RUN, &plan_of(&[("fs:vault", "sha256:other")]));
    assert_eq!(
        err_text(r.err().unwrap()),
        "promotion gate: trace exceeds capability — untraced branch divergence in fs:vault: trace attests sha256:base, branch is sha256:other (nothing merged)"
    );
}

#[test]
fn branch_tip_follows_the_final_tool_call() {
    let man = j(r#"{"state":{"roots":[]}}"#);
    let events = vec![
        ev(1, RUN, 0, "tool_call", None, r#"{"state_root_after":{"branch:fs:vault":"sha256:one"}}"#),
        ev(2, RUN, 1, "tool_call", None, r#"{"state_root_after":{"branch:fs:vault":"sha256:two"}}"#),
    ];
    let ok = verify_branch_tip(&events, &man, RUN, &plan_of(&[("fs:vault", "sha256:two")])).ok().unwrap();
    assert_eq!(back(&ok)["last_tool_call"], "evt:2");
    let r = verify_branch_tip(&events, &man, RUN, &plan_of(&[("db:m", "sha256:two")]));
    assert!(err_text(r.err().unwrap()).contains("final tool_call evt:2 has no branch root for db:m"));
}

#[test]
fn binding_digests_the_candidate_and_the_pinned_roots() {
    let preview = j(r#"{"branch_roots":{"fs:vault":"sha256:b"},"ops":[]}"#);
    let b = w14_promotion_binding(7, "man:x", &preview).ok().unwrap();
    assert_eq!(b.branch_roots_digest, address(&v(r#"{"fs:vault": "sha256:b"}"#)));
    let mut candidate = v(r#"{"promotion": 7, "manifest": "man:x", "policy_context": "default-policy/manual-review/v1"}"#);
    candidate["preview"] = back(&preview);
    assert_eq!(b.candidate_digest, address(&candidate));
    let r = w14_promotion_binding(7, "man:x", &j(r#"{"ops":[]}"#));
    assert_eq!(err_text(r.err().unwrap()), "promotion 7 has no valid immutable candidate: preview has no exact branch_roots map");
}

#[test]
fn parked_candidate_needs_exactly_one_signed_binding() {
    let preview = j(r#"{"branch_roots":{"fs:vault":"sha256:b"}}"#);
    let b = w14_promotion_binding(3, "man:x", &preview).ok().unwrap();
    let body = format!(
        r#"{{"promotion":3,"manifest":"man:x","candidate_digest":"{}","branch_roots_digest":"{}","policy_context":"default-policy/manual-review/v1"}}"#,
        b.candidate_digest, b.branch_roots_digest
    );
    let esc = ev(5, SUB, 0, "escalation", Some("man:x"), &body);
    let ok = w14_verify_promotion_candidate(&vec![esc], SUB, 3, "man:x", &preview).ok().unwrap();
    assert_eq!(ok.candidate_digest, b.candidate_digest);

    let none = w14_verify_promotion_candidate(&vec![], SUB, 3, "man:x", &preview);
    assert_eq!(err_text(none.err().unwrap()), "promotion 3 has no valid immutable candidate: no signed escalation binds this candidate");

    let twice = vec![ev(5, SUB, 0, "escalation", Some("man:x"), &body), ev(6, SUB, 1, "escalation", Some("man:x"), &body)];
    let r = w14_verify_promotion_candidate(&twice, SUB, 3, "man:x", &preview);
    assert_eq!(err_text(r.err().unwrap()), "promotion 3 has no valid immutable candidate: multiple signed candidate bindings");

    let other = j(r#"{"branch_roots":{"fs:vault":"sha256:c"}}"#);
    let r = w14_verify_promotion_candidate(&vec![ev(5, SUB, 0, "escalation", Some("man:x"), &body)], SUB, 3, "man:x", &other);
    assert!(err_text(r.err().unwrap()).contains("does not match its signed escalation binding"));

    let resolved = vec![
        ev(5, SUB, 0, "escalation", Some("man:x"), &body),
        ev(6, SUB, 1, "approval", Some("man:x"), r#"{"promotion":3,"resolution":"approved"}"#),
    ];
    let r = w14_verify_promotion_candidate(&resolved, SUB, 3, "man:x", &preview);
    assert!(matches!(r, Err(BrokerError::NoSuchPromotion(3))));
    assert_eq!(err_text(BrokerError::NoSuchPromotion(3)), "promotion 3 not found or not pending");
}

#[test]
fn pinned_roots_are_read_from_the_preview() {
    let v = pinned_branch_roots(1, &j(r#"{"branch_roots":{"a":"r1","b":"r2"}}"#)).ok().unwrap();
    assert_eq!(v, pairs(&[("a", "r1"), ("b", "r2")]));
    let r = pinned_branch_roots(1, &j(r#"{"ops":[]}"#));
    assert!(err_text(r.err().unwrap()).ends_with("legacy preview has no pinned branch_roots; re-gate the session"));
    let r = pinned_branch_roots(1, &j(r#"{"branch_roots":{"a":5}}"#));
    assert!(err_text(r.err().unwrap()).ends_with("branch root for a is not a string"));
}

#[test]
fn manifest_span_is_required() {
    assert_eq!(manifest_span("man:x", &j(r#"{"trace":{"span":"span:1"}}"#)).ok().unwrap(), "span:1");
    let r = manifest_span("man:x", &j(r#"{"trace":{}}"#));
    assert_eq!(err_text(r.err().unwrap()), "manifest man:x malformed: no trace.span");
}

#[test]
fn promotion_records_carry_the_plan() {
    let mut plan = plan_of(&[("fs:vault", "sha256:br")]);
    plan.stores[0].install = Some("sha256:new".to_string());
    let report = j(r#"{"ok":true}"#);
    let preview = back(&promotion_preview(&plan, &report));
    assert_eq!(preview["branch_roots"], v(r#"{"fs:vault": "sha256:br"}"#));
    assert_eq!(preview["ops"], v(r#"[{"op": "delete", "path": "x.md"}]"#));
    assert_eq!(preview["trace_check"], v(r#"{"ok": true}"#));

    let body = back(&promotion_event_body("man:x", &plan, &report, "auto"));
    assert_eq!(body["policy"], "auto");
    assert_eq!(body["stores"][0]["merged"], "sha256:new");
    assert_eq!(body["stores"][0]["trunk_before"], "sha256:trunk");

    let binding = w14_promotion_binding(4, "man:x", &promotion_preview(&plan, &report)).ok().unwrap();
    let esc = back(&promotion_escalation_body(4, "man:x", &binding, &plan));
    assert_eq!(esc["sample"], v(r#"[{"ops": ["delete"], "conflicts": 0}]"#));
    assert_eq!(esc["caveat"], "promotion.policy");
    assert_eq!(esc["count"], 1);

    let res = back(&promotion_resolution_body(4, false, "sha256:c", "cli", "local"));
    assert_eq!(res, v(r#"{"promotion": 4, "resolution": "denied", "candidate_digest": "sha256:c", "channel": "cli", "auth_strength": "local"}"#));
    assert_eq!(approved_policy(12), "approved:12");
    let tipped = back(&with_branch_tip(&report, j(r#"{"ok":true}"#)));
    assert_eq!(tipped, v(r#"{"ok": true, "branch_tip": {"ok": true}}"#));
}

#[test]
fn a_failed_replay_or_tip_merges_nothing_and_policy_decides_the_rest() {
    let violation = || BrokerError::GateTraceViolation("event evt:3 fails re-evaluation".to_string());
    // The replay failed: refused, whatever a plan would say.
    assert!(matches!(
        promotion_decision(Err(violation()), None),
        PromotionAction::Refuse(BrokerError::GateTraceViolation(m)) if m == "event evt:3 fails re-evaluation"
    ));
    let report = || j(r#"{"ok":true}"#);
    // The branch tip does not match the attested roots: refused.
    assert!(matches!(
        promotion_decision(Ok(report()), Some((Err(violation()), plan_of(&[])))),
        PromotionAction::Refuse(_)
    ));
    // Additive work auto-promotes; a delete parks. Both carry the tip.
    let mut additive = plan_of(&[]);
    additive.ops = vec![Op::Add { path: "n.md".to_string() }];
    match promotion_decision(Ok(report()), Some((Ok(j(r#"{"tip":1}"#)), additive))) {
        PromotionAction::Apply { report, .. } => assert_eq!(report, j(r#"{"branch_tip":{"tip":1},"ok":true}"#)),
        other => panic!("{other:?}"),
    }
    match promotion_decision(Ok(report()), Some((Ok(j("{}")), plan_of(&[])))) {
        PromotionAction::Park { report, plan } => {
            assert_eq!(report, j(r#"{"branch_tip":{},"ok":true}"#));
            assert_eq!(plan.ops.len(), 1);
        }
        other => panic!("{other:?}"),
    }
}
