//! Broker and promotion flows over an in-memory fabric: signed events
//! and objects made with the library's own sealing, decisions taken by the
//! library's decision and replay functions.

use asf_kernel::authority::{
    gate_trace_check, liveness_at_head, propose_call, w14_decision_authority, w14_require_approval_strength, BrokerError,
    CallPlan,
};
use asf_kernel::broker::{attenuate, mint_at, revocation_body};
use asf_kernel::canon::seal;
use asf_kernel::capability::build;
use asf_kernel::escalation::{
    denial_body, escalation_batch_step, escalation_body, escalation_resolution_body, grant_body, w14_pending_escalation, BatchStep,
    PendingBatch,
};
use asf_kernel::fabric::tool_call_body;
use asf_kernel::json::{Json, JsonNumber};
use asf_kernel::json_text::to_json_text;
use asf_kernel::keys::Keystore;
use asf_kernel::tools::registration_body;
use asf_kernel::trace::{
    prepare_event, verified_snapshot_from_rows, w14_verified_object, EventRow, TraceError, VerifiedEvent, VerifiedEventSnapshot,
};
use ed25519_dalek::SigningKey;
use serde_json::Value;

fn conv(v: &Value) -> Json {
    match v {
        Value::Null => Json::Null,
        Value::Bool(b) => Json::Bool(*b),
        Value::Number(n) => match n.as_i64() {
            Some(i) => Json::Number(JsonNumber::Int(i as i128)),
            None => Json::Number(JsonNumber::Float(n.to_string())),
        },
        Value::String(s) => Json::Str(s.clone()),
        Value::Array(a) => Json::Array(a.iter().map(conv).collect()),
        Value::Object(m) => Json::Object(m.iter().map(|(k, v)| (k.clone(), conv(v))).collect()),
    }
}

fn j(text: &str) -> Json {
    conv(&serde_json::from_str::<Value>(text).unwrap())
}

fn parse_raw(raw: &str) -> Result<Json, String> {
    serde_json::from_str::<Value>(raw).map(|v| conv(&v)).map_err(|e| e.to_string())
}

fn field<'a>(v: &'a Json, k: &str) -> Option<&'a Json> {
    match v {
        Json::Object(f) => f.iter().find(|(n, _)| n == k).map(|(_, x)| x),
        _ => None,
    }
}

fn set_field(v: &mut Json, k: &str, x: Json) {
    if let Json::Object(f) = v {
        match f.iter_mut().find(|(n, _)| n == k) {
            Some(slot) => slot.1 = x,
            None => f.push((k.to_string(), x)),
        }
    }
}

fn text(v: &Json) -> Option<&str> {
    match v {
        Json::Str(s) => Some(s.as_str()),
        _ => None,
    }
}

const SUB: &str = "span:substrate";
const TOOL: &str = "tool:vault@1.0";
const NOW: &str = "2026-07-10T00:00:00Z";
const FAR: &str = "2027-01-01T00:00:00Z";

#[derive(Debug)]
enum Decision {
    Allowed { ticket: u64, forwarded_args: Json },
    Denied { reasons: Vec<String>, structural: Option<String> },
    Escalated { escalations: Vec<i64> },
}

struct Pending {
    ticket: u64,
    cap: String,
    tool: String,
    action: String,
    args: Json,
    checks: Json,
    reversibility: String,
    summary: Json,
}

struct Escalation {
    id: i64,
    cap: String,
    key: String,
    count: i64,
    samples: Vec<Json>,
    pending: bool,
}

/// A fabric held in memory: the substrate and run spans as stored event
/// rows (read back through signature verification), stored objects as raw
/// text, tool registrations, manifests and the
/// broker's in-flight calls and escalation rows.
struct World {
    sk: SigningKey,
    rows: Vec<EventRow>,
    objects: Vec<(String, String, String)>,
    tools: Vec<Json>,
    manifests: Vec<(String, Json)>,
    manifest: String,
    agent: String,
    pending: Vec<Pending>,
    next_ticket: u64,
    escalations: Vec<Escalation>,
    secrets: Json,
    tick: u32,
}

impl World {
    fn new(brokered: bool, stores: &[&str], actions: &str) -> World {
        let mut w = World {
            sk: SigningKey::from_bytes(&[21; 32]),
            rows: Vec::new(),
            objects: Vec::new(),
            tools: Vec::new(),
            manifests: Vec::new(),
            manifest: String::new(),
            agent: "prin:agent".to_string(),
            pending: Vec::new(),
            next_ticket: 1,
            escalations: Vec::new(),
            secrets: Json::Object(Vec::new()),
            tick: 0,
        };
        w.register_tool(TOOL, actions);
        w.step_boundary(brokered, stores);
        w
    }

    /// The fabric clock now.
    fn now(&self) -> String {
        format!("2026-07-10T00:{:02}:{:02}Z", self.tick / 60, self.tick % 60)
    }

    /// Advance the clock by a second.
    fn at(&mut self) -> String {
        self.tick += 1;
        self.now()
    }

    fn append(&mut self, span: &str, manifest: Option<&str>, kind: &str, body: Json) -> EventRow {
        let tip = self.rows.iter().filter(|e| e.span == span).max_by_key(|e| e.seq).map(|e| (e.id.clone(), e.seq));
        let at = self.at();
        let p = prepare_event(&self.sk.to_bytes(), span, manifest, kind, body, &at, tip).ok().unwrap();
        let ev = EventRow {
            offset: self.rows.len() as i64 + 1,
            id: p.id,
            span: span.to_string(),
            seq: p.seq,
            prev: p.prev,
            manifest: manifest.map(str::to_string),
            at,
            kind: kind.to_string(),
            raw: Json::Object(p.sealed),
        };
        self.rows.push(copy_row(&ev));
        ev
    }

    fn substrate(&mut self, manifest: Option<&str>, kind: &str, body: Json) -> EventRow {
        self.append(SUB, manifest, kind, body)
    }

    fn register_tool(&mut self, name: &str, actions: &str) {
        let body = registration_body(name, &j(actions), NOW).ok().unwrap();
        self.tools.push(Json::Object(body));
    }

    fn span_of(&self, manifest: &str) -> String {
        let m = &self.manifests.iter().find(|(id, _)| id == manifest).unwrap().1;
        text(field(field(m, "trace").unwrap(), "span").unwrap()).unwrap().to_string()
    }

    /// A new manifest over `stores`, becoming the current one.
    fn step_boundary(&mut self, brokered: bool, stores: &[&str]) -> String {
        let n = self.manifests.len() + 1;
        let id = format!("man:{n}");
        let roots: Vec<String> = stores.iter().map(|s| format!(r#"{{"store":"{s}","root":"sha256:{n:064}"}}"#)).collect();
        let authority = if brokered { r#","authority":{"mode":"brokered"}"# } else { "" };
        let m = j(&format!(
            r#"{{"id":"{id}","trace":{{"span":"span:run-{n}"}},"state":{{"roots":[{}]}}{authority}}}"#,
            roots.join(",")
        ));
        self.manifests.push((id.clone(), m));
        self.manifest = id.clone();
        id
    }

    fn manifest_json(&self, id: &str) -> Json {
        self.manifests.iter().find(|(m, _)| m == id).unwrap().1.deep_clone()
    }

    fn put_object(&mut self, kind: &str, sealed: Vec<(String, Json)>) -> String {
        let obj = Json::Object(sealed);
        let id = text(field(&obj, "id").unwrap()).unwrap().to_string();
        self.objects.push((id.clone(), kind.to_string(), to_json_text(&obj)));
        id
    }

    fn load_cap(&self, id: &str) -> Result<Json, String> {
        match self.objects.iter().find(|(o, _, _)| o == id) {
            Some((o, kind, raw)) => {
                w14_verified_object(o, "cap", "capability", kind, raw, parse_raw(raw), self.sk.verifying_key().as_bytes()).map_err(|e| e.text())
            }
            None => Err(format!("object {id} not found")),
        }
    }

    fn caps(&self) -> Vec<(String, Result<Json, String>)> {
        self.objects.iter().map(|(id, _, _)| (id.clone(), self.load_cap(id))).collect()
    }

    /// The verified event view of every retained row, with its head.
    fn snapshot(&self) -> Result<VerifiedEventSnapshot, TraceError> {
        verified_snapshot_from_rows(&self.rows, self.sk.verifying_key().as_bytes())
    }

    fn events(&self) -> Vec<VerifiedEvent> {
        self.snapshot().ok().unwrap().events
    }

    fn liveness(&self, cap: &str) -> Result<(), String> {
        let snapshot = self.snapshot().map_err(|e| format!("authority view unavailable: {} (fail closed)", e.text()))?;
        liveness_at_head(&snapshot, SUB, &self.caps(), cap)
    }

    fn mint(&mut self, manifest: &str, caveats: Vec<Json>, escalatable: Vec<&str>, expires: &str) -> Result<String, BrokerError> {
        let issued = self.at();
        self.mint_at(manifest, caveats, escalatable, expires, &issued)
    }

    fn mint_at(&mut self, manifest: &str, caveats: Vec<Json>, escalatable: Vec<&str>, expires: &str, issued: &str)
        -> Result<String, BrokerError> {
        let man = self.manifest_json(manifest);
        let (events, agent) = (self.events(), self.agent.clone());
        let (id, sealed) = mint_at(manifest, &man, &agent, caveats, escalatable, expires, issued, &self.tools, &events, &self.sk.to_bytes())?;
        self.put_object("capability", sealed);
        self.substrate(Some(manifest), "grant", grant_body(&id, None));
        Ok(id)
    }

    fn attenuate(&mut self, parent: &str, manifest: &str, caveats: Vec<Json>, escalatable: Vec<&str>, expires: &str)
        -> Result<String, BrokerError> {
        let loaded = self.load_cap(parent);
        let live = self.liveness(parent);
        let man = self.manifest_json(manifest);
        let (events, agent, now) = (self.events(), self.agent.clone(), self.at());
        let (id, sealed) = attenuate(parent, &loaded, &live, &agent, manifest, &man, caveats, escalatable, expires, &now,
            &self.tools, &events, &self.sk.to_bytes())?;
        self.put_object("capability", sealed);
        self.substrate(Some(manifest), "grant", grant_body(&id, Some(parent)));
        Ok(id)
    }

    /// A fabric-signed capability row with no activating grant.
    fn store_capability_row(&mut self, parent: Option<&str>, issued_at: &str, caveats: Vec<Json>) -> String {
        let body = build(&self.agent.clone(), &self.manifest.clone(), parent, issued_at, FAR, caveats, vec![]).ok().unwrap();
        let fields = match body {
            Json::Object(f) => f,
            _ => panic!("a capability body is an object"),
        };
        let sealed = seal("cap", fields, &self.sk.to_bytes()).ok().unwrap();
        self.put_object("capability", sealed)
    }

    fn propose(&mut self, cap: &str, tool: &str, action: &str, args: Json) -> Decision {
        let loaded = self.load_cap(cap);
        let live = self.liveness(cap);
        let caps = self.caps();
        let pending: Vec<(String, Json)> = self.pending.iter().map(|p| (p.cap.clone(), p.checks.deep_clone())).collect();
        let authority = match self.snapshot() {
            Ok(v) => w14_decision_authority(&v.events, SUB, cap, &caps, &pending).map_err(|e| e.text()),
            Err(e) => Err(e.text()),
        };
        let (current, now) = (Some(self.manifest.clone()), self.now());
        match propose_call(cap, tool, action, &args, &now, &loaded, &live, &self.tools, &current, &authority) {
            CallPlan::Deny { failed, structural, checks } => {
                let body = denial_body(cap, tool, action, &failed, &structural, &checks);
                let man = self.manifest.clone();
                self.substrate(Some(&man), "verdict", body);
                Decision::Denied { reasons: failed, structural }
            }
            CallPlan::Allow { checks, reversibility, summary, credential } => {
                let mut forwarded = args.deep_clone();
                if let Some((arg, secret)) = credential {
                    let ks = Keystore::at("keys".to_string());
                    if let Some(v) = ks.secret_get(Some(&self.secrets), &secret).ok().unwrap() {
                        set_field(&mut forwarded, &arg, Json::Str(v));
                    }
                }
                let ticket = self.next_ticket;
                self.next_ticket += 1;
                self.pending.push(Pending {
                    ticket,
                    cap: cap.to_string(),
                    tool: tool.to_string(),
                    action: action.to_string(),
                    args,
                    checks,
                    reversibility,
                    summary,
                });
                Decision::Allowed { ticket, forwarded_args: forwarded }
            }
            CallPlan::Escalate { failed, sample } => {
                let mut ids = Vec::new();
                for key in failed {
                    ids.push(self.enqueue_escalation(cap, &key, &sample));
                }
                Decision::Escalated { escalations: ids }
            }
        }
    }

    fn enqueue_escalation(&mut self, cap: &str, key: &str, sample: &Json) -> i64 {
        let found = self.escalations.iter().position(|e| e.pending && e.cap == cap && e.key == key);
        let pending = found.map(|k| {
            let e = &self.escalations[k];
            PendingBatch { id: e.id, count: e.count, samples: e.samples.iter().map(Json::deep_clone).collect() }
        });
        let (id, count) = match escalation_batch_step(pending, sample.deep_clone()) {
            BatchStep::Join { id, count, samples } => {
                let e = &mut self.escalations[found.unwrap()];
                e.count = count;
                e.samples = samples;
                (id, count)
            }
            BatchStep::Open { samples } => {
                let id = self.escalations.len() as i64 + 1;
                self.escalations.push(Escalation { id, cap: cap.to_string(), key: key.to_string(), count: 1, samples, pending: true });
                (id, 1)
            }
        };
        let man = self.manifest.clone();
        self.substrate(Some(&man), "escalation", escalation_body(id, cap, key, count, sample));
        id
    }

    fn approve_escalation(&mut self, escalation: i64, uses: i64, channel: &str, auth_strength: &str) -> Result<(), BrokerError> {
        let binding = w14_pending_escalation(&self.events(), SUB, escalation)?;
        let cap = self.load_cap(&binding.capability).map_err(BrokerError::Unavailable)?;
        w14_require_approval_strength(&binding.capability, &cap, auth_strength)?;
        let body = escalation_resolution_body(escalation, true, uses, &binding, channel, auth_strength);
        self.substrate(Some(&binding.manifest), "approval", body);
        if let Some(e) = self.escalations.iter_mut().find(|e| e.id == escalation) {
            e.pending = false;
        }
        Ok(())
    }

    fn revoke(&mut self, cap: &str, reason: &str, channel: Option<(&str, &str)>) -> Result<String, BrokerError> {
        let loaded = self.load_cap(cap);
        let (bound, body) = revocation_body(cap, &loaded, reason, channel)?;
        Ok(self.substrate(Some(&bound), "revoke", body).id)
    }

    /// Record a tool call on the current manifest's run span.
    fn record_tool_call(&mut self, tool: &str, action: &str, args: Json, summary: Json, checks: Json, rev: Option<&str>) -> EventRow {
        let body = tool_call_body(tool, action, args, j("{}"), summary, checks, rev, &Vec::new());
        let man = self.manifest.clone();
        let span = self.span_of(&man);
        self.append(&span, Some(&man), "tool_call", body)
    }

    fn record_result(&mut self, ticket: u64) -> EventRow {
        let idx = self.pending.iter().position(|p| p.ticket == ticket).unwrap();
        let p = self.pending.remove(idx);
        self.record_tool_call(&p.tool, &p.action, p.args, p.summary, p.checks, Some(&p.reversibility))
    }

    /// A call that claims `cap` without going through the broker.
    fn record_claimed_write(&mut self, cap: &str, rel: &str) {
        let summary = j(&format!(r#"{{"capability":"{cap}","action_class":"write","paths":["{rel}"]}}"#));
        self.record_tool_call(TOOL, "note.write", j(&format!(r#"{{"path":"{rel}"}}"#)), summary, j("[]"), Some("reversible"));
    }

    fn gate(&self, manifest: &str) -> Result<Json, BrokerError> {
        let span = self.span_of(manifest);
        let man = Ok(self.manifest_json(manifest));
        gate_trace_check(&self.events(), &span, SUB, manifest, &man, &self.caps(), &self.tools)
    }
}

fn copy_row(e: &EventRow) -> EventRow {
    EventRow {
        offset: e.offset,
        id: e.id.clone(),
        span: e.span.clone(),
        seq: e.seq,
        prev: e.prev.clone(),
        manifest: e.manifest.clone(),
        at: e.at.clone(),
        kind: e.kind.clone(),
        raw: e.raw.deep_clone(),
    }
}

fn violation(r: Result<Json, BrokerError>) -> String {
    match r {
        Err(BrokerError::GateTraceViolation(m)) => m,
        Err(other) => panic!("expected a trace violation, got {other:?}"),
        Ok(report) => panic!("expected a trace violation, got {}", to_json_text(&report)),
    }
}

// ---------------------------------------------------------------------
// The broker
// ---------------------------------------------------------------------

const BROKER_ACTIONS: &str = r#"[
    { "name": "note.read",  "side_effect": "local", "surface": "fixed",
      "reversibility": "reversible", "domain": "files.vault",
      "class": "read", "store": "fs:vault", "path_args": ["path"] },
    { "name": "note.write", "side_effect": "local", "surface": "fixed",
      "reversibility": "reversible", "domain": "files.vault",
      "class": "write", "store": "fs:vault", "path_args": ["path"] },
    { "name": "note.move",  "side_effect": "local", "surface": "fixed",
      "reversibility": "reversible", "domain": "files.vault",
      "class": "move", "store": "fs:vault", "path_args": ["src", "dest"] },
    { "name": "note.delete","side_effect": "local", "surface": "fixed",
      "reversibility": "irreversible", "domain": "files.vault",
      "class": "delete", "store": "fs:vault", "path_args": ["path"] }
]"#;

fn default_caveats() -> Vec<Json> {
    vec![
        j(r#"{"dim":"action.allow","tools":["tool:vault@1.0"],"actions":["note.read","note.write","note.move"]}"#),
        j(r#"{"dim":"reversibility.max","max":"compensable"}"#),
        j(r#"{"dim":"paths.write","globs":["inbox/**","MOCs/**"]}"#),
        j(r#"{"dim":"budget.count","action_class":"write","max":2,"window":"run"}"#),
        j(r#"{"dim":"approval.min_auth","min":"local_session"}"#),
    ]
}

fn broker_world() -> World {
    World::new(false, &["fs:vault", "db:memory"], BROKER_ACTIONS)
}

fn mint_default(w: &mut World) -> String {
    let man = w.manifest.clone();
    w.mint(&man, default_caveats(), vec!["budget.count:write"], FAR).unwrap()
}

fn write_call(w: &mut World, cap: &str, path: &str) -> Decision {
    w.propose(cap, TOOL, "note.write", j(&format!(r#"{{"path":"{path}","content":"x"}}"#)))
}

#[test]
fn m2_capability_dies_with_its_manifest() {
    let mut w = broker_world();
    let cap = mint_default(&mut w);
    // New step boundary → new manifest → the old capability is orphaned.
    let step2 = w.step_boundary(false, &["fs:vault", "db:memory"]);
    match write_call(&mut w, &cap, "inbox/a.md") {
        Decision::Denied { structural: Some(s), .. } => assert!(s.contains("M2"), "{s}"),
        other => panic!("expected structural M2 denial, got {other:?}"),
    }
    // Attenuation-identity onto the new manifest revives authority.
    let cap2 = w.attenuate(&cap, &step2, default_caveats(), vec!["budget.count:write"], FAR).unwrap();
    assert!(matches!(write_call(&mut w, &cap2, "inbox/a.md"), Decision::Allowed { .. }));
}

#[test]
fn forged_capability_is_dead() {
    let mut w = broker_world();
    let cap = mint_default(&mut w);
    // Tamper with the stored capability object: widen the budget.
    let slot = w.objects.iter_mut().find(|(id, _, _)| *id == cap).unwrap();
    let mut obj = parse_raw(&slot.2).unwrap();
    if let Some(Json::Array(cavs)) = field(&obj, "caveats").map(|c| c.deep_clone()) {
        let mut cavs = cavs;
        set_field(&mut cavs[3], "max", Json::Number(JsonNumber::Int(10_000)));
        set_field(&mut obj, "caveats", Json::Array(cavs));
    }
    slot.2 = to_json_text(&obj);
    match write_call(&mut w, &cap, "inbox/a.md") {
        Decision::Denied { structural: Some(s), .. } => assert!(s.contains("F1"), "{s}"),
        other => panic!("expected F1 denial, got {other:?}"),
    }
}

#[test]
fn undeclared_action_uncallable() {
    let mut w = broker_world();
    let cap = mint_default(&mut w);
    let d = w.propose(&cap, TOOL, "note.nuke", j(r#"{"path": "inbox/a.md"}"#));
    assert!(matches!(d, Decision::Denied { structural: Some(ref s), .. } if s.contains("undeclared")));
}

#[test]
fn unknown_dimension_denies_at_broker() {
    let mut w = broker_world();
    let mut caveats = default_caveats();
    caveats.push(j(r#"{"dim":"taint.egress","urls_and_bodies_derived_only_from":["intent"]}"#));
    let man = w.manifest.clone();
    let cap = w.mint(&man, caveats, vec![], FAR).unwrap();
    match write_call(&mut w, &cap, "inbox/a.md") {
        Decision::Denied { reasons, .. } => assert!(reasons.contains(&"taint.egress".to_string())),
        other => panic!("expected fail-closed denial, got {other:?}"),
    }
}

#[test]
fn out_of_scope_paths_and_reversibility_denied() {
    let mut w = broker_world();
    let cap = mint_default(&mut w);
    // Path outside globs.
    assert!(matches!(
        write_call(&mut w, &cap, "secrets/key.md"),
        Decision::Denied { ref reasons, .. } if reasons.contains(&"paths.write".to_string())
    ));
    // note.delete: blocked by action.allow AND would exceed reversibility.max.
    match w.propose(&cap, TOOL, "note.delete", j(r#"{"path": "inbox/a.md"}"#)) {
        Decision::Denied { reasons, .. } => {
            assert!(reasons.contains(&"action.allow".to_string()));
            assert!(reasons.contains(&"reversibility.max".to_string()));
        }
        other => panic!("{other:?}"),
    }
}

#[test]
fn credentials_injected_never_traced() {
    let mut w = broker_world();
    w.register_tool(
        "tool:web@1.0",
        r#"[{ "name": "web.fetch", "side_effect": "external", "surface": "open",
              "egress": true, "reversibility": "reversible", "domain": "web.research",
              "class": "read", "store": "fs:vault", "path_args": [],
              "credentials": { "arg": "api_key", "secret": "web_api_key" } }]"#,
    );
    w.secrets = j(r#"{"web_api_key":"s3cr3t-t0ken"}"#);
    let caveats = vec![
        j(r#"{"dim":"action.allow","tools":["tool:web@1.0"],"actions":["web.fetch"]}"#),
        j(r#"{"dim":"external_reach","mode":"live"}"#),
    ];
    let man = w.manifest.clone();
    let cap = w.mint(&man, caveats, vec![], FAR).unwrap();

    let agent_args = j(r#"{"url": "https://example.com", "api_key": "$injected"}"#);
    match w.propose(&cap, "tool:web@1.0", "web.fetch", agent_args) {
        Decision::Allowed { ticket, forwarded_args } => {
            // The downstream copy holds the real secret…
            assert_eq!(field(&forwarded_args, "api_key"), Some(&Json::Str("s3cr3t-t0ken".to_string())));
            let ev = w.record_result(ticket);
            // …the ledger copy never does.
            let recorded = to_json_text(&ev.raw);
            assert!(!recorded.contains("s3cr3t-t0ken"), "secret leaked into ledger");
            assert!(recorded.contains("$injected"), "agent-supplied args preserved");
        }
        other => panic!("{other:?}"),
    }
}

#[test]
fn attenuation_through_broker() {
    let mut w = broker_world();
    let cap = mint_default(&mut w);
    let man = w.manifest.clone();

    // Narrower child: inbox only, 1 write, read/write only.
    let child_caveats = vec![
        j(r#"{"dim":"action.allow","tools":["tool:vault@1.0"],"actions":["note.read","note.write"]}"#),
        j(r#"{"dim":"reversibility.max","max":"reversible"}"#),
        j(r#"{"dim":"paths.write","globs":["inbox/**"]}"#),
        j(r#"{"dim":"budget.count","action_class":"write","max":1,"window":"run"}"#),
        j(r#"{"dim":"approval.min_auth","min":"local_session"}"#),
    ];
    let child = w.attenuate(&cap, &man, child_caveats, vec![], FAR).unwrap();
    assert!(matches!(write_call(&mut w, &child, "inbox/x.md"), Decision::Allowed { .. }));
    assert!(matches!(write_call(&mut w, &child, "MOCs/x.md"), Decision::Denied { .. }), "parent allowed MOCs, child must not");

    // Widening attempt: fatal at attenuation time, no capability minted.
    let mut wide = default_caveats();
    wide[2] = j(r#"{"dim":"paths.write","globs":["**"]}"#);
    let before = w.objects.len();
    assert!(matches!(w.attenuate(&cap, &man, wide, vec![], FAR), Err(BrokerError::Cap(_))));
    assert_eq!(w.objects.len(), before);
}

#[test]
fn attenuation_rechecks_m1_for_the_child_manifest() {
    let mut w = broker_world();
    w.register_tool(
        "tool:memory@1.0",
        r#"[{ "name": "memory.write", "side_effect": "local", "surface": "fixed",
              "reversibility": "reversible", "domain": "memory.local", "class": "write",
              "store": "db:memory", "path_args": [] }]"#,
    );
    let caveats = vec![j(r#"{"dim":"action.allow","tools":["tool:memory@1.0"],"actions":["memory.write"]}"#)];
    let man = w.manifest.clone();
    let parent = w.mint(&man, caveats.iter().map(Json::deep_clone).collect(), vec![], FAR).unwrap();

    // A child manifest that omits the memory store: a child capability
    // retaining memory.write fails M1 though its parent covered the store.
    let child_manifest = w.step_boundary(false, &["fs:vault"]);
    assert!(matches!(
        w.attenuate(&parent, &child_manifest, caveats, vec![], FAR),
        Err(BrokerError::M1 { ref store, .. }) if store == "db:memory"
    ));
}

#[test]
fn a22_child_revoke_preserves_parent_and_siblings() {
    let mut w = broker_world();
    let parent = mint_default(&mut w);
    let man = w.manifest.clone();
    let narrower = || vec![
        j(r#"{"dim":"action.allow","tools":["tool:vault@1.0"],"actions":["note.write"]}"#),
        j(r#"{"dim":"reversibility.max","max":"reversible"}"#),
        j(r#"{"dim":"paths.write","globs":["inbox/**"]}"#),
        j(r#"{"dim":"budget.count","action_class":"write","max":2,"window":"run"}"#),
        j(r#"{"dim":"approval.min_auth","min":"local_session"}"#),
    ];
    let child1 = w.attenuate(&parent, &man, narrower(), vec![], FAR).unwrap();
    let child2 = w.attenuate(&parent, &man, narrower(), vec![], FAR).unwrap();
    assert_ne!(child1, child2, "distinct issued_at ⇒ distinct ids");

    w.revoke(&child1, "operator_request", Some(("chan:test", "local_session"))).unwrap();

    // Revoking a child leaves its parent and siblings live.
    match write_call(&mut w, &child1, "inbox/c1.md") {
        Decision::Denied { structural: Some(s), .. } => assert!(s.contains("revoked"), "{s}"),
        other => panic!("revoked child must deny: {other:?}"),
    }
    assert!(matches!(write_call(&mut w, &parent, "inbox/p.md"), Decision::Allowed { .. }));
    assert!(matches!(write_call(&mut w, &child2, "inbox/c2.md"), Decision::Allowed { .. }));
}

fn count_events(w: &World, kind: &str) -> usize {
    w.rows.iter().filter(|e| e.kind == kind).count()
}

#[test]
fn a22_revoked_capability_denies_structurally_and_never_escalates() {
    let mut w = broker_world();
    let cap = mint_default(&mut w);
    match write_call(&mut w, &cap, "inbox/before.md") {
        Decision::Allowed { ticket, .. } => {
            w.record_result(ticket);
        }
        other => panic!("expected Allowed before revoke: {other:?}"),
    }
    let ev = w.revoke(&cap, "compromise", Some(("chan:test", "local_session"))).unwrap();
    assert!(ev.starts_with("evt:"), "revocation is a signed event");

    // Closed: structural denial, never escalation.
    match write_call(&mut w, &cap, "inbox/after.md") {
        Decision::Denied { structural: Some(s), .. } => assert!(s.contains("revoked"), "{s}"),
        other => panic!("closed capability must deny structurally: {other:?}"),
    }
    assert!(w.escalations.is_empty(), "closure denial must not enqueue an escalation");
    // The revoke event carries its provenance.
    let rv = w.rows.iter().find(|e| e.kind == "revoke").unwrap();
    let body = field(&rv.raw, "body").unwrap();
    assert_eq!(field(body, "channel"), Some(&Json::Str("chan:test".to_string())));
    assert_eq!(field(body, "auth_strength"), Some(&Json::Str("local_session".to_string())));
    assert_eq!(field(body, "reason"), Some(&Json::Str("compromise".to_string())));
}

#[test]
fn allowed_call_full_cycle_with_checks_in_ledger() {
    let mut w = broker_world();
    let cap = mint_default(&mut w);
    match write_call(&mut w, &cap, "inbox/a.md") {
        Decision::Allowed { ticket, forwarded_args } => {
            assert_eq!(field(&forwarded_args, "path"), Some(&Json::Str("inbox/a.md".to_string())));
            let ev = w.record_result(ticket);
            let tc = w.rows.iter().find(|e| e.kind == "tool_call" && e.span == ev.span).unwrap();
            let checks = match field(field(&tc.raw, "body").unwrap(), "checks") {
                Some(Json::Array(c)) => c,
                _ => panic!("checks are an array"),
            };
            assert_eq!(checks.len(), 5, "every caveat produced a check record");
            assert!(checks.iter().all(|c| field(c, "ok") == Some(&Json::Bool(true))));
        }
        other => panic!("expected Allowed, got {other:?}"),
    }
}

#[test]
fn a22_signed_revoke_cannot_be_concealed_by_unsigned_indexes() {
    let mut w = broker_world();
    let cap = mint_default(&mut w);
    let revoke = w.revoke(&cap, "compromise", None).unwrap();
    // The signed raw revoke stays intact; its materialized selectors call it
    // a grant on another span.
    let row = w.rows.iter_mut().find(|r| r.id == revoke).unwrap();
    row.kind = "grant".to_string();
    row.span = "span:concealed".to_string();
    match write_call(&mut w, &cap, "inbox/must-not-run.md") {
        Decision::Denied { structural: Some(reason), .. } => {
            assert!(reason.contains("index column") && reason.contains("fail closed"), "{reason}")
        }
        other => panic!("concealed signed revoke must deny structurally: {other:?}"),
    }
    assert!(w.escalations.is_empty(), "structural substrate failure must not become an escalation path");
}

#[test]
fn w11_each_signed_event_selector_mismatch_prevents_dispatch() {
    for field_name in ["id", "span", "seq", "prev", "manifest", "at", "kind"] {
        let mut w = broker_world();
        let cap = mint_default(&mut w);
        let revoke = w.revoke(&cap, "compromise", None).unwrap();
        let row = w.rows.iter_mut().find(|r| r.id == revoke).unwrap();
        match field_name {
            "id" => row.id = "evt:index-tamper".to_string(),
            "span" => row.span = "span:index-tamper".to_string(),
            "seq" => row.seq = 99,
            "prev" => row.prev = Some("evt:index-tamper".to_string()),
            "manifest" => row.manifest = Some("man:index-tamper".to_string()),
            "at" => row.at = "t-index-tamper".to_string(),
            _ => row.kind = "grant".to_string(),
        }
        match write_call(&mut w, &cap, &format!("inbox/{field_name}-must-not-run.md")) {
            Decision::Denied { structural: Some(reason), .. } => {
                assert!(reason.contains("index column") && reason.contains(field_name), "{field_name}: {reason}")
            }
            other => panic!("{field_name} mismatch must deny structurally: {other:?}"),
        }
        assert!(w.escalations.is_empty(), "{field_name} mismatch must not create an escalation path");
    }
}

#[test]
fn a22_exemptions_cannot_resurrect_closed_capability() {
    let mut w = broker_world();
    let man = w.manifest.clone();
    let cap = w
        .mint(&man, vec![
            j(r#"{"dim":"action.allow","tools":["tool:vault@1.0"],"actions":["note.write"]}"#),
            j(r#"{"dim":"paths.write","globs":["inbox/**"]}"#),
            j(r#"{"dim":"budget.count","action_class":"write","max":1,"window":"run"}"#),
            j(r#"{"dim":"approval.min_auth","min":"local_session"}"#),
        ], vec!["budget.count:write"], FAR)
        .unwrap();
    match write_call(&mut w, &cap, "inbox/one.md") {
        Decision::Allowed { ticket, .. } => {
            w.record_result(ticket);
        }
        other => panic!("{other:?}"),
    }
    let esc = match write_call(&mut w, &cap, "inbox/two.md") {
        Decision::Escalated { escalations } => escalations[0],
        other => panic!("expected escalation: {other:?}"),
    };
    w.approve_escalation(esc, 3, "chan:test", "local_session").unwrap();
    w.revoke(&cap, "behavior_change", None).unwrap();
    match write_call(&mut w, &cap, "inbox/three.md") {
        Decision::Denied { structural: Some(s), .. } => assert!(s.contains("revoked"), "{s}"),
        other => panic!("exemption must not resurrect closed authority: {other:?}"),
    }
}

#[test]
fn w14_mistyped_capability_cannot_dispatch_or_escalate() {
    let mut w = broker_world();
    let cap = mint_default(&mut w);
    w.objects.iter_mut().find(|(id, _, _)| *id == cap).unwrap().1 = "manifest".to_string();
    match write_call(&mut w, &cap, "inbox/must-not-dispatch.md") {
        Decision::Denied { structural: Some(reason), .. } => {
            assert!(reason.contains("RF-19"), "{reason}");
            assert!(reason.contains("stored kind"), "{reason}");
        }
        other => panic!("mistyped capability must be structurally denied: {other:?}"),
    }
    assert!(w.escalations.is_empty());
}

#[test]
fn w14_mistyped_capability_cannot_receive_approval_authority() {
    let mut w = broker_world();
    let cap = mint_default(&mut w);
    for path in ["inbox/a.md", "inbox/b.md"] {
        match write_call(&mut w, &cap, path) {
            Decision::Allowed { ticket, .. } => {
                w.record_result(ticket);
            }
            other => panic!("expected budget-burning call to pass: {other:?}"),
        }
    }
    let escalation = match write_call(&mut w, &cap, "inbox/c.md") {
        Decision::Escalated { escalations } => escalations[0],
        other => panic!("expected escalation, got {other:?}"),
    };
    w.objects.iter_mut().find(|(id, _, _)| *id == cap).unwrap().1 = "manifest".to_string();
    assert!(w.approve_escalation(escalation, 1, "chan:tty", "local_session").is_err(), "mistyped capability received approval authority");
    assert_eq!(w.escalations.iter().filter(|e| e.pending).count(), 1);
    assert_eq!(count_events(&w, "approval"), 0, "failed approval still appended an authority event");
}

#[test]
fn expired_capability_denies_structurally() {
    let mut w = broker_world();
    let man = w.manifest.clone();
    let cap = w.mint(&man, default_caveats(), vec![], "2026-01-01T00:00:00Z").unwrap();
    match write_call(&mut w, &cap, "inbox/a.md") {
        Decision::Denied { structural: Some(s), .. } => assert!(s.contains("expired"), "{s}"),
        other => panic!("expected structural expiry denial, got {other:?}"),
    }
}

#[test]
fn a22_post_revoke_attenuation_is_refused() {
    let mut w = broker_world();
    let parent = mint_default(&mut w);
    w.revoke(&parent, "compromise", Some(("chan:test", "local_session"))).unwrap();
    let grants_before = count_events(&w, "grant");
    let man = w.manifest.clone();
    match w.attenuate(&parent, &man, default_caveats(), vec![], FAR) {
        Err(BrokerError::CapabilityClosed(msg)) => assert!(msg.contains("revoked"), "{msg}"),
        other => panic!("closed parent must not produce a child: {other:?}"),
    }
    assert_eq!(count_events(&w, "grant"), grants_before, "no grant event was emitted for a child of a closed parent");
}

#[test]
fn a22_broker_refuses_to_grant_a_closed_id() {
    let mut w = broker_world();
    let man = w.manifest.clone();
    let issued = "2026-07-10T00:00:30Z";
    let cap = w.mint_at(&man, default_caveats(), vec![], FAR, issued).unwrap();
    w.revoke(&cap, "compromise", Some(("chan:test", "local_session"))).unwrap();
    let grants_before = count_events(&w, "grant");
    match w.mint_at(&man, default_caveats(), vec![], FAR, issued) {
        Err(BrokerError::CapabilityClosed(msg)) => assert!(msg.contains("permanent"), "{msg}"),
        other => panic!("granting a closed id must be refused: {other:?}"),
    }
    assert_eq!(count_events(&w, "grant"), grants_before, "no re-grant landed");

    // A genuinely new mint (different issued_at ⇒ different id) restores.
    let restored = w.mint_at(&man, default_caveats(), vec![], FAR, "2026-07-10T00:00:31Z").unwrap();
    assert_ne!(restored, cap);
    assert!(matches!(write_call(&mut w, &restored, "inbox/again.md"), Decision::Allowed { .. }));
}

#[test]
fn a22_revocation_api_refuses_bad_targets_and_bad_provenance() {
    let mut w = broker_world();
    let cap = mint_default(&mut w);
    // Unknown target: a typo'd kill fails loudly instead of poisoning an id.
    assert!(matches!(
        w.revoke("cap:doesnotexist", "compromise", Some(("chan:test", "local_session"))),
        Err(BrokerError::InvalidRevocation(_))
    ));
    // Broker-mechanical closure must name a mechanical cause.
    assert!(matches!(w.revoke(&cap, "operator_request", None), Err(BrokerError::InvalidRevocation(_))));
    // Neither refusal emitted a closure event, and the target stays live.
    assert_eq!(count_events(&w, "revoke"), 0, "refusals close nothing");
    assert!(matches!(write_call(&mut w, &cap, "inbox/live.md"), Decision::Allowed { .. }));
}

#[test]
fn escalation_batch_approval_cycle() {
    let mut w = broker_world();
    let cap = mint_default(&mut w);
    // Burn the write budget (max 2).
    for p in ["inbox/a.md", "inbox/b.md"] {
        match write_call(&mut w, &cap, p) {
            Decision::Allowed { ticket, .. } => {
                w.record_result(ticket);
            }
            other => panic!("{other:?}"),
        }
    }
    // Next three writes: all park in one batch.
    let mut esc_id = None;
    for p in ["inbox/c.md", "inbox/d.md", "inbox/e.md"] {
        match write_call(&mut w, &cap, p) {
            Decision::Escalated { escalations } => {
                assert_eq!(escalations.len(), 1);
                if let Some(prev) = esc_id {
                    assert_eq!(prev, escalations[0], "batched, not re-pinged");
                }
                esc_id = Some(escalations[0]);
            }
            other => panic!("{other:?}"),
        }
    }
    let esc = esc_id.unwrap();
    let pending: Vec<&Escalation> = w.escalations.iter().filter(|e| e.pending).collect();
    assert_eq!(pending.len(), 1);
    assert_eq!(pending[0].count, 3, "one legible batch of three");

    // approval.min_auth = local_session: a weaker channel may not approve.
    match w.approve_escalation(esc, 2, "chan:tg", "platform_oauth") {
        Err(BrokerError::ChannelTooWeak { .. }) => {}
        other => panic!("expected ChannelTooWeak, got {other:?}"),
    }

    // Strong channel approves 2 uses; the approval event is stamped.
    w.approve_escalation(esc, 2, "chan:tty", "local_session").unwrap();
    let appr = w.rows.iter().find(|e| e.kind == "approval").unwrap();
    let body = field(&appr.raw, "body").unwrap();
    assert_eq!(field(body, "channel"), Some(&Json::Str("chan:tty".to_string())));
    assert_eq!(field(body, "auth_strength"), Some(&Json::Str("local_session".to_string())));
    assert_eq!(field(body, "escalation"), Some(&Json::Number(JsonNumber::Int(esc as i128))));
    assert_eq!(field(body, "capability"), Some(&Json::Str(cap.clone())));
    assert_eq!(field(body, "caveat"), Some(&Json::Str("budget.count:write".to_string())));

    // Two exempted writes pass…
    for p in ["inbox/c.md", "inbox/d.md"] {
        match write_call(&mut w, &cap, p) {
            Decision::Allowed { ticket, .. } => {
                w.record_result(ticket);
            }
            other => panic!("{other:?}"),
        }
    }
    // …and the third parks again: approvals are bounded.
    assert!(matches!(write_call(&mut w, &cap, "inbox/e.md"), Decision::Escalated { .. }));
}

#[test]
fn exemption_survives_a_denied_call() {
    let mut w = broker_world();
    let cap = mint_default(&mut w);
    // Burn the write budget (max 2), then escalate and approve 1 exemption.
    for p in ["inbox/a.md", "inbox/b.md"] {
        match write_call(&mut w, &cap, p) {
            Decision::Allowed { ticket, .. } => {
                w.record_result(ticket);
            }
            other => panic!("{other:?}"),
        }
    }
    let esc = match write_call(&mut w, &cap, "inbox/c.md") {
        Decision::Escalated { escalations } => escalations[0],
        other => panic!("expected escalation, got {other:?}"),
    };
    w.approve_escalation(esc, 1, "chan:tty", "local_session").unwrap();

    // Over budget and out of scope: denied, and the exemption is not spent.
    match write_call(&mut w, &cap, "secrets/leak.md") {
        Decision::Denied { reasons, .. } => assert!(reasons.contains(&"paths.write".to_string()), "{reasons:?}"),
        other => panic!("expected denial, got {other:?}"),
    }
    match write_call(&mut w, &cap, "inbox/d.md") {
        Decision::Allowed { ticket, .. } => {
            w.record_result(ticket);
        }
        other => panic!("exemption was wrongly consumed by the denied call: {other:?}"),
    }
    // A bounded grant of 1: the next over-budget write parks again.
    assert!(matches!(write_call(&mut w, &cap, "inbox/e.md"), Decision::Escalated { .. }));
}

// ---------------------------------------------------------------------
// Promotion: the replay of a recorded trace
// ---------------------------------------------------------------------

const GATE_ACTIONS: &str = r#"[
    { "name": "note.write", "side_effect": "local", "surface": "fixed",
      "reversibility": "reversible", "domain": "files.vault",
      "class": "write", "store": "fs:vault", "path_args": ["path"] },
    { "name": "note.move",  "side_effect": "local", "surface": "fixed",
      "reversibility": "reversible", "domain": "files.vault",
      "class": "move", "store": "fs:vault", "path_args": ["src", "dest"] },
    { "name": "note.delete", "side_effect": "local", "surface": "fixed",
      "reversibility": "irreversible", "domain": "files.vault",
      "class": "delete", "store": "fs:vault", "path_args": ["path"] }
]"#;

fn gate_caveats() -> Vec<Json> {
    vec![
        j(r#"{"dim":"action.allow","tools":["tool:vault@1.0"],"actions":["note.write","note.move","note.delete"]}"#),
        j(r#"{"dim":"paths.write","globs":["**"]}"#),
        j(r#"{"dim":"budget.count","action_class":"write","max":10,"window":"run"}"#),
        j(r#"{"dim":"approval.min_auth","min":"local_session"}"#),
    ]
}

/// A fabric with one manifest and a capability minted for it.
fn gate_world(brokered: bool) -> (World, String) {
    let mut w = World::new(brokered, &["fs:vault", "db:memory"], GATE_ACTIONS);
    let man = w.manifest.clone();
    let cap = w.mint(&man, gate_caveats(), vec![], FAR).unwrap();
    (w, cap)
}

fn agent_write(w: &mut World, cap: &str, rel: &str) {
    match w.propose(cap, TOOL, "note.write", j(&format!(r#"{{"path":"{rel}","content":"x"}}"#))) {
        Decision::Allowed { ticket, .. } => {
            w.record_result(ticket);
        }
        other => panic!("expected allow: {other:?}"),
    }
}

fn assert_gate_rejects(w: &World, expected: &str) {
    let man = w.manifest.clone();
    let m = violation(w.gate(&man));
    assert!(m.contains(expected), "{m}");
}

fn ungranted(w: &mut World) -> String {
    w.store_capability_row(None, "2026-07-10T00:00:00Z", gate_caveats())
}

#[test]
fn gate_uses_signed_approval_binding_not_mutable_escalation_rows() {
    let mut w = World::new(false, &["fs:vault", "db:memory"], GATE_ACTIONS);
    let mut tight = gate_caveats();
    tight[2] = j(r#"{"dim":"budget.count","action_class":"write","max":1,"window":"run"}"#);
    let man = w.manifest.clone();
    let cap = w.mint(&man, tight, vec!["budget.count:write"], FAR).unwrap();
    agent_write(&mut w, &cap, "inbox/first.md");
    let escalation = match write_call(&mut w, &cap, "inbox/second.md") {
        Decision::Escalated { escalations } => escalations[0],
        other => panic!("expected budget escalation: {other:?}"),
    };
    w.approve_escalation(escalation, 1, "chan:tty", "local_session").unwrap();
    agent_write(&mut w, &cap, "inbox/second.md");

    // The escalation rows are mutable materialized state: changing one does
    // not change the authority the signed approval event represents.
    w.escalations[0].cap = "cap:bogus".to_string();
    w.escalations[0].key = "budget.count:other".to_string();
    let report = w.gate(&man).ok().unwrap();
    assert_eq!(field(&report, "ok"), Some(&Json::Bool(true)));
    assert_eq!(field(&report, "tool_calls"), Some(&Json::Number(JsonNumber::Int(2))));
}

#[test]
fn gate_blocks_run_that_exceeded_its_token() {
    let (mut w, cap) = gate_world(false);
    agent_write(&mut w, &cap, "inbox/ok.md");
    let man = w.manifest.clone();
    let write_only = w
        .mint(&man, vec![
            j(r#"{"dim":"action.allow","tools":["tool:vault@1.0"],"actions":["note.write"]}"#),
            j(r#"{"dim":"paths.write","globs":["**"]}"#),
        ], vec![], FAR)
        .unwrap();
    // A registered action outside the capability's allowlist, recorded with
    // lying checks, bypassing the decision path.
    w.record_tool_call(
        TOOL,
        "note.delete",
        j(r#"{"path":"inbox/a.md"}"#),
        j(&format!(r#"{{"capability":"{write_only}","action_class":"delete","paths":["inbox/a.md"]}}"#)),
        j(r#"[{"caveat":"action.allow","ok":true}]"#),
        Some("irreversible"),
    );
    assert_gate_rejects(&w, "action.allow");
}

#[test]
fn gate_rejects_undeclared_action_in_trace() {
    let (mut w, cap) = gate_world(false);
    agent_write(&mut w, &cap, "inbox/ok.md");
    w.record_tool_call(
        TOOL,
        "note.nuke",
        j("{}"),
        j(&format!(r#"{{"capability":"{cap}","action_class":"delete","paths":["inbox/a.md"]}}"#)),
        j("[]"),
        Some("irreversible"),
    );
    assert_gate_rejects(&w, "undeclared actions cannot be called");
}

#[test]
fn m7_brokered_manifest_rejects_unattributed_calls() {
    let (mut w, cap) = gate_world(true);
    agent_write(&mut w, &cap, "inbox/ok.md");
    w.record_tool_call(
        TOOL,
        "note.write",
        j(r#"{"path":"inbox/side.md"}"#),
        j(r#"{"action_class":"write","paths":["inbox/side.md"]}"#),
        j("[]"),
        Some("reversible"),
    );
    assert_gate_rejects(&w, "no capability attribution");
}

#[test]
fn m7_capability_without_grant_is_inert() {
    let (mut w, _) = gate_world(true);
    let cap = ungranted(&mut w);
    w.record_claimed_write(&cap, "inbox/ungranted.md");
    assert_gate_rejects(&w, "no verified grant event");
}

#[test]
fn m7_grant_after_effect_does_not_retroactively_authorize() {
    let (mut w, _) = gate_world(true);
    let cap = ungranted(&mut w);
    w.record_claimed_write(&cap, "inbox/late-grant.md");
    let man = w.manifest.clone();
    w.substrate(Some(&man), "grant", j(&format!(r#"{{"capability":"{cap}"}}"#)));
    assert_gate_rejects(&w, "precedes the grant");
}

#[test]
fn m7_non_grant_event_cannot_activate_capability() {
    let (mut w, _) = gate_world(true);
    let cap = ungranted(&mut w);
    let man = w.manifest.clone();
    w.substrate(Some(&man), "ratification", j(&format!(r#"{{"capability":"{cap}"}}"#)));
    w.record_claimed_write(&cap, "inbox/wrong-kind.md");
    assert_gate_rejects(&w, "no verified grant event");
}

#[test]
fn m7_grant_for_other_manifest_cannot_activate_capability() {
    let (mut w, _) = gate_world(true);
    let cap = ungranted(&mut w);
    w.substrate(Some("man:another-lineage"), "grant", j(&format!(r#"{{"capability":"{cap}"}}"#)));
    w.record_claimed_write(&cap, "inbox/wrong-manifest.md");
    assert_gate_rejects(&w, "no verified grant event");
}

#[test]
fn m7_brokered_end_to_end_gates_clean() {
    let (mut w, cap) = gate_world(true);
    let man = w.manifest.clone();
    assert_eq!(field(field(&w.manifest_json(&man), "authority").unwrap(), "mode"), Some(&Json::Str("brokered".to_string())));
    agent_write(&mut w, &cap, "inbox/c.md");
    let report = w.gate(&man).ok().unwrap();
    assert_eq!(field(&report, "ok"), Some(&Json::Bool(true)));
    // The grant precedes the effect in substrate order.
    let grant = w.rows.iter().find(|e| e.kind == "grant" && e.manifest.as_deref() == Some(man.as_str())).unwrap();
    let call = w.rows.iter().find(|e| e.kind == "tool_call").unwrap();
    assert!(grant.offset < call.offset, "grant must precede the effect");
}

#[test]
fn m7_observed_manifest_tolerates_unattributed_calls() {
    let (mut w, _) = gate_world(false);
    let man = w.manifest.clone();
    assert!(field(&w.manifest_json(&man), "authority").is_none(), "observed manifests omit authority");
    w.record_tool_call(
        TOOL,
        "note.write",
        j(r#"{"path":"inbox/side.md"}"#),
        j(r#"{"action_class":"write","paths":["inbox/side.md"]}"#),
        j("[]"),
        Some("reversible"),
    );
    let report = w.gate(&man).ok().unwrap();
    assert_eq!(field(&report, "unattributed_tool_calls"), Some(&Json::Number(JsonNumber::Int(1))));
}

#[test]
fn gate_rejects_call_attributed_to_another_manifests_capability() {
    let (mut w, old_cap) = gate_world(true);
    // Re-manifest: the old capability stays bound to the old manifest.
    w.step_boundary(true, &["fs:vault", "db:memory"]);
    w.record_claimed_write(&old_cap, "inbox/x.md");
    assert_gate_rejects(&w, "different manifest");
}

#[test]
fn gate_fails_closed_on_unresolvable_capability_attribution() {
    let (mut w, cap) = gate_world(true);
    agent_write(&mut w, &cap, "inbox/ok.md");
    w.record_claimed_write("cap:0000000000000000000000000000000000000000000000000000000000000000", "inbox/ghost.md");
    let man = w.manifest.clone();
    assert!(w.gate(&man).is_err(), "unresolvable capability attribution must refuse promotion");
}

#[test]
fn m7_brokered_run_with_two_grants_gates_clean() {
    let (mut w, cap) = gate_world(true);
    let man = w.manifest.clone();
    let child = w
        .attenuate(&cap, &man, vec![
            j(r#"{"dim":"action.allow","tools":["tool:vault@1.0"],"actions":["note.write"]}"#),
            j(r#"{"dim":"paths.write","globs":["inbox/**"]}"#),
            j(r#"{"dim":"budget.count","action_class":"write","max":2,"window":"run"}"#),
            j(r#"{"dim":"approval.min_auth","min":"local_session"}"#),
        ], vec![], "2026-12-01T00:00:00Z")
        .unwrap();
    agent_write(&mut w, &cap, "inbox/parent.md");
    agent_write(&mut w, &child, "inbox/child.md");
    let report = w.gate(&man).ok().unwrap();
    assert_eq!(field(&report, "ok"), Some(&Json::Bool(true)));
    let grants: Vec<&EventRow> = w.rows.iter().filter(|e| e.kind == "grant" && e.manifest.as_deref() == Some(man.as_str())).collect();
    assert_eq!(grants.len(), 2);
}

#[test]
fn gate_catches_time_violation_the_decision_evaluator_missed() {
    let (mut w, _) = gate_world(false);
    let mut expired_window = gate_caveats();
    expired_window.push(j(r#"{"dim":"time","not_after":"2020-01-01T00:00:00Z"}"#));
    let man = w.manifest.clone();
    let cap = w.mint(&man, expired_window, vec![], FAR).unwrap();
    // Recorded as if authorized: the window says it never should have been.
    w.record_claimed_write(&cap, "inbox/late.md");
    assert_gate_rejects(&w, "time");
}

#[test]
fn si22_gate_clock_is_the_events_at_not_gate_time() {
    let (mut w, _) = gate_world(false);
    let mut closing = gate_caveats();
    // The window closes after the call's signed time but before now.
    closing.push(j(r#"{"dim":"time","not_after":"2026-07-10T00:30:00Z"}"#));
    let man = w.manifest.clone();
    let cap = w.mint(&man, closing, vec![], FAR).unwrap();
    w.record_claimed_write(&cap, "inbox/in-window.md");
    let report = w.gate(&man).ok().unwrap();
    assert_eq!(field(&report, "ok"), Some(&Json::Bool(true)));
}

#[test]
fn a22_pre_revoke_work_promotes_after_revoke() {
    let (mut w, cap) = gate_world(true);
    agent_write(&mut w, &cap, "inbox/pre.md");
    w.revoke(&cap, "operator_request", Some(("chan:tty", "local_session"))).unwrap();
    let man = w.manifest.clone();
    let report = w.gate(&man).ok().unwrap();
    assert_eq!(field(&report, "ok"), Some(&Json::Bool(true)));
    assert_eq!(field(&report, "closure_anomalies"), Some(&Json::Array(Vec::new())));
}

#[test]
fn a22_effect_recorded_after_revoke_fails_gate() {
    let (mut w, cap) = gate_world(true);
    w.revoke(&cap, "compromise", Some(("chan:tty", "local_session"))).unwrap();
    w.record_claimed_write(&cap, "inbox/post.md");
    assert_gate_rejects(&w, "revoked");
}

#[test]
fn a22_inflight_ticket_recorded_after_revoke_strands_branch() {
    let (mut w, cap) = gate_world(true);
    let ticket = match write_call(&mut w, &cap, "inbox/racy.md") {
        Decision::Allowed { ticket, .. } => ticket,
        other => panic!("{other:?}"),
    };
    w.revoke(&cap, "compromise", Some(("chan:tty", "local_session"))).unwrap();
    w.record_result(ticket);
    assert_gate_rejects(&w, "revoked");
}

#[test]
fn a22_ancestor_revoke_closes_cross_manifest_child() {
    let (mut w, parent) = gate_world(true);
    let sub = w.step_boundary(true, &["fs:vault", "db:memory"]);
    let child = w.attenuate(&parent, &sub, gate_caveats(), vec![], FAR).unwrap();
    w.revoke(&parent, "compromise", Some(("chan:tty", "local_session"))).unwrap();
    match write_call(&mut w, &child, "inbox/sub.md") {
        Decision::Denied { structural: Some(s), .. } => assert!(s.contains("revoked"), "{s}"),
        other => panic!("descendant of a closed capability must be closed: {other:?}"),
    }
    w.record_claimed_write(&child, "inbox/sub.md");
    let m = violation(w.gate(&sub));
    assert!(m.contains("revoked"), "{m}");
    assert!(m.contains(&parent), "the closed ancestor is named: {m}");
}

#[test]
fn a22_child_revoke_leaves_parent_promotable() {
    let (mut w, parent) = gate_world(true);
    let man = w.manifest.clone();
    let child = w.attenuate(&parent, &man, gate_caveats(), vec![], FAR).unwrap();
    w.revoke(&child, "compromise", Some(("chan:tty", "local_session"))).unwrap();
    agent_write(&mut w, &parent, "inbox/parent-still-live.md");
    let report = w.gate(&man).ok().unwrap();
    assert_eq!(field(&report, "ok"), Some(&Json::Bool(true)));
}

#[test]
fn a22_unsigned_revocation_row_moves_nothing() {
    let (mut w, cap) = gate_world(true);
    agent_write(&mut w, &cap, "inbox/a22.md");
    // A row shaped like a revoke, on its own span, with no valid signature.
    let man = w.manifest.clone();
    let fake_raw = j(&format!(
        r#"{{"id":"evt:fake","span":"span:fake","seq":0,"prev":null,"manifest":"{man}","at":"2026-07-12T00:00:00Z",
            "kind":"revoke","body":{{"capability":"{cap}","reason":"forged","channel":null,"auth_strength":null}},
            "sig":{{"key_id":"fabric","alg":"ed25519","value":"00"}}}}"#
    ));
    let offset = w.rows.len() as i64 + 1;
    w.rows.push(EventRow {
        offset,
        id: "evt:fake".to_string(),
        span: "span:fake".to_string(),
        seq: 0,
        prev: None,
        manifest: Some(man.clone()),
        at: "2026-07-12T00:00:00Z".to_string(),
        kind: "revoke".to_string(),
        raw: fake_raw,
    });
    // Decision time: still live.
    match write_call(&mut w, &cap, "inbox/b22.md") {
        Decision::Allowed { ticket, .. } => {
            w.record_result(ticket);
        }
        other => panic!("unsigned revoke row must move nothing: {other:?}"),
    }
    // Promotion replay: clean.
    let report = w.gate(&man).ok().unwrap();
    assert_eq!(field(&report, "ok"), Some(&Json::Bool(true)));
}

#[test]
fn a22_anomalous_manifest_revoke_still_closes_loudly() {
    let (mut w, cap) = gate_world(true);
    agent_write(&mut w, &cap, "inbox/pre-anomaly.md");
    // A verified revoke whose manifest disagrees with the target's bound
    // manifest: the closure holds and the inconsistency surfaces.
    w.substrate(Some("man:wrong"), "revoke", j(&format!(
        r#"{{"capability":"{cap}","reason":"compromise","channel":"chan:tty","auth_strength":"local_session"}}"#
    )));
    match write_call(&mut w, &cap, "inbox/x.md") {
        Decision::Denied { structural: Some(s), .. } => assert!(s.contains("revoked"), "{s}"),
        other => panic!("anomalous verified revoke must still close: {other:?}"),
    }
    let man = w.manifest.clone();
    let report = w.gate(&man).ok().unwrap();
    let anomalies = match field(&report, "closure_anomalies") {
        Some(Json::Array(a)) => a.iter().map(|x| text(x).unwrap().to_string()).collect::<Vec<_>>(),
        _ => panic!("anomalies are an array"),
    };
    assert_eq!(anomalies.len(), 1, "the anomaly is loud: {anomalies:?}");
    assert!(anomalies[0].contains("closure holds"), "{anomalies:?}");
}

#[test]
fn a22_same_id_regrant_cannot_reactivate() {
    let (mut w, cap) = gate_world(true);
    w.revoke(&cap, "compromise", Some(("chan:tty", "local_session"))).unwrap();
    let man = w.manifest.clone();
    w.substrate(Some(&man), "grant", j(&format!(r#"{{"capability":"{cap}","parent":null}}"#)));
    match write_call(&mut w, &cap, "inbox/z.md") {
        Decision::Denied { structural: Some(s), .. } => assert!(s.contains("revoked"), "{s}"),
        other => panic!("re-granted closed id must stay dead: {other:?}"),
    }
    w.record_claimed_write(&cap, "inbox/regrant.md");
    assert_gate_rejects(&w, "revoked");
}

#[test]
fn a22_revoked_before_first_grant_is_dead() {
    let (mut w, _) = gate_world(true);
    let doomed = ungranted(&mut w);
    let man = w.manifest.clone();
    w.substrate(Some(&man), "revoke", j(&format!(
        r#"{{"capability":"{doomed}","reason":"compromise","channel":"chan:tty","auth_strength":"local_session"}}"#
    )));
    w.substrate(Some(&man), "grant", j(&format!(r#"{{"capability":"{doomed}","parent":null}}"#)));
    w.record_claimed_write(&doomed, "inbox/doomed.md");
    assert_gate_rejects(&w, "revoked");
}

#[test]
fn a22_ancestor_grants_must_be_well_ordered() {
    let (mut w, _) = gate_world(true);
    let parent = ungranted(&mut w);
    let child = w.store_capability_row(Some(&parent), "2026-07-10T00:00:01Z", gate_caveats());
    let man = w.manifest.clone();
    w.substrate(Some(&man), "grant", j(&format!(r#"{{"capability":"{child}","parent":"{parent}"}}"#)));
    // Missing ancestor grant fails closed.
    w.record_claimed_write(&child, "inbox/orphan.md");
    assert_gate_rejects(&w, "no verified grant binds");
    // Granting the parent after the child is a disordered lineage.
    w.substrate(Some(&man), "grant", j(&format!(r#"{{"capability":"{parent}","parent":null}}"#)));
    assert_gate_rejects(&w, "out of order");
}

#[test]
fn a22_non_grant_event_cannot_activate_capability_in_observed_mode() {
    let (mut w, _) = gate_world(false);
    let cap = ungranted(&mut w);
    let man = w.manifest.clone();
    w.substrate(Some(&man), "verdict", j(&format!(
        r#"{{"verdict":"deny","source":"broker","capability":"{cap}","tool":"tool:vault@1.0","action":"note.write",
            "failed":[],"structural":null,"checks":[]}}"#
    )));
    w.record_claimed_write(&cap, "inbox/nogrant.md");
    assert_gate_rejects(&w, "no verified grant binds");
}
