use asf_kernel::canon::{admit_fabric_json, seal, CanonError};
use asf_kernel::json::{Json, JsonNumber};
use asf_kernel::json_text::to_json_text;
use asf_kernel::trace::{
    w19_ledger_event_view_from_rows, LedgerEventView, StoredEventRow,
    prepare_event, verified_snapshot_from_rows, verify_span_rows, w14_verified_object, EventRow, TraceError,
};
use ed25519_dalek::SigningKey;
use serde::de::{DeserializeSeed, Deserializer, MapAccess, SeqAccess, Visitor};

/// Parse JSON text keeping every object name in document order and float
/// tokens as text, as the fabric's raw parser hands them over.
struct Raw;

impl<'de> DeserializeSeed<'de> for Raw {
    type Value = Json;
    fn deserialize<D: Deserializer<'de>>(self, d: D) -> Result<Json, D::Error> {
        d.deserialize_any(self)
    }
}

impl<'de> Visitor<'de> for Raw {
    type Value = Json;
    fn expecting(&self, f: &mut std::fmt::Formatter<'_>) -> std::fmt::Result {
        f.write_str("JSON")
    }
    fn visit_bool<E>(self, v: bool) -> Result<Json, E> {
        Ok(Json::Bool(v))
    }
    fn visit_i64<E>(self, v: i64) -> Result<Json, E> {
        Ok(Json::Number(JsonNumber::Int(v as i128)))
    }
    fn visit_u64<E>(self, v: u64) -> Result<Json, E> {
        Ok(Json::Number(JsonNumber::Int(v as i128)))
    }
    fn visit_f64<E>(self, v: f64) -> Result<Json, E> {
        let text = if v == 0.0 && v.is_sign_negative() { "-0.0".to_string() } else { v.to_string() };
        Ok(Json::Number(JsonNumber::Float(text)))
    }
    fn visit_str<E>(self, v: &str) -> Result<Json, E> {
        Ok(Json::Str(v.to_string()))
    }
    fn visit_string<E>(self, v: String) -> Result<Json, E> {
        Ok(Json::Str(v))
    }
    fn visit_unit<E>(self) -> Result<Json, E> {
        Ok(Json::Null)
    }
    fn visit_none<E>(self) -> Result<Json, E> {
        Ok(Json::Null)
    }
    fn visit_seq<A: SeqAccess<'de>>(self, mut s: A) -> Result<Json, A::Error> {
        let mut out = Vec::new();
        while let Some(v) = s.next_element_seed(Raw)? {
            out.push(v);
        }
        Ok(Json::Array(out))
    }
    fn visit_map<A: MapAccess<'de>>(self, mut m: A) -> Result<Json, A::Error> {
        let mut out = Vec::new();
        while let Some(k) = m.next_key::<String>()? {
            let v = m.next_value_seed(Raw)?;
            out.push((k, v));
        }
        Ok(Json::Object(out))
    }
}

fn parsed(raw: &str) -> Result<Json, String> {
    let mut d = serde_json::Deserializer::from_str(raw);
    let v = Raw.deserialize(&mut d).map_err(|e| e.to_string())?;
    d.end().map_err(|e| e.to_string())?;
    Ok(v)
}

fn parse_fabric_json(raw: &str) -> Result<Json, CanonError> {
    admit_fabric_json(raw, parsed(raw))
}


fn key(n: u8) -> SigningKey {
    SigningKey::from_bytes(&[n; 32])
}

fn obj(text: &str) -> Json {
    parsed(text).unwrap()
}

fn field<'a>(v: &'a Json, k: &str) -> &'a Json {
    match v {
        Json::Object(f) => &f.iter().find(|(n, _)| n == k).unwrap().1,
        _ => panic!("not an object"),
    }
}

/// A minimal trace store: rows in offset order, each span's tip found by
/// scanning, as the substrate table keeps them.
struct Store {
    rows: Vec<EventRow>,
}

impl Store {
    fn new() -> Store {
        Store { rows: Vec::new() }
    }

    fn append(&mut self, sk: &SigningKey, span: &str, manifest: Option<&str>, kind: &str, body: &str, at: &str)
        -> Result<(String, i64, i64), TraceError> {
        let tip = self
            .rows
            .iter()
            .filter(|r| r.span == span)
            .max_by_key(|r| r.seq)
            .map(|r| (r.id.clone(), r.seq));
        let p = prepare_event(&sk.to_bytes(), span, manifest, kind, obj(body), at, tip)?;
        let offset = self.rows.len() as i64 + 1;
        self.rows.push(EventRow {
            offset,
            id: p.id.clone(),
            span: span.to_string(),
            seq: p.seq,
            prev: p.prev.clone(),
            manifest: manifest.map(str::to_string),
            at: at.to_string(),
            kind: kind.to_string(),
            raw: Json::Object(p.sealed),
        });
        Ok((p.id, offset, p.seq))
    }

    fn span_rows(&self, span: &str) -> Vec<EventRow> {
        let mut v: Vec<EventRow> = self.rows.iter().filter(|r| r.span == span).map(copy_row).collect();
        v.sort_by_key(|r| r.seq);
        v
    }
}

fn copy_row(r: &EventRow) -> EventRow {
    EventRow {
        offset: r.offset,
        id: r.id.clone(),
        span: r.span.clone(),
        seq: r.seq,
        prev: r.prev.clone(),
        manifest: r.manifest.clone(),
        at: r.at.clone(),
        kind: r.kind.clone(),
        raw: r.raw.deep_clone(),
    }
}

#[test]
fn chain_links_and_offsets_are_global() {
    let sk = key(1);
    let mut st = Store::new();
    let a = st.append(&sk, "span:1", None, "snapshot", r#"{"n":1}"#, "t1").ok().unwrap();
    let b = st.append(&sk, "span:2", None, "snapshot", r#"{"n":2}"#, "t2").ok().unwrap();
    let c = st.append(&sk, "span:1", Some("man:x"), "tool_call", r#"{"n":3}"#, "t3").ok().unwrap();
    assert_eq!((a.2, b.2, c.2), (0, 0, 1));
    assert_eq!((a.1, b.1, c.1), (1, 2, 3));
    let evs = st.span_rows("span:1");
    assert_eq!(*field(&evs[0].raw, "prev"), Json::Null);
    assert_eq!(*field(&evs[1].raw, "prev"), Json::Str(a.0.clone()));
    assert_eq!(verify_span_rows("span:1", &evs, sk.verifying_key().as_bytes()).ok().unwrap(), 2);
    assert_eq!(verify_span_rows("span:2", &st.span_rows("span:2"), sk.verifying_key().as_bytes()).ok().unwrap(), 1);
}

#[test]
fn unknown_kind_rejected() {
    let sk = key(2);
    let mut st = Store::new();
    assert!(matches!(
        st.append(&sk, "span:s", None, "made_up", "{}", "t"),
        Err(TraceError::UnknownKind(_))
    ));
}

#[test]
fn revoke_kind_accepted_and_expiry_kind_removed() {
    let sk = key(3);
    let mut st = Store::new();
    st.append(
        &sk,
        "span:s",
        Some("man:x"),
        "revoke",
        r#"{"capability":"cap:x","reason":"operator_request","channel":"chan:y","auth_strength":"local_session"}"#,
        "t",
    )
    .ok()
    .unwrap();
    assert!(matches!(st.append(&sk, "span:s", None, "expiry", "{}", "t"), Err(TraceError::UnknownKind(_))));
    let evs = st.span_rows("span:s");
    assert_eq!(evs.len(), 1);
    assert_eq!(evs[0].kind, "revoke");
    assert_eq!(verify_span_rows("span:s", &evs, sk.verifying_key().as_bytes()).ok().unwrap(), 1);
}

#[test]
fn tamper_after_bypassing_triggers_is_detected() {
    let sk = key(4);
    let mut st = Store::new();
    st.append(&sk, "span:s", None, "snapshot", r#"{"v":1}"#, "t1").ok().unwrap();
    st.append(&sk, "span:s", None, "tool_call", r#"{"v":2}"#, "t2").ok().unwrap();
    // Someone with raw storage access edits history.
    let text = to_json_text(&st.rows[1].raw).replace(r#""v":2"#, r#""v":999"#);
    st.rows[1].raw = obj(&text);
    let err = verify_span_rows("span:s", &st.span_rows("span:s"), sk.verifying_key().as_bytes()).err().unwrap();
    assert!(matches!(err, TraceError::ChainBroken { seq: 1, .. }));
}

#[test]
fn signed_event_index_mismatch_is_rejected_for_every_materialized_field() {
    let fields = ["id", "span", "seq", "prev", "manifest", "at", "kind"];
    for field in fields {
        let sk = key(5);
        let mut st = Store::new();
        st.append(&sk, "span:o", Some("man:original"), "revoke", r#"{"capability":"cap:x","reason":"test"}"#, "t-original")
            .ok()
            .unwrap();
        let r = &mut st.rows[0];
        match field {
            "id" => r.id = "evt:index-tamper".to_string(),
            "span" => r.span = "span:index-tamper".to_string(),
            "seq" => r.seq = 9,
            "prev" => r.prev = Some("evt:index-tamper".to_string()),
            "manifest" => r.manifest = Some("man:index-tamper".to_string()),
            "at" => r.at = "t-index-tamper".to_string(),
            _ => r.kind = "grant".to_string(),
        }
        match verified_snapshot_from_rows(&st.rows, sk.verifying_key().as_bytes()) {
            Err(TraceError::EventIndexMismatch { field: observed, .. }) => assert_eq!(observed, field),
            _ => panic!("{field} mismatch must fail at the verified-event boundary"),
        }
    }
}

#[test]
fn w12_duplicate_names_are_rejected_at_stored_fabric_ingresses() {
    let sk = key(6);
    let mut st = Store::new();
    st.append(&sk, "span:d", None, "snapshot", r#"{"n":1}"#, "t").ok().unwrap();
    let raw = to_json_text(&st.rows[0].raw).replace(r#""seq":0"#, r#""seq":0,"seq":0"#);
    assert!(admit_fabric_json(&raw, parsed(&raw)).is_err(), "duplicate-bearing event must not enter the verified trace");
    let dup = r#"{"x":1,"x":1}"#;
    assert!(parse_fabric_json(dup).is_err(), "duplicate-bearing stored object must produce no accepted fabric value");
}

#[test]
fn verified_snapshot_head_stays_with_the_rows_it_observed() {
    let sk = key(7);
    let mut st = Store::new();
    let first = st.append(&sk, "span:h", None, "snapshot", r#"{"n":1}"#, "t1").ok().unwrap();
    let observed: Vec<EventRow> = st.rows.iter().map(copy_row).collect();
    let later = st.append(&sk, "span:h", None, "snapshot", r#"{"n":2}"#, "t2").ok().unwrap();
    let snapshot = verified_snapshot_from_rows(&observed, sk.verifying_key().as_bytes()).ok().unwrap();
    assert_eq!(snapshot.head, first.1);
    assert_eq!(snapshot.events.len(), 1);
    assert!(snapshot.head < later.1, "a later commit must not race the observed head ahead of its event set");
}

#[test]
fn deleting_a_middle_event_breaks_the_chain() {
    let sk = key(8);
    let mut st = Store::new();
    for i in 0..3 {
        st.append(&sk, "span:m", None, "snapshot", &format!(r#"{{"i":{i}}}"#), "t").ok().unwrap();
    }
    st.rows.remove(1);
    assert!(verify_span_rows("span:m", &st.span_rows("span:m"), sk.verifying_key().as_bytes()).is_err());
}

fn sealed_object(prefix: &str, marker: &str, sk: &SigningKey) -> (String, String) {
    let body = vec![("marker".to_string(), Json::Str(marker.to_string()))];
    let sealed = seal(prefix, body, &sk.to_bytes()).ok().unwrap();
    let j = Json::Object(sealed);
    let id = match field(&j, "id") {
        Json::Str(s) => s.clone(),
        _ => panic!("sealed object has an id"),
    };
    (id, to_json_text(&j))
}

#[test]
fn w14_verified_object_accepts_each_expected_signed_type() {
    let sk = key(9);
    for (prefix, kind) in [("man", "manifest"), ("tool", "tool"), ("cap", "capability"), ("chan", "channel")] {
        let (id, raw) = sealed_object(prefix, kind, &sk);
        let loaded = w14_verified_object(&id, prefix, kind, kind, &raw, parsed(&raw), sk.verifying_key().as_bytes()).ok().unwrap();
        assert_eq!(*field(&loaded, "id"), Json::Str(id.clone()));
        assert_eq!(*field(&loaded, "marker"), Json::Str(kind.to_string()));
    }
}

#[test]
fn w14_verified_object_rejects_wrong_id_prefix_kind_signature_or_key() {
    let sk = key(10);
    let vk = sk.verifying_key();
    let (manifest_id, manifest_raw) = sealed_object("man", "manifest", &sk);
    assert!(matches!(
        w14_verified_object(&manifest_id, "cap", "manifest", "manifest", &manifest_raw, parsed(&manifest_raw), vk.as_bytes()),
        Err(TraceError::ObjectPrefixMismatch { .. })
    ));
    assert!(matches!(
        w14_verified_object(&manifest_id, "man", "manifest", "capability", &manifest_raw, parsed(&manifest_raw), vk.as_bytes()),
        Err(TraceError::ObjectKindMismatch { .. })
    ));
    let other = key(11);
    assert!(w14_verified_object(&manifest_id, "man", "manifest", "manifest", &manifest_raw, parsed(&manifest_raw), other.verifying_key().as_bytes())
        .is_err());
    let (capability_id, capability_raw) = sealed_object("cap", "capability", &sk);
    match w14_verified_object(&manifest_id, "man", "manifest", "manifest", &capability_raw, parsed(&capability_raw), vk.as_bytes()) {
        Err(TraceError::ObjectIdMismatch { requested, signed }) => {
            assert_eq!(requested, manifest_id);
            assert_eq!(signed, capability_id);
        }
        _ => panic!("a row holding another object must be refused"),
    }
    let widened = capability_raw.replace("capability", "widened");
    assert!(w14_verified_object(&capability_id, "cap", "capability", "capability", &widened, parsed(&widened), vk.as_bytes()).is_err());
}

/// The retained rows of a store as stored: index columns and raw text.
fn stored_rows(rows: &[EventRow]) -> Vec<StoredEventRow> {
    rows.iter()
        .map(|r| StoredEventRow {
            offset: r.offset,
            id: r.id.clone(),
            span: r.span.clone(),
            seq: r.seq,
            prev: r.prev.clone(),
            manifest: r.manifest.clone(),
            at: r.at.clone(),
            kind: r.kind.clone(),
            raw: to_json_text(&r.raw),
        })
        .collect()
}

fn ledger_view(rows: &Vec<StoredEventRow>, sk: &SigningKey) -> LedgerEventView {
    let parsed_rows: Vec<Result<Json, String>> = rows.iter().map(|r| parsed(&r.raw)).collect();
    w19_ledger_event_view_from_rows(rows, parsed_rows, sk.verifying_key().as_bytes())
}

fn assert_finding(rows: &Vec<StoredEventRow>, sk: &SigningKey, needle: &str) {
    let view = ledger_view(rows, sk);
    assert!(
        view.findings.iter().any(|finding| finding.detail.contains(needle)),
        "missing `{needle}` finding: {:?}",
        view.findings
    );
    assert!(view.w19_require_clean().is_err());
}

/// A fabric-signed event row with any kind and body, written around the
/// append path.
fn signed_row(sk: &SigningKey, kind: &str, body: Json) -> StoredEventRow {
    let fields = vec![
        ("span".to_string(), Json::Str("span:odd".to_string())),
        ("seq".to_string(), Json::Number(JsonNumber::Int(0))),
        ("prev".to_string(), Json::Null),
        ("manifest".to_string(), Json::Null),
        ("at".to_string(), Json::Str("t".to_string())),
        ("kind".to_string(), Json::Str(kind.to_string())),
        ("body".to_string(), body),
    ];
    let sealed = Json::Object(seal("evt", fields, &sk.to_bytes()).ok().unwrap());
    let id = match field(&sealed, "id") {
        Json::Str(s) => s.clone(),
        _ => panic!("sealed event has an id"),
    };
    StoredEventRow {
        offset: 1,
        id,
        span: "span:odd".to_string(),
        seq: 0,
        prev: None,
        manifest: None,
        at: "t".to_string(),
        kind: kind.to_string(),
        raw: to_json_text(&sealed),
    }
}

#[test]
fn w19_ledger_view_classifies_verified_and_anomalous_rows() {
    let sk = key(19);
    let mut st = Store::new();
    st.append(&sk, "span:a", None, "snapshot", r#"{"n":1}"#, "t").ok().unwrap();
    let clean = ledger_view(&stored_rows(&st.rows), &sk);
    assert_eq!(clean.events.len(), 1);
    assert_eq!(clean.records.len(), 1);
    assert!(clean.findings.is_empty());
    clean.w19_require_clean().unwrap();

    let mut rows = stored_rows(&st.rows);
    rows[0].raw = rows[0].raw.replace(r#""n":1"#, r#""n":9"#);
    assert_finding(&rows, &sk, "event verification failed");

    let mut st = Store::new();
    st.append(&sk, "span:a", None, "snapshot", "{}", "t").ok().unwrap();
    let mut rows = stored_rows(&st.rows);
    rows[0].kind = "grant".to_string();
    assert_finding(&rows, &sk, "index column `kind`");

    let mut rows = stored_rows(&st.rows);
    rows[0].raw = "{".to_string();
    assert_finding(&rows, &sk, "raw fabric JSON is malformed");

    let mut st = Store::new();
    st.append(&sk, "span:a", None, "snapshot", r#"{"n":1}"#, "t1").ok().unwrap();
    st.append(&sk, "span:a", None, "snapshot", r#"{"n":2}"#, "t2").ok().unwrap();
    st.append(&sk, "span:a", None, "snapshot", r#"{"n":3}"#, "t3").ok().unwrap();
    let mut rows = stored_rows(&st.rows);
    rows.remove(1);
    let view = ledger_view(&rows, &sk);
    let chain_finding = view
        .findings
        .iter()
        .find(|finding| finding.detail.contains("per-span chain verification failed"))
        .expect("middle-event deletion must produce a chain finding");
    assert_eq!(chain_finding.offset, Some(3));
    assert!(chain_finding.detail.contains("seq 2"));
    assert!(view.w19_require_clean().is_err());

    let mut st = Store::new();
    st.append(&sk, "span:a", None, "snapshot", r#"{"n":1}"#, "t1").ok().unwrap();
    st.append(&sk, "span:a", None, "snapshot", r#"{"n":2}"#, "t2").ok().unwrap();
    let mut rows = stored_rows(&st.rows);
    rows[0].offset = 2;
    rows[1].offset = 1;
    rows.swap(0, 1);
    assert_finding(&rows, &sk, "unsigned offset order contradicts signed per-span sequence");

    let rows = vec![signed_row(&sk, "made_up", Json::Object(Vec::new()))];
    assert_finding(&rows, &sk, "signed event has unknown kind");

    let rows = vec![signed_row(&sk, "snapshot", Json::Str("not-an-object".to_string()))];
    assert_finding(&rows, &sk, "signed event body is not an object");
}

#[test]
fn w19_each_bad_row_gives_its_own_findings() {
    let sk = key(20);
    let mut st = Store::new();
    st.append(&sk, "span:a", None, "snapshot", r#"{"n":1}"#, "t").ok().unwrap();
    let mut rows = stored_rows(&st.rows);
    let mut odd = signed_row(&sk, "made_up", Json::Str("not-an-object".to_string()));
    odd.offset = 2;
    rows.push(odd);
    let view = ledger_view(&rows, &sk);
    assert_eq!(view.events.len(), 2);
    let at_odd: Vec<&str> = view.findings.iter().filter(|f| f.offset == Some(2)).map(|f| f.detail.as_str()).collect();
    assert_eq!(at_odd, vec!["signed event has unknown kind `made_up`", "signed event body is not an object"]);
    assert_eq!(view.findings.len(), 2);
    assert!(view.findings.iter().all(|f| f.span.as_deref() == Some("span:odd")));
}
