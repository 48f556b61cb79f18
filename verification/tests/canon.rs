use asf_kernel::canon::{
    admit_fabric_json, compute_id, jcs_bytes, key_id, seal, sha256_hex, verify, w12_raw_number_is_in_domain,
    CanonError,
};
use asf_kernel::json::{Json, JsonNumber};
use ed25519_dalek::{Signer, SigningKey};
use serde::de::{DeserializeSeed, Deserializer, MapAccess, SeqAccess, Visitor};
use serde_json::Value;
use sha2::Digest;

/// Parse JSON text keeping every object name in document order and float
/// tokens as text, as the fabric's raw parser hands them over.
struct Raw;

impl<'de> DeserializeSeed<'de> for Raw {
    type Value = Json;
    fn deserialize<D: Deserializer<'de>>(self, d: D) -> Result<Json, D::Error> {
        d.deserialize_any(self)
    }
}

impl<'de> Visitor<'de> for Raw {
    type Value = Json;
    fn expecting(&self, f: &mut std::fmt::Formatter<'_>) -> std::fmt::Result {
        f.write_str("JSON")
    }
    fn visit_bool<E>(self, v: bool) -> Result<Json, E> {
        Ok(Json::Bool(v))
    }
    fn visit_i64<E>(self, v: i64) -> Result<Json, E> {
        Ok(Json::Number(JsonNumber::Int(v as i128)))
    }
    fn visit_u64<E>(self, v: u64) -> Result<Json, E> {
        Ok(Json::Number(JsonNumber::Int(v as i128)))
    }
    fn visit_f64<E>(self, v: f64) -> Result<Json, E> {
        let text = if v == 0.0 && v.is_sign_negative() { "-0.0".to_string() } else { v.to_string() };
        Ok(Json::Number(JsonNumber::Float(text)))
    }
    fn visit_str<E>(self, v: &str) -> Result<Json, E> {
        Ok(Json::Str(v.to_string()))
    }
    fn visit_string<E>(self, v: String) -> Result<Json, E> {
        Ok(Json::Str(v))
    }
    fn visit_unit<E>(self) -> Result<Json, E> {
        Ok(Json::Null)
    }
    fn visit_none<E>(self) -> Result<Json, E> {
        Ok(Json::Null)
    }
    fn visit_seq<A: SeqAccess<'de>>(self, mut s: A) -> Result<Json, A::Error> {
        let mut out = Vec::new();
        while let Some(v) = s.next_element_seed(Raw)? {
            out.push(v);
        }
        Ok(Json::Array(out))
    }
    fn visit_map<A: MapAccess<'de>>(self, mut m: A) -> Result<Json, A::Error> {
        let mut out = Vec::new();
        while let Some(k) = m.next_key::<String>()? {
            let v = m.next_value_seed(Raw)?;
            out.push((k, v));
        }
        Ok(Json::Object(out))
    }
}

fn parsed(raw: &str) -> Result<Json, String> {
    let mut d = serde_json::Deserializer::from_str(raw);
    let v = Raw.deserialize(&mut d).map_err(|e| e.to_string())?;
    d.end().map_err(|e| e.to_string())?;
    Ok(v)
}

fn parse_fabric_json(raw: &str) -> Result<Json, CanonError> {
    admit_fabric_json(raw, parsed(raw))
}

fn conv(v: &Value) -> Json {
    match v {
        Value::Null => Json::Null,
        Value::Bool(b) => Json::Bool(*b),
        Value::Number(n) => {
            if let Some(i) = n.as_i64() {
                Json::Number(JsonNumber::Int(i as i128))
            } else if let Some(u) = n.as_u64() {
                Json::Number(JsonNumber::Int(u as i128))
            } else {
                Json::Number(JsonNumber::Float(n.to_string()))
            }
        }
        Value::String(s) => Json::Str(s.clone()),
        Value::Array(a) => Json::Array(a.iter().map(conv).collect()),
        Value::Object(m) => Json::Object(m.iter().map(|(k, v)| (k.clone(), conv(v))).collect()),
    }
}

fn fields(j: Json) -> Vec<(String, Json)> {
    match j {
        Json::Object(f) => f,
        _ => panic!("not an object"),
    }
}

fn body(text: &str) -> Vec<(String, Json)> {
    fields(conv(&serde_json::from_str::<Value>(text).unwrap()))
}

fn field<'a>(f: &'a [(String, Json)], k: &str) -> &'a Json {
    &f.iter().find(|(n, _)| n == k).unwrap().1
}

fn set(f: &mut Vec<(String, Json)>, k: &str, v: Json) {
    match f.iter_mut().find(|(n, _)| n == k) {
        Some(e) => e.1 = v,
        None => {
            f.push((k.to_string(), v));
            f.sort_by(|a, b| a.0.cmp(&b.0));
        }
    }
}

fn dup(v: &[(String, Json)]) -> Vec<(String, Json)> {
    v.iter().map(|(k, x)| (k.clone(), x.deep_clone())).collect()
}

fn ival(n: i128) -> Json {
    Json::Number(JsonNumber::Int(n))
}

fn sk() -> SigningKey {
    SigningKey::generate(&mut rand::rngs::OsRng)
}

fn sig_value(key_id: String, value: String) -> Value {
    let mut m = serde_json::Map::new();
    m.insert("alg".into(), Value::String("ed25519".into()));
    m.insert("key_id".into(), Value::String(key_id));
    m.insert("value".into(), Value::String(value));
    Value::Object(m)
}

fn legacy_seal_without_domain_check(prefix: &str, obj: &Value, key: &SigningKey) -> Json {
    let bytes = serde_json_canonicalizer::to_vec(obj).unwrap();
    let mut sealed = obj.as_object().unwrap().clone();
    sealed.insert("id".into(), Value::String(format!("{prefix}:{}", hex::encode(sha2::Sha256::digest(&bytes)))));
    sealed.insert("sig".into(), sig_value(key_id(key.verifying_key().as_bytes()), hex::encode(key.sign(&bytes).to_bytes())));
    conv(&Value::Object(sealed))
}

fn value_of(text: &str) -> Value {
    serde_json::from_str(text).unwrap()
}

#[test]
fn jcs_rfc8785_shapes() {
    let v = conv(&value_of(r#"{"b":2,"a":1,"nested":{"y":[15,30],"x":"€"}}"#));
    let out = String::from_utf8(jcs_bytes(&v).unwrap()).unwrap();
    assert_eq!(out, r#"{"a":1,"b":2,"nested":{"x":"€","y":[15,30]}}"#);
}

#[test]
fn jcs_domain_accepts_exact_integer_boundaries_without_changing_signed_bytes() {
    let key = SigningKey::from_bytes(&[7; 32]);
    for token in ["9007199254740991", "-9007199254740991", "-0"] {
        assert!(w12_raw_number_is_in_domain(token), "{token}");
    }
    let raw = r#"{"nested":{"min":-9007199254740991},"max":9007199254740991}"#;
    let b = fields(parse_fabric_json(raw).unwrap());

    let current = seal("test", b, &key.to_bytes()).unwrap();
    let legacy = legacy_seal_without_domain_check("test", &value_of(raw), &key);
    assert_eq!(Json::Object(dup(&current)), legacy, "valid signed bytes must not change");
    assert!(verify(&Json::Object(current), key.verifying_key().as_bytes()).is_ok());

    let negative_zero = parse_fabric_json(r#"{"n":-0}"#).unwrap();
    assert_eq!(String::from_utf8(jcs_bytes(&negative_zero).unwrap()).unwrap(), r#"{"n":0}"#);
    assert!(parse_fabric_json(r#"{"escaped":"\"9007199254740992","number-shaped":"1.0"}"#).is_ok());
}

#[test]
fn jcs_domain_rejects_collisions_floats_and_duplicates_without_signing_or_accepting() {
    let key = SigningKey::from_bytes(&[9; 32]);
    for token in ["9007199254740992", "-9007199254740992", "1.0", "1e0"] {
        assert!(!w12_raw_number_is_in_domain(token), "{token}");
    }
    let invalid_values = [
        r#"{"n": 9007199254740992}"#,
        r#"{"n": -9007199254740992}"#,
        r#"{"n": 1.0}"#,
        r#"{"nested": [{"n": 1.5}]}"#,
    ];
    for value in invalid_values {
        let b = fields(conv(&value_of(value)));
        let result = seal("test", b, &key.to_bytes());
        assert!(
            matches!(result, Err(CanonError::InputDomain { .. })),
            "out-of-domain body must not receive an id or signature: {value}"
        );
    }

    for raw_float in [r#"{"n":-0.0}"#, r#"{"n":1e0}"#] {
        assert!(parse_fabric_json(raw_float).is_err());
    }

    // Adjacent integers past 2^53 canonicalize to identical bytes; both are
    // outside the accepted domain at verification.
    let left = value_of(r#"{"n": 9007199254740992}"#);
    let right = value_of(r#"{"n": 9007199254740993}"#);
    assert_eq!(serde_json_canonicalizer::to_vec(&left).unwrap(), serde_json_canonicalizer::to_vec(&right).unwrap());
    let mut collision = fields(legacy_seal_without_domain_check("test", &left, &key));
    set(&mut collision, "n", ival(9_007_199_254_740_993));
    assert!(matches!(verify(&Json::Object(collision), key.verifying_key().as_bytes()), Err(CanonError::InputDomain { .. })));

    for raw in [r#"{"x":1,"x":2}"#, r#"{"outer":{"x":1,"x":2}}"#] {
        assert!(
            matches!(parse_fabric_json(raw), Err(CanonError::RawJson(_))),
            "duplicate names must produce no accepted fabric value"
        );
    }
}

#[test]
fn jcs_language_neutral_vectors_match_reference_outcomes() {
    // Vectors of the shared input-domain corpus: (name, input, outcome).
    let accept = [
        ("integer-boundaries", r#"{"max":9007199254740991,"min":-9007199254740991}"#,
            r#"{"max":9007199254740991,"min":-9007199254740991}"#),
        ("key-order", r#"{"b":1,"a":2}"#, r#"{"a":2,"b":1}"#),
        ("negative-zero", r#"{"n":-0}"#, r#"{"n":0}"#),
    ];
    for (name, raw, canonical_text) in accept {
        let value = parse_fabric_json(raw).unwrap_or_else(|_| panic!("{name} must be accepted"));
        let canonical = String::from_utf8(jcs_bytes(&value).unwrap()).unwrap();
        assert_eq!(canonical, canonical_text, "{name}");
        assert_eq!(sha256_hex(canonical.as_bytes()), format!("sha256:{}", hex::encode(sha2::Sha256::digest(canonical.as_bytes()))), "{name}");
    }
    let reject = [
        ("too-large", r#"{"n":9007199254740992}"#),
        ("float", r#"{"n":1.5}"#),
        ("exponent", r#"{"n":1e3}"#),
        ("duplicate", r#"{"n":1,"n":2}"#),
    ];
    for (name, raw) in reject {
        assert!(parse_fabric_json(raw).is_err(), "{name} must be rejected before canonicalization");
    }
}

#[test]
fn id_excludes_id_and_sig_and_is_stable() {
    let b = body(r#"{"kind":"human","meta":{"label":"josh"}}"#);
    let sealed = seal("prin", dup(&b), &sk().to_bytes()).unwrap();
    // A different key produces a different sig but the same id: the id
    // covers the body only.
    let sealed2 = seal("prin", b, &sk().to_bytes()).unwrap();
    assert_eq!(field(&sealed, "id"), field(&sealed2, "id"));
    assert_ne!(field(&sealed, "sig"), field(&sealed2, "sig"));
    match field(&sealed, "id") {
        Json::Str(s) => assert!(s.starts_with("prin:")),
        _ => panic!("id is not a string"),
    }
}

#[test]
fn unknown_fields_are_hashed() {
    let a = body(r#"{"kind":"human"}"#);
    let mut b = dup(&a);
    set(&mut b, "future_field", Json::Bool(true));
    assert_ne!(compute_id("prin", &a).unwrap(), compute_id("prin", &b).unwrap());
}

#[test]
fn verify_roundtrip_and_tamper_detection() {
    let key = sk();
    let b = body(r#"{"kind":"agent","n":42}"#);
    let sealed = seal("prin", b, &key.to_bytes()).unwrap();
    let raw = Json::Object(dup(&sealed));
    assert!(verify(&raw, key.verifying_key().as_bytes()).is_ok());

    // Tampering with any field breaks the id check.
    let mut tampered = dup(&sealed);
    set(&mut tampered, "n", ival(43));
    assert!(matches!(verify(&Json::Object(tampered), key.verifying_key().as_bytes()), Err(CanonError::IdMismatch { .. })));

    // Recomputing the id but keeping the old sig breaks sig verification.
    let mut resealed = dup(&sealed);
    set(&mut resealed, "n", ival(43));
    let new_id = compute_id("prin", &resealed).unwrap();
    set(&mut resealed, "id", Json::Str(new_id));
    assert!(verify(&Json::Object(resealed), key.verifying_key().as_bytes()).is_err());

    // A wrong verifying key is rejected by key id before the signature.
    assert!(matches!(verify(&raw, sk().verifying_key().as_bytes()), Err(CanonError::WrongKey { .. })));
}

#[test]
fn unknown_fields_survive_reserialize() {
    let key = sk();
    let b = body(r#"{"kind":"service","x_extension":{"deep":["unknown",1,true]}}"#);
    let sealed = seal("prin", b, &key.to_bytes()).unwrap();
    let text = asf_kernel::json_text::to_json_text(&Json::Object(sealed));
    let reparsed = parse_fabric_json(&text).unwrap();
    assert!(verify(&reparsed, key.verifying_key().as_bytes()).is_ok());
}

#[test]
fn key_id_names_the_public_key() {
    let key = SigningKey::from_bytes(&[3; 32]);
    let d = sha2::Sha256::digest(key.verifying_key().as_bytes());
    assert_eq!(key_id(key.verifying_key().as_bytes()), format!("key:{}", hex::encode(&d[..16])));
}

#[test]
fn sha256_hex_is_prefixed_lowercase_hex() {
    assert_eq!(
        sha256_hex(b"abc"),
        "sha256:ba7816bf8f01cfea414140de5dae2223b00361a396177a9cb410ff61f20015ad"
    );
}

#[test]
fn canon_error_texts_name_the_failure() {
    let e = parse_fabric_json(r#"{"x":1,"x":2}"#).err().unwrap();
    assert!(e.text().contains("duplicate object name `x`"));
}

#[test]
fn seal_signs_the_canonical_body_under_the_seed_public_key() {
    let key = SigningKey::from_bytes(&[42; 32]);
    let b = body(r#"{"kind":"agent","n":7}"#);
    let bytes = jcs_bytes(&Json::Object(dup(&b))).unwrap();
    let sealed = seal("prin", b, &key.to_bytes()).unwrap();
    let sig = field(&sealed, "sig");
    assert_eq!(sig.str_at("key_id").unwrap(), key_id(key.verifying_key().as_bytes()));
    assert_eq!(sig.str_at("value").unwrap(), hex::encode(key.sign(&bytes).to_bytes()));
    assert!(verify(&Json::Object(sealed), key.verifying_key().as_bytes()).is_ok());
}

#[test]
fn canon_error_texts_are_exact() {
    assert_eq!(CanonError::MissingField("id").text(), "object has no `id` field");
    assert_eq!(
        CanonError::WrongAlg("rsa".into()).text(),
        "sig.alg is rsa, expected ed25519"
    );
    assert_eq!(
        CanonError::IdMismatch { claimed: "a".into(), computed: "b".into() }.text(),
        "id mismatch: claimed a, computed b"
    );
}
