use asf_kernel::canon::sha256_hex;
use asf_kernel::json::Json;
use asf_kernel::keys::{dek_decrypt, dek_encrypt, kek_id, w13_check_key_len, w13_parse_secret_store, Kek, KeyError, Keystore, Role};
use asf_kernel::payload::{payload_ref_json, resolve_payload, seal_payload, PayloadError, SealedPayload, StoredPayload};

fn kek() -> Kek {
    Kek::new(vec![7u8; 32])
}

fn stored(p: &SealedPayload) -> StoredPayload {
    StoredPayload {
        nonce: p.nonce.clone(),
        ciphertext: p.ciphertext.clone(),
        wrap_nonce: p.wrap_nonce.clone(),
        wrapped: p.wrapped.clone(),
    }
}

fn secrets(pairs: &[(&str, &str)]) -> Json {
    Json::Object(pairs.iter().map(|(k, v)| (k.to_string(), Json::Str(v.to_string()))).collect())
}

#[test]
fn dek_wrap_roundtrip_and_shred_semantics() {
    let kek = kek();
    let wd = kek.new_dek().unwrap();
    let (nonce, ct) = dek_encrypt(&wd.dek, b"secret payload").unwrap();

    // Unwrap from storage form and decrypt.
    let dek = kek.unwrap_dek(&wd.wrap_nonce, &wd.wrapped).unwrap();
    assert_eq!(dek_decrypt(&dek, &nonce, &ct).unwrap(), b"secret payload");

    // A different DEK cannot decrypt the ciphertext.
    let other = kek.new_dek().unwrap();
    assert!(dek_decrypt(&other.dek, &nonce, &ct).is_err());
}

#[test]
fn valid_secret_store_roundtrip() {
    let ks = Keystore::at("keys".to_string());
    assert_eq!(ks.secret_get(None, "first").unwrap(), None);
    let store = ks.secret_put(None, "first", "alpha").unwrap();
    let store = ks.secret_put(Some(&store), "second", "beta").unwrap();
    assert_eq!(ks.secret_get(Some(&store), "first").unwrap().as_deref(), Some("alpha"));
    assert_eq!(ks.secret_get(Some(&store), "second").unwrap().as_deref(), Some("beta"));
    assert_eq!(ks.secret_get(Some(&store), "absent").unwrap(), None);
    let replaced = ks.secret_put(Some(&store), "first", "gamma").unwrap();
    assert_eq!(ks.secret_get(Some(&replaced), "first").unwrap().as_deref(), Some("gamma"));
    assert_eq!(replaced, secrets(&[("first", "gamma"), ("second", "beta")]));
    let bad = Json::Object(vec![("credential".to_string(), Json::from_u64(42))]);
    assert!(matches!(ks.secret_put(Some(&bad), "credential", "x"), Err(KeyError::MalformedSecretStore(_))));
}

#[test]
fn row_substitution_cannot_change_what_a_hash_resolves_to() {
    let kek = kek();
    let a = seal_payload(&kek, b"payload a", "text/plain").unwrap();
    let b = seal_payload(&kek, b"payload b", "text/plain").unwrap();
    // a's row now carries b's nonce, ciphertext and data key.
    let substituted = stored(&b);

    assert!(matches!(
        resolve_payload(&kek, &a.reference.hash, None, Some(substituted)),
        Err(PayloadError::Integrity { expected, .. }) if expected == a.reference.hash
    ));
}

#[test]
fn sealed_payload_resolves_to_its_content() {
    let kek = kek();
    let a = seal_payload(&kek, b"hello vault", "text/plain").unwrap();
    assert_eq!(a.reference.hash, sha256_hex(b"hello vault"));
    assert!(a.reference.hash.starts_with("sha256:"));
    assert_eq!(a.reference.size, 11);
    assert_eq!(a.reference.media_type, "text/plain");
    assert!(a.reference.dek_id.starts_with("dek:"));
    assert_eq!(resolve_payload(&kek, &a.reference.hash, None, Some(stored(&a))).unwrap(), b"hello vault");

    // The same plaintext names the same content, under a fresh key.
    let again = seal_payload(&kek, b"hello vault", "text/plain").unwrap();
    assert_eq!(again.reference.hash, a.reference.hash);
    assert_ne!(again.reference.dek_id, a.reference.dek_id);
}

#[test]
fn tombstoned_payload_resolves_to_its_tombstone() {
    let kek = kek();
    let a = seal_payload(&kek, b"doomed", "text/plain").unwrap();
    let b = seal_payload(&kek, b"survivor", "text/plain").unwrap();
    let tomb = Some(("t9".to_string(), "ttl_expiry".to_string()));
    match resolve_payload(&kek, &a.reference.hash, tomb, Some(stored(&a))) {
        Err(PayloadError::Shredded { hash, shredded_at, reason }) => {
            assert_eq!(hash, a.reference.hash);
            assert_eq!(shredded_at, "t9");
            assert_eq!(reason, "ttl_expiry");
        }
        other => panic!("expected tombstone, got {other:?}"),
    }
    assert_eq!(resolve_payload(&kek, &b.reference.hash, None, Some(stored(&b))).unwrap(), b"survivor");
}

#[test]
fn unknown_payload_is_not_found_and_foreign_key_fails_to_open() {
    let kek = kek();
    let a = seal_payload(&kek, b"mine", "text/plain").unwrap();
    assert!(matches!(
        resolve_payload(&kek, &a.reference.hash, None, None),
        Err(PayloadError::NotFound(h)) if h == a.reference.hash
    ));
    let other = Kek::new(vec![9u8; 32]);
    assert!(matches!(
        resolve_payload(&other, &a.reference.hash, None, Some(stored(&a))),
        Err(PayloadError::Crypto(KeyError::Aead))
    ));
    let mut bad = stored(&a);
    bad.wrap_nonce.pop();
    assert!(matches!(
        resolve_payload(&kek, &a.reference.hash, None, Some(bad)),
        Err(PayloadError::Crypto(KeyError::Aead))
    ));
}

#[test]
fn payload_reference_json_lists_fields_in_key_order() {
    let kek = kek();
    let a = seal_payload(&kek, b"x", "text/plain").unwrap();
    let j = payload_ref_json(&a.reference);
    match j {
        Json::Object(f) => {
            let keys: Vec<&str> = f.iter().map(|(k, _)| k.as_str()).collect();
            assert_eq!(keys, vec!["dek_id", "hash", "media_type", "size"]);
        }
        _ => panic!("not an object"),
    }
}

#[test]
fn aead_failures_are_refused() {
    let kek = kek();
    let wd = kek.new_dek().unwrap();
    assert_eq!(wd.dek.len(), 32);
    assert_eq!(wd.wrap_nonce.len(), 12);
    assert!(matches!(kek.unwrap_dek(&wd.wrap_nonce[..11], &wd.wrapped), Err(KeyError::Aead)));
    let mut tampered = wd.wrapped.clone();
    tampered[0] ^= 1;
    assert!(matches!(kek.unwrap_dek(&wd.wrap_nonce, &tampered), Err(KeyError::Aead)));
    let (nonce, ct) = dek_encrypt(&wd.dek, b"text").unwrap();
    assert!(matches!(dek_decrypt(&wd.dek, &nonce[..8], &ct), Err(KeyError::Aead)));
    let mut ct2 = ct.clone();
    ct2[0] ^= 1;
    assert!(matches!(dek_decrypt(&wd.dek, &nonce, &ct2), Err(KeyError::Aead)));
}

#[test]
fn kek_identity_is_the_prefix_of_its_digest() {
    let k = kek();
    let id = kek_id(&[7u8; 32]);
    assert_eq!(k.id(), id);
    assert!(id.starts_with("kek:"));
    assert_eq!(id.len(), 4 + 16);
    let digest = sha256_hex(&[7u8; 32]);
    assert_eq!(&id[4..], &digest[7..23]);
    assert_ne!(id, kek_id(&[8u8; 32]));
}

#[test]
fn secret_store_shape_and_key_lengths_are_checked() {
    let ks = Keystore::at("keys".to_string());
    assert_eq!(ks.file("secrets.json"), "keys/secrets.json");
    assert_eq!(Keystore::at("keys/".to_string()).file("owner.kek"), "keys/owner.kek");
    assert!(matches!(ks.secret_get(None, "x"), Ok(None)));
    assert!(matches!(ks.secret_get(Some(&secrets(&[("a", "b")])), "x"), Ok(None)));
    let bad = Json::Object(vec![("credential".to_string(), Json::from_u64(42))]);
    assert!(matches!(
        ks.secret_get(Some(&bad), "credential"),
        Err(KeyError::MalformedSecretStore(p)) if p == "keys/secrets.json"
    ));
    let list = Json::Array(vec![Json::Str("not".to_string())]);
    assert!(w13_parse_secret_store("s", &list).is_err());
    assert!(w13_parse_secret_store("s", &secrets(&[("k", "v")])).is_ok());
    assert!(w13_check_key_len("owner.kek", 32, 32).is_ok());
    assert!(matches!(w13_check_key_len("owner.kek", 31, 32), Err(KeyError::Malformed(p)) if p == "owner.kek"));
    assert_eq!(Role::Fabric.file_name(), "fabric.ed25519");
    assert_eq!(Role::UserRoot.file_name(), "user_root.ed25519");
    assert_eq!(Role::AgentInstance.file_name(), "agent_instance.ed25519");
}
