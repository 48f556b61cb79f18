//! Payloads: no fabric object embeds sensitive content; it names the
//! content by the SHA-256 of its plaintext instead. Each payload is
//! encrypted under its own data-encryption key, wrapped under the owner's
//! key-encryption key; a shredded payload resolves to its tombstone.

use vstd::prelude::*;
use crate::json::{fields_view, lemma_fields_view_len, str_eq, Json, JsonV};
use crate::capability::cat;
use crate::keys::{decryption, dek_decrypt, dek_encrypt, sealed_under, Kek, KeyError};
use crate::promotion::address_of;

verus! {

/// What a fabric object embeds in place of content.
#[derive(Debug)]
pub struct PayloadRef {
    pub hash: String,
    pub size: u64,
    pub media_type: String,
    pub dek_id: String,
}

/// Why a payload cannot be stored or resolved.
#[derive(Debug)]
pub enum PayloadError {
    Db(rusqlite::Error),
    Crypto(KeyError),
    NotFound(String),
    Integrity { expected: String, observed: String },
    Shredded { hash: String, shredded_at: String, reason: String },
}

/// A payload reference as JSON, fields in key order.
pub open spec fn payload_ref_json_view(r: PayloadRef) -> JsonV {
    JsonV::Object(seq![
        ("dek_id"@, JsonV::Str(r.dek_id@)),
        ("hash"@, JsonV::Str(r.hash@)),
        ("media_type"@, JsonV::Str(r.media_type@)),
        ("size"@, JsonV::Int(r.size as int)),
    ])
}

/// The JSON a fabric object embeds for a payload.
pub fn payload_ref_json(r: &PayloadRef) -> (j: Json)
    ensures
        j@ == payload_ref_json_view(*r),
{
    let mut f: Vec<(String, Json)> = Vec::new();
    f.push(("dek_id".to_owned(), Json::from_str(r.dek_id.as_str())));
    f.push(("hash".to_owned(), Json::from_str(r.hash.as_str())));
    f.push(("media_type".to_owned(), Json::from_str(r.media_type.as_str())));
    f.push(("size".to_owned(), Json::from_u64(r.size)));
    proof {
        lemma_fields_view_len(f@);
        assert(fields_view(f@) =~= match payload_ref_json_view(*r) {
            JsonV::Object(x) => x,
            _ => Seq::empty(),
        });
    }
    Json::Object(f)
}

/// A payload ready to store: its reference, its wrapped key and its
/// ciphertext.
pub struct SealedPayload {
    pub reference: PayloadRef,
    pub wrap_nonce: Vec<u8>,
    pub wrapped: Vec<u8>,
    pub nonce: Vec<u8>,
    pub ciphertext: Vec<u8>,
}

/// Encrypt content under a fresh data-encryption key wrapped by `kek`. The
/// reference names the content by the address of its plaintext; the
/// ciphertext opens under the wrapped key to the content.
pub fn seal_payload(kek: &Kek, content: &[u8], media_type: &str) -> (r: Result<SealedPayload, PayloadError>)
    requires
        kek.key().len() == 32,
    ensures
        r matches Ok(p) ==> {
            &&& p.reference.hash@ == address_of(content@)
            &&& p.reference.size == content@.len()
            &&& p.reference.media_type@ == media_type@
            &&& exists|dek: Seq<u8>| {
                &&& dek.len() == 32
                &&& p.reference.dek_id@ == crate::keys::dek_id_of(dek)
                &&& #[trigger] crate::keys::aead_open(kek.key(), p.wrap_nonce@, p.wrapped@) == Some(dek)
                &&& p.wrap_nonce@.len() == 12
                &&& sealed_under(dek, content@, p.nonce@, p.ciphertext@)
            }
        },
        r matches Err(e) ==> e is Crypto,
        r is Ok <==> content@.len() <= crate::keys::aead_max_plaintext(),
{
    let hash = crate::canon::sha256_hex(content);
    let wd = match kek.new_dek() {
        Ok(w) => w,
        Err(e) => return Err(PayloadError::Crypto(e)),
    };
    let (nonce, ciphertext) = match dek_encrypt(wd.dek.as_slice(), content) {
        Ok(x) => x,
        Err(e) => return Err(PayloadError::Crypto(e)),
    };
    let reference = PayloadRef {
        hash,
        size: content.len() as u64,
        media_type: media_type.to_owned(),
        dek_id: wd.dek_id,
    };
    Ok(SealedPayload { reference, wrap_nonce: wd.wrap_nonce, wrapped: wd.wrapped, nonce, ciphertext })
}

/// A payload's stored ciphertext and wrapped key.
pub struct StoredPayload {
    pub nonce: Vec<u8>,
    pub ciphertext: Vec<u8>,
    pub wrap_nonce: Vec<u8>,
    pub wrapped: Vec<u8>,
}

/// The plaintext a stored payload resolves to under `kek`, when its key
/// unwraps and its ciphertext authenticates.
pub open spec fn opened(kek: Seq<u8>, s: StoredPayload) -> Option<Seq<u8>> {
    if s.wrap_nonce@.len() != 12 {
        None
    } else {
        match crate::keys::aead_open(kek, s.wrap_nonce@, s.wrapped@) {
            Some(dek) => if dek.len() != 32 {
                None
            } else {
                decryption(dek, s.nonce@, s.ciphertext@)
            },
            None => None,
        }
    }
}

/// Resolve a payload to its plaintext: a shredded payload resolves to its
/// tombstone (shredded-at and reason), an unknown one is not found, a key
/// or ciphertext that does not open is a crypto failure, and plaintext
/// whose address is not the requested hash is an integrity failure — a
/// substituted row can never change what a hash resolves to.
pub fn resolve_payload(
    kek: &Kek,
    hash: &str,
    tombstone: Option<(String, String)>,
    stored: Option<StoredPayload>,
) -> (r: Result<Vec<u8>, PayloadError>)
    requires
        kek.key().len() == 32,
    ensures
        match tombstone {
            Some((at, why)) => r matches Err(PayloadError::Shredded { hash: h, shredded_at: a, reason: w }) && h@ == hash@
                && a@ == at@ && w@ == why@,
            None => match stored {
                None => r matches Err(PayloadError::NotFound(h)) && h@ == hash@,
                Some(s) => match opened(kek.key(), s) {
                    None => r matches Err(PayloadError::Crypto(_)),
                    Some(p) => if address_of(p) == hash@ {
                        r matches Ok(x) && x@ == p
                    } else {
                        r matches Err(PayloadError::Integrity { expected: e, observed: o }) && e@ == hash@
                            && o@ == address_of(p)
                    },
                },
            },
        },
{
    match tombstone {
        Some((at, why)) => {
            return Err(PayloadError::Shredded { hash: hash.to_owned(), shredded_at: at, reason: why });
        },
        None => {},
    }
    let s = match stored {
        Some(s) => s,
        None => return Err(PayloadError::NotFound(hash.to_owned())),
    };
    let dek = match kek.unwrap_dek(s.wrap_nonce.as_slice(), s.wrapped.as_slice()) {
        Ok(d) => d,
        Err(e) => return Err(PayloadError::Crypto(e)),
    };
    let plaintext = match dek_decrypt(dek.as_slice(), s.nonce.as_slice(), s.ciphertext.as_slice()) {
        Ok(p) => p,
        Err(e) => return Err(PayloadError::Crypto(e)),
    };
    let observed = crate::canon::sha256_hex(plaintext.as_slice());
    if !str_eq(observed.as_str(), hash) {
        return Err(PayloadError::Integrity { expected: hash.to_owned(), observed });
    }
    Ok(plaintext)
}

/// A payload sealed by [`seal_payload`] and stored as it was resolves to
/// the content it was sealed from.
pub proof fn law_payload_roundtrip(kek: Seq<u8>, content: Seq<u8>, dek: Seq<u8>, s: StoredPayload)
    requires
        dek.len() == 32,
        s.wrap_nonce@.len() == 12,
        crate::keys::aead_open(kek, s.wrap_nonce@, s.wrapped@) == Some(dek),
        sealed_under(dek, content, s.nonce@, s.ciphertext@),
    ensures
        opened(kek, s) == Some(content),
{
}

impl KeyError {
    /// The error's message.
    pub fn text(&self) -> (r: String)
        ensures
            self matches KeyError::Malformed(p) ==> r@ == "malformed key file "@ + p@,
            self matches KeyError::Missing(p) ==> r@ == "required key file is missing: "@ + p@,
            self matches KeyError::AlreadyInitialized(p) ==> r@ == "refusing to initialize over existing or partial keystore "@ + p@,
            self matches KeyError::MalformedSecretStore(p) ==> r@ == "malformed secret store "@ + p@,
            self is Aead ==> r@ == "aead failure (wrong KEK or corrupted ciphertext)"@,
    {
        match self {
            KeyError::Io(e) => cat("io: ", crate::snapshot::io_error_text(e).as_str()),
            KeyError::Malformed(p) => cat("malformed key file ", p.as_str()),
            KeyError::Missing(p) => cat("required key file is missing: ", p.as_str()),
            KeyError::AlreadyInitialized(p) => cat("refusing to initialize over existing or partial keystore ", p.as_str()),
            KeyError::MalformedSecretStore(p) => cat("malformed secret store ", p.as_str()),
            KeyError::Aead => "aead failure (wrong KEK or corrupted ciphertext)".to_owned(),
        }
    }
}

impl PayloadError {
    /// The error's message.
    pub fn text(&self) -> (r: String)
        ensures
            self matches PayloadError::NotFound(h) ==> r@ == "payload "@ + h@ + " not found"@,
            self matches PayloadError::Integrity { expected, observed } ==> r@ == "payload integrity failure: requested "@
                + expected@ + ", decrypted "@ + observed@,
            self matches PayloadError::Shredded { hash, shredded_at, reason } ==> r@ == "payload "@ + hash@ + " shredded at "@
                + shredded_at@ + " ("@ + reason@ + ")"@,
    {
        match self {
            PayloadError::Db(e) => cat("sqlite: ", crate::trace::sqlite_error_text(e).as_str()),
            PayloadError::Crypto(e) => cat("crypto: ", e.text().as_str()),
            PayloadError::NotFound(h) => cat(&cat("payload ", h.as_str()), " not found"),
            PayloadError::Integrity { expected, observed } => cat(
                &cat(&cat("payload integrity failure: requested ", expected.as_str()), ", decrypted "),
                observed.as_str(),
            ),
            PayloadError::Shredded { hash, shredded_at, reason } => cat(
                &cat(&cat(&cat(&cat("payload ", hash.as_str()), " shredded at "), shredded_at.as_str()), " ("),
                &cat(reason.as_str(), ")"),
            ),
        }
    }
}

} // verus!
