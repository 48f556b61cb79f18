//! Key roles, the secret vault's contents and key identities.
//!
//! Device-held keys live as files in a keystore directory; the files
//! themselves are read and written at the edge. What is decided here: which
//! file holds which role, whether a key file has the right length, whether
//! the secret store is well formed and what it holds for a name, and the
//! identity of an owner KEK.

use vstd::prelude::*;
use crate::json::{str_eq, Json, JsonV, fields_view, lemma_fields_view_len, field_of, fields_insert, chars_lt, lemma_field_of_insert};
use crate::capability::cat;
use crate::canon::{sha256_digest, hex_encode, hex_lower, sha256_of};

verus! {

/// Keystore failures; paths are carried as text.
#[derive(Debug)]
pub enum KeyError {
    Io(std::io::Error),
    Malformed(String),
    Missing(String),
    AlreadyInitialized(String),
    MalformedSecretStore(String),
    Aead,
}

/// Well-known signing roles in the keystore.
#[derive(Debug, Clone, Copy, PartialEq, Eq, Structural)]
pub enum Role {
    UserRoot,
    Fabric,
    AgentInstance,
}

impl Role {
    /// The file that holds the role's signing key.
    pub fn file_name(self) -> (r: &'static str)
        ensures
            r@ == (match self {
                Role::UserRoot => "user_root.ed25519"@,
                Role::Fabric => "fabric.ed25519"@,
                Role::AgentInstance => "agent_instance.ed25519"@,
            }),
    {
        match self {
            Role::UserRoot => "user_root.ed25519",
            Role::Fabric => "fabric.ed25519",
            Role::AgentInstance => "agent_instance.ed25519",
        }
    }
}

/// `name` joined under directory `dir`, as a relative path component joins.
pub open spec fn path_join(dir: Seq<char>, name: Seq<char>) -> Seq<char> {
    if dir.len() == 0 {
        name
    } else if dir.last() == '/' {
        dir + name
    } else {
        dir + "/"@ + name
    }
}

pub fn join_path(dir: &str, name: &str) -> (r: String)
    ensures
        r@ == path_join(dir@, name@),
{
    let cs = crate::json::chars_of(dir);
    if cs.len() == 0 {
        name.to_owned()
    } else if cs[cs.len() - 1] == '/' {
        cat(dir, name)
    } else {
        cat(&cat(dir, "/"), name)
    }
}

/// A file-backed keystore directory. Nothing in it is ever placed in an
/// agent's context.
#[derive(Debug)]
pub struct Keystore {
    dir: String,
}

/// A secret store's contents are an object whose every value is a string.
pub open spec fn well_formed_secrets(v: JsonV) -> bool {
    match v {
        JsonV::Object(f) => forall|i: int| 0 <= i < f.len() ==> (#[trigger] f[i]).1 is Str,
        _ => false,
    }
}

impl Keystore {
    /// The keystore's directory, as text.
    pub closed spec fn view(&self) -> Seq<char> {
        self.dir@
    }

    /// The keystore rooted at `dir` (opened or initialized at the edge).
    pub fn at(dir: String) -> (r: Keystore)
        ensures
            r@ == dir@,
    {
        Keystore { dir }
    }

    /// The keystore's directory.
    pub fn dir(&self) -> (r: &str)
        ensures
            r@ == self@,
    {
        self.dir.as_str()
    }

    /// Where a key or store file of this keystore lives.
    pub fn file(&self, name: &str) -> (r: String)
        ensures
            r@ == path_join(self@, name@),
    {
        join_path(&self.dir, name)
    }

    /// The secret stored under `name`. `stored` is the secret store's
    /// parsed contents, `None` when the store does not exist (then nothing
    /// is stored). A store that is not an object of strings is malformed.
    pub fn secret_get(&self, stored: Option<&Json>, name: &str) -> (r: Result<Option<String>, KeyError>)
        ensures
            match stored {
                None => r matches Ok(None),
                Some(v) => if !well_formed_secrets(v@) {
                    r matches Err(KeyError::MalformedSecretStore(p)) && p@ == path_join(self@, "secrets.json"@)
                } else {
                    match v@.str_at(name@) {
                        Some(s) => r matches Ok(Some(x)) && x@ == s,
                        None => r matches Ok(None),
                    }
                },
            },
    {
        let v = match stored {
            None => return Ok(None),
            Some(v) => v,
        };
        match w13_parse_secret_store(&self.file("secrets.json"), v) {
            Ok(()) => {},
            Err(e) => return Err(e),
        }
        match v.str_at(name) {
            Some(s) => Ok(Some(s.to_owned())),
            None => Ok(None),
        }
    }

    /// The secret store with `value` stored under `name`. `stored` is the
    /// store's parsed contents, `None` when it does not exist yet; a store
    /// that is not an object of strings is malformed and left as it is.
    pub fn secret_put(&self, stored: Option<&Json>, name: &str, value: &str) -> (r: Result<Json, KeyError>)
        ensures
            match stored {
                Some(v) => if !well_formed_secrets(v@) {
                    r matches Err(KeyError::MalformedSecretStore(p)) && p@ == path_join(self@, "secrets.json"@)
                } else {
                    r matches Ok(j) && j@ == secret_store_put(Some(v@), name@, value@)
                },
                None => r matches Ok(j) && j@ == secret_store_put(None, name@, value@),
            },
    {
        let mut f = match stored {
            None => Vec::new(),
            Some(v) => {
                match w13_parse_secret_store(&self.file("secrets.json"), v) {
                    Ok(()) => {},
                    Err(e) => return Err(e),
                }
                match v {
                    Json::Object(f) => crate::tools::copy_fields(f),
                    _ => Vec::new(),
                }
            },
        };
        proof { lemma_fields_view_len(f@); }
        crate::canon::insert_field(&mut f, name.to_owned(), Json::from_str(value));
        Ok(Json::Object(f))
    }
}

/// The secret store after storing `value` under `name`: a store of one
/// secret when there was none; otherwise the secret is replaced in place
/// or inserted in key order.
pub open spec fn secret_store_put(stored: Option<JsonV>, name: Seq<char>, value: Seq<char>) -> JsonV {
    match stored {
        Some(JsonV::Object(f)) => JsonV::Object(fields_insert(f, name, JsonV::Str(value))),
        _ => JsonV::Object(seq![(name, JsonV::Str(value))]),
    }
}

/// Setting a string keeps every value of the store a string.
proof fn lemma_insert_keeps_strings(f: Seq<(Seq<char>, JsonV)>, k: Seq<char>, v: Seq<char>)
    requires
        forall|i: int| 0 <= i < f.len() ==> (#[trigger] f[i]).1 is Str,
    ensures
        forall|i: int| 0 <= i < fields_insert(f, k, JsonV::Str(v)).len() ==> (#[trigger] fields_insert(f, k, JsonV::Str(v))[i]).1 is Str,
    decreases f.len(),
{
    let g = fields_insert(f, k, JsonV::Str(v));
    if f.len() == 0 {
    } else if f[0].0 == k {
        assert forall|i: int| 0 <= i < g.len() implies (#[trigger] g[i]).1 is Str by {
            if i > 0 {
                assert(g[i] == f[i]);
            }
        }
    } else if chars_lt(k, f[0].0) {
        assert forall|i: int| 0 <= i < g.len() implies (#[trigger] g[i]).1 is Str by {
            if i > 0 {
                assert(g[i] == f[i - 1]);
            }
        }
    } else {
        let t = f.drop_first();
        assert forall|i: int| 0 <= i < t.len() implies (#[trigger] t[i]).1 is Str by {
            assert(t[i] == f[i + 1]);
        }
        lemma_insert_keeps_strings(t, k, v);
        let h = fields_insert(t, k, JsonV::Str(v));
        assert forall|i: int| 0 <= i < g.len() implies (#[trigger] g[i]).1 is Str by {
            if i > 0 {
                assert(g[i] == h[i - 1]);
            }
        }
    }
}

/// A secret set in a well-formed store (or in none) is what a later read
/// of its name finds; every other name reads as before, and the store stays
/// an object of strings.
pub proof fn law_secret_set_then_get(stored: Option<JsonV>, name: Seq<char>, value: Seq<char>, other: Seq<char>)
    requires
        stored matches Some(v) ==> well_formed_secrets(v),
    ensures
        well_formed_secrets(secret_store_put(stored, name, value)),
        secret_store_put(stored, name, value).str_at(name) == Some(value),
        other != name ==> secret_store_put(stored, name, value).str_at(other) == match stored {
            Some(v) => v.str_at(other),
            None => None,
        },
{
    match stored {
        Some(JsonV::Object(f)) => {
            let put = secret_store_put(stored, name, value);
            assert(put == JsonV::Object(fields_insert(f, name, JsonV::Str(value))));
            lemma_field_of_insert(f, name, JsonV::Str(value), name);
            lemma_field_of_insert(f, name, JsonV::Str(value), other);
            assert(put.get(other) == field_of(fields_insert(f, name, JsonV::Str(value)), other));
            assert(JsonV::Object(f).get(other) == field_of(f, other));
            lemma_insert_keeps_strings(f, name, value);
        },
        _ => {
            let g = seq![(name, JsonV::Str(value))];
            assert(stored is None);
            assert(secret_store_put(stored, name, value) == JsonV::Object(g));
            assert(g.drop_first() =~= Seq::<(Seq<char>, JsonV)>::empty());
            assert(field_of(g, other) == (if g[0].0 == other { Some(g[0].1) } else { field_of(g.drop_first(), other) }));
            assert(field_of(g, name) == Some(JsonV::Str(value)));
        },
    }
}

/// Check a parsed secret store: an object whose every value is a string.
pub fn w13_parse_secret_store(path: &str, map: &Json) -> (r: Result<(), KeyError>)
    ensures
        well_formed_secrets(map@) ==> r is Ok,
        !well_formed_secrets(map@) ==> (r matches Err(KeyError::MalformedSecretStore(p)) && p@ == path@),
{
    match map {
        Json::Object(f) => {
            let ghost fv = fields_view(f@);
            proof { lemma_fields_view_len(f@); }
            let mut i: usize = 0;
            while i < f.len()
                invariant
                    i <= f.len(),
                    fv == fields_view(f@),
                    fv.len() == f.len(),
                    forall|j: int| 0 <= j < i ==> (#[trigger] fv[j]).1 is Str,
                decreases f.len() - i,
            {
                assert(fv[i as int].1 == f@[i as int].1@);
                match &f[i].1 {
                    Json::Str(_) => {},
                    _ => return Err(KeyError::MalformedSecretStore(path.to_owned())),
                }
                i += 1;
            }
            Ok(())
        },
        _ => Err(KeyError::MalformedSecretStore(path.to_owned())),
    }
}

/// A required key file must hold exactly `len` bytes.
pub fn w13_check_key_len(path: &str, actual: usize, len: usize) -> (r: Result<(), KeyError>)
    ensures
        actual == len ==> r is Ok,
        actual != len ==> (r matches Err(KeyError::Malformed(p)) && p@ == path@),
{
    if actual != len {
        Err(KeyError::Malformed(path.to_owned()))
    } else {
        Ok(())
    }
}

/// The identity of an owner KEK: `kek:` and the hex of the first eight
/// bytes of the key's SHA-256.
pub fn kek_id(key: &[u8]) -> (r: String)
    ensures
        r@ == "kek:"@ + hex_lower(sha256_of(key@).take(8)),
{
    let d = sha256_digest(key);
    let mut head: Vec<u8> = Vec::new();
    let mut i: usize = 0;
    while i < 8
        invariant
            i <= 8,
            d@.len() == 32,
            head@ == d@.take(i as int),
        decreases 8 - i,
    {
        head.push(d[i]);
        i += 1;
        assert(head@ =~= d@.take(i as int));
    }
    cat("kek:", &hex_encode(head.as_slice()))
}


// ---------------------------------------------------------------------
// Data-encryption keys
// ---------------------------------------------------------------------

#[verifier::external_type_specification]
#[verifier::external_body]
pub struct ExAeadError(aes_gcm::Error);

/// What AES-256-GCM decryption of `ciphertext` under `key` and `nonce`
/// yields: the plaintext, or nothing when authentication fails.
pub uninterp spec fn aead_open(key: Seq<u8>, nonce: Seq<u8>, ciphertext: Seq<u8>) -> Option<Seq<u8>>;

/// Trusted: fills 32 bytes from the operating system's generator
/// (`rand::rngs::OsRng::fill_bytes`); claims only the length.
#[verifier::external_body]
fn random_key() -> (r: Vec<u8>)
    ensures
        r@.len() == 32,
{
    let mut b = vec![0u8; 32];
    rand::RngCore::fill_bytes(&mut rand::rngs::OsRng, &mut b);
    b
}

/// Trusted: a fresh 96-bit nonce from the operating system's generator
/// (`aes_gcm::AeadCore::generate_nonce` for `Aes256Gcm`); claims only its
/// length.
#[verifier::external_body]
fn random_nonce() -> (r: Vec<u8>)
    ensures
        r@.len() == 12,
{
    <aes_gcm::Aes256Gcm as aes_gcm::AeadCore>::generate_nonce(&mut aes_gcm::aead::OsRng).to_vec()
}

/// The longest plaintext AES-256-GCM encrypts: 2^36 bytes.
pub open spec fn aead_max_plaintext() -> int {
    0x10_0000_0000
}

/// Trusted: AES-256-GCM encryption (`aes_gcm::aead::Aead::encrypt` on
/// `Aes256Gcm`, no associated data). It fails only for a plaintext over
/// 2^36 bytes (the cipher's `P_MAX`); what it returns opens under the same
/// key and nonce to the plaintext, as authenticated encryption promises.
#[verifier::external_body]
fn aead_encrypt(key: &[u8], nonce: &[u8], plaintext: &[u8]) -> (r: Result<Vec<u8>, aes_gcm::Error>)
    requires
        key@.len() == 32,
        nonce@.len() == 12,
    ensures
        r is Ok <==> plaintext@.len() <= aead_max_plaintext(),
        r matches Ok(c) ==> aead_open(key@, nonce@, c@) == Some(plaintext@),
{
    let cipher = <aes_gcm::Aes256Gcm as aes_gcm::KeyInit>::new(aes_gcm::Key::<aes_gcm::Aes256Gcm>::from_slice(key));
    aes_gcm::aead::Aead::encrypt(&cipher, aes_gcm::Nonce::from_slice(nonce), plaintext)
}

/// Trusted: AES-256-GCM decryption (`aes_gcm::aead::Aead::decrypt` on
/// `Aes256Gcm`, no associated data). Its outcome is the named
/// [`aead_open`] of its arguments.
#[verifier::external_body]
fn aead_decrypt(key: &[u8], nonce: &[u8], ciphertext: &[u8]) -> (r: Result<Vec<u8>, aes_gcm::Error>)
    requires
        key@.len() == 32,
        nonce@.len() == 12,
    ensures
        match aead_open(key@, nonce@, ciphertext@) {
            Some(p) => r matches Ok(x) && x@ == p,
            None => r is Err,
        },
{
    let cipher = <aes_gcm::Aes256Gcm as aes_gcm::KeyInit>::new(aes_gcm::Key::<aes_gcm::Aes256Gcm>::from_slice(key));
    aes_gcm::aead::Aead::decrypt(&cipher, aes_gcm::Nonce::from_slice(nonce), ciphertext)
}

/// The identity of a data-encryption key: `dek:` and the hex of the first
/// twelve bytes of the key's SHA-256.
pub open spec fn dek_id_of(dek: Seq<u8>) -> Seq<char> {
    "dek:"@ + hex_lower(sha256_of(dek).take(12))
}

fn dek_id(dek: &[u8]) -> (r: String)
    ensures
        r@ == dek_id_of(dek@),
{
    let d = sha256_digest(dek);
    let mut head: Vec<u8> = Vec::new();
    let mut i: usize = 0;
    while i < 12
        invariant
            i <= 12,
            d@.len() == 32,
            d@ == sha256_of(dek@),
            head@ == d@.take(i as int),
        decreases 12 - i,
    {
        head.push(d[i]);
        i += 1;
        assert(head@ =~= d@.take(i as int));
    }
    cat("dek:", &hex_encode(head.as_slice()))
}

/// A key-encryption key that wraps per-payload data-encryption keys.
pub struct Kek {
    key: Vec<u8>,
    kek_id: String,
}

/// A fresh data-encryption key and its wrapped form for storage.
pub struct WrappedDek {
    pub dek_id: String,
    pub wrap_nonce: Vec<u8>,
    pub wrapped: Vec<u8>,
    /// The plain key: use it at once, never persist it.
    pub dek: Vec<u8>,
}

impl Kek {
    /// The key's bytes.
    pub closed spec fn key(&self) -> Seq<u8> {
        self.key@
    }

    /// The key's identity.
    pub closed spec fn id_view(&self) -> Seq<char> {
        self.kek_id@
    }

    /// The key's identity, as recorded beside every key it wraps.
    pub fn id(&self) -> (r: &str)
        ensures
            r@ == self.id_view(),
    {
        self.kek_id.as_str()
    }

    /// A KEK over 32 key bytes, identified by [`kek_id`].
    pub fn new(key: Vec<u8>) -> (r: Kek)
        requires
            key@.len() == 32,
        ensures
            r.key() == key@,
            r.id_view() == "kek:"@ + hex_lower(sha256_of(key@).take(8)),
    {
        let id = kek_id(key.as_slice());
        Kek { key, kek_id: id }
    }

    /// Generate a fresh data-encryption key and wrap it under this KEK
    /// (AES-256-GCM). The wrapped form opens back to the key.
    pub fn new_dek(&self) -> (r: Result<WrappedDek, KeyError>)
        requires
            self.key().len() == 32,
        ensures
            r matches Ok(w) ==> {
                &&& w.dek@.len() == 32
                &&& w.dek_id@ == dek_id_of(w.dek@)
                &&& w.wrap_nonce@.len() == 12
                &&& aead_open(self.key(), w.wrap_nonce@, w.wrapped@) == Some(w.dek@)
            },
            r is Ok,
    {
        let dek = random_key();
        let id = dek_id(dek.as_slice());
        let nonce = random_nonce();
        let wrapped = match aead_encrypt(self.key.as_slice(), nonce.as_slice(), dek.as_slice()) {
            Ok(w) => w,
            Err(_) => return Err(KeyError::Aead),
        };
        Ok(WrappedDek { dek_id: id, wrap_nonce: nonce, wrapped, dek })
    }

    /// Unwrap a stored data-encryption key. A nonce that is not twelve
    /// bytes, a wrapping that does not authenticate, or a plain key that is
    /// not 32 bytes is an AEAD failure.
    pub fn unwrap_dek(&self, wrap_nonce: &[u8], wrapped: &[u8]) -> (r: Result<Vec<u8>, KeyError>)
        requires
            self.key().len() == 32,
        ensures
            wrap_nonce@.len() != 12 ==> r matches Err(KeyError::Aead),
            wrap_nonce@.len() == 12 ==> match aead_open(self.key(), wrap_nonce@, wrapped@) {
                Some(p) => if p.len() == 32 {
                    r matches Ok(d) && d@ == p
                } else {
                    r matches Err(KeyError::Aead)
                },
                None => r matches Err(KeyError::Aead),
            },
    {
        if wrap_nonce.len() != 12 {
            return Err(KeyError::Aead);
        }
        let plain = match aead_decrypt(self.key.as_slice(), wrap_nonce, wrapped) {
            Ok(p) => p,
            Err(_) => return Err(KeyError::Aead),
        };
        if plain.len() != 32 {
            return Err(KeyError::Aead);
        }
        Ok(plain)
    }
}

/// Encrypt with a data-encryption key under a fresh nonce. Returns the
/// nonce and the ciphertext, which opens back to the plaintext.
pub fn dek_encrypt(dek: &[u8], plaintext: &[u8]) -> (r: Result<(Vec<u8>, Vec<u8>), KeyError>)
    requires
        dek@.len() == 32,
    ensures
        r matches Ok((n, c)) ==> sealed_under(dek@, plaintext@, n@, c@),
        r is Ok <==> plaintext@.len() <= aead_max_plaintext(),
        r matches Err(e) ==> e is Aead,
{
    let nonce = random_nonce();
    match aead_encrypt(dek, nonce.as_slice(), plaintext) {
        Ok(c) => Ok((nonce, c)),
        Err(_) => Err(KeyError::Aead),
    }
}

/// Decrypt with a data-encryption key. A nonce that is not twelve bytes,
/// or a ciphertext that does not authenticate, is an AEAD failure.
pub fn dek_decrypt(dek: &[u8], nonce: &[u8], ciphertext: &[u8]) -> (r: Result<Vec<u8>, KeyError>)
    requires
        dek@.len() == 32,
    ensures
        match decryption(dek@, nonce@, ciphertext@) {
            Some(p) => r matches Ok(x) && x@ == p,
            None => r matches Err(KeyError::Aead),
        },
{
    if nonce.len() != 12 {
        return Err(KeyError::Aead);
    }
    match aead_decrypt(dek, nonce, ciphertext) {
        Ok(p) => Ok(p),
        Err(_) => Err(KeyError::Aead),
    }
}

/// `ciphertext` under `nonce` is `plaintext` sealed with `dek`.
pub open spec fn sealed_under(dek: Seq<u8>, plaintext: Seq<u8>, nonce: Seq<u8>, ciphertext: Seq<u8>) -> bool {
    nonce.len() == 12 && aead_open(dek, nonce, ciphertext) == Some(plaintext)
}

/// What decrypting `ciphertext` under `dek` and `nonce` yields.
pub open spec fn decryption(dek: Seq<u8>, nonce: Seq<u8>, ciphertext: Seq<u8>) -> Option<Seq<u8>> {
    if nonce.len() != 12 {
        None
    } else {
        aead_open(dek, nonce, ciphertext)
    }
}

/// What is encrypted under a data-encryption key decrypts under it to the
/// same bytes: whatever `dek_encrypt` returns for a plaintext,
/// `dek_decrypt` turns back into that plaintext.
pub proof fn law_dek_roundtrip(dek: Seq<u8>, plaintext: Seq<u8>, nonce: Seq<u8>, ciphertext: Seq<u8>)
    requires
        sealed_under(dek, plaintext, nonce, ciphertext),
    ensures
        decryption(dek, nonce, ciphertext) == Some(plaintext),
{
}

} // verus!
