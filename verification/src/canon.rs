//! Canonical serialization, object identity, and signatures.
//!
//! The authoritative form of every fabric object is its canonical JSON (JCS,
//! RFC 8785). An object's `id` is `<prefix>:<hex sha256>` of the canonical
//! body with `id` and `sig` removed; the Ed25519 signature covers those same
//! bytes. Verification always recomputes from the raw value, so unknown
//! fields are preserved and hashed.
//!
//! Fabric JSON lives in a strict input domain: integers only, with absolute
//! value below 2^53, and no duplicate object names. Raw text is checked
//! before any value is built from it.

use vstd::prelude::*;
use crate::json::{
    chars_of, elems_view, field_of, fields_insert, fields_remove, fields_view, json_view,
    lemma_elems_view_len, lemma_elems_view_push, lemma_fields_view_len, lemma_fields_view_push, lemma_field_of_insert,
    chars_lt, push_char, str_eq, str_lt, string_of, Json, JsonNumber, JsonV,
};
use crate::json_text::{hex_digit, int_text, json_text, nat_digits, push_int, to_json_text};
use crate::capability::cat;

verus! {

#[verifier::external_type_specification]
#[verifier::external_body]
pub struct ExJsonError(serde_json::Error);

#[verifier::external_type_specification]
#[verifier::external_body]
pub struct ExSignatureError(ed25519_dalek::SignatureError);

#[verifier::external_type_specification]
#[verifier::external_body]
pub struct ExFromHexError(hex::FromHexError);

/// Why an object could not be canonicalized, identified or verified.
#[derive(Debug)]
pub enum CanonError {
    NotAnObject,
    InputDomain { path: String, detail: &'static str },
    RawJson(String),
    Jcs(serde_json::Error),
    MissingField(&'static str),
    IdMismatch { claimed: String, computed: String },
    SigEncoding(String),
    SigInvalid(ed25519_dalek::SignatureError),
    WrongAlg(String),
    WrongKey { claimed: String, expected: String },
}

// ---------------------------------------------------------------------
// The input domain over values
// ---------------------------------------------------------------------

/// 2^53: integers in the domain have absolute value strictly below it.
pub open spec fn jcs_limit() -> int {
    0x20_0000_0000_0000
}

/// The text of an object name inside a JSON pointer (`~` → `~0`, `/` → `~1`).
pub open spec fn pointer_escape(k: Seq<char>) -> Seq<char>
    decreases k.len(),
{
    if k.len() == 0 {
        Seq::empty()
    } else {
        (if k[0] == '~' {
            seq!['~', '0']
        } else if k[0] == '/' {
            seq!['~', '1']
        } else {
            seq![k[0]]
        }) + pointer_escape(k.drop_first())
    }
}

/// The first value (depth first, in field and element order) outside the
/// domain, with its pointer path and the reason.
pub open spec fn domain_err(v: JsonV, path: Seq<char>) -> Option<(Seq<char>, Seq<char>)>
    decreases v,
{
    match v {
        JsonV::Int(n) => if -jcs_limit() < n < jcs_limit() {
            None
        } else {
            Some((path, "integer absolute value must be less than 2^53"@))
        },
        JsonV::Float(_) => Some((path, "floats are forbidden"@)),
        JsonV::Array(a) => elems_err(a, path, 0),
        JsonV::Object(f) => fields_err(f, path),
        _ => None,
    }
}

pub open spec fn elems_err(a: Seq<JsonV>, path: Seq<char>, start: nat) -> Option<(Seq<char>, Seq<char>)>
    decreases a,
{
    if a.len() == 0 {
        None
    } else {
        match domain_err(a[0], path + seq!['/'] + nat_digits(start)) {
            Some(e) => Some(e),
            None => elems_err(a.drop_first(), path, start + 1),
        }
    }
}

pub open spec fn fields_err(f: Seq<(Seq<char>, JsonV)>, path: Seq<char>) -> Option<(Seq<char>, Seq<char>)>
    decreases f,
{
    if f.len() == 0 {
        None
    } else {
        match domain_err(f[0].1, path + seq!['/'] + pointer_escape(f[0].0)) {
            Some(e) => Some(e),
            None => fields_err(f.drop_first(), path),
        }
    }
}

/// The error a domain violation is reported as.
pub open spec fn domain_error_is(e: CanonError, path: Seq<char>, detail: Seq<char>) -> bool {
    match e {
        CanonError::InputDomain { path: p, detail: d } => p@ == path && d@ == detail,
        _ => false,
    }
}

fn pointer_escaped(k: &str) -> (r: String)
    ensures
        r@ == pointer_escape(k@),
{
    let cs = chars_of(k);
    let mut out = String::new();
    let mut i: usize = 0;
    assert(cs@.skip(0) =~= cs@);
    while i < cs.len()
        invariant
            i <= cs.len(),
            out@ + pointer_escape(cs@.skip(i as int)) == pointer_escape(cs@),
        decreases cs.len() - i,
    {
        let ghost before = out@;
        assert(cs@.skip(i as int).drop_first() =~= cs@.skip(i + 1));
        if cs[i] == '~' {
            push_char(&mut out, '~');
            push_char(&mut out, '0');
        } else if cs[i] == '/' {
            push_char(&mut out, '~');
            push_char(&mut out, '1');
        } else {
            push_char(&mut out, cs[i]);
        }
        i += 1;
        assert(out@ + pointer_escape(cs@.skip(i as int)) =~= before + pointer_escape(cs@.skip(i - 1)));
    }
    assert(cs@.skip(i as int) =~= Seq::<char>::empty());
    assert(out@ + Seq::<char>::empty() =~= out@);
    out
}

fn index_text(n: usize) -> (r: String)
    ensures
        r@ == nat_digits(n as nat),
{
    let mut out: Vec<char> = Vec::new();
    push_int(&mut out, n as i128);
    assert(out@ =~= nat_digits(n as nat));
    string_of(&out)
}

fn child_path(path: &str, seg: &str) -> (r: String)
    ensures
        r@ == path@ + seq!['/'] + seg@,
{
    let mut s = path.to_owned();
    push_char(&mut s, '/');
    let r = cat(s.as_str(), seg);
    assert(r@ =~= path@ + seq!['/'] + seg@);
    r
}

proof fn lemma_elems_err_step(a: Seq<JsonV>, path: Seq<char>, i: int)
    requires
        0 <= i < a.len(),
    ensures
        elems_err(a.skip(i), path, i as nat) == match domain_err(a[i], path + seq!['/'] + nat_digits(i as nat)) {
            Some(e) => Some(e),
            None => elems_err(a.skip(i + 1), path, (i + 1) as nat),
        },
{
    assert(a.skip(i)[0] == a[i]);
    assert(a.skip(i).drop_first() =~= a.skip(i + 1));
}

proof fn lemma_fields_err_step(f: Seq<(Seq<char>, JsonV)>, path: Seq<char>, i: int)
    requires
        0 <= i < f.len(),
    ensures
        fields_err(f.skip(i), path) == match domain_err(f[i].1, path + seq!['/'] + pointer_escape(f[i].0)) {
            Some(e) => Some(e),
            None => fields_err(f.skip(i + 1), path),
        },
{
    assert(f.skip(i)[0] == f[i]);
    assert(f.skip(i).drop_first() =~= f.skip(i + 1));
}

fn validate_at(value: &Json, path: &str) -> (r: Result<(), CanonError>)
    ensures
        match domain_err(value@, path@) {
            None => r is Ok,
            Some((p, d)) => r matches Err(e) && domain_error_is(e, p, d),
        },
    decreases value,
{
    match value {
        Json::Number(JsonNumber::Int(n)) => {
            if -0x20_0000_0000_0000i128 < *n && *n < 0x20_0000_0000_0000i128 {
                Ok(())
            } else {
                Err(CanonError::InputDomain { path: path.to_owned(), detail: "integer absolute value must be less than 2^53" })
            }
        },
        Json::Number(JsonNumber::Float(_)) => Err(CanonError::InputDomain { path: path.to_owned(), detail: "floats are forbidden" }),
        Json::Array(a) => {
            proof { lemma_elems_view_len(a@); }
            let ghost e = elems_view(a@);
            let mut i: usize = 0;
            assert(e.skip(0) =~= e);
            while i < a.len()
                invariant
                    i <= a.len(),
                    e == elems_view(a@),
                    e.len() == a.len(),
                    forall|j: int| 0 <= j < a.len() ==> #[trigger] e[j] == json_view(a@[j]),
                    domain_err(value@, path@) == elems_err(e.skip(i as int), path@, i as nat),
                decreases a.len() - i,
            {
                proof {
                    assert(decreases_to!(*value => *a));
                    assert(decreases_to!(*a => a@));
                    assert(decreases_to!(a@ => a@[i as int]));
                    lemma_elems_err_step(e, path@, i as int);
                }
                let p = child_path(path, index_text(i).as_str());
                match validate_at(&a[i], p.as_str()) {
                    Ok(()) => {},
                    Err(err) => return Err(err),
                }
                i += 1;
            }
            assert(e.skip(i as int).len() == 0);
            Ok(())
        },
        Json::Object(f) => {
            proof { lemma_fields_view_len(f@); }
            let ghost e = fields_view(f@);
            let mut i: usize = 0;
            assert(e.skip(0) =~= e);
            while i < f.len()
                invariant
                    i <= f.len(),
                    e == fields_view(f@),
                    e.len() == f.len(),
                    forall|j: int| 0 <= j < f.len() ==> #[trigger] e[j] == (f@[j].0@, json_view(f@[j].1)),
                    domain_err(value@, path@) == fields_err(e.skip(i as int), path@),
                decreases f.len() - i,
            {
                proof {
                    assert(decreases_to!(*value => *f));
                    assert(decreases_to!(*f => f@));
                    assert(decreases_to!(f@ => f@[i as int]));
                    assert(decreases_to!(f@[i as int] => f@[i as int].1));
                    lemma_fields_err_step(e, path@, i as int);
                }
                let p = child_path(path, pointer_escaped(f[i].0.as_str()).as_str());
                match validate_at(&f[i].1, p.as_str()) {
                    Ok(()) => {},
                    Err(err) => return Err(err),
                }
                i += 1;
            }
            assert(e.skip(i as int).len() == 0);
            Ok(())
        },
        _ => Ok(()),
    }
}

/// Enforce the fabric subset of RFC 8785's input domain: only integers whose
/// absolute value is strictly below 2^53; floats are forbidden recursively.
/// The error names the first offending value by its pointer path.
pub fn validate_jcs_domain(value: &Json) -> (r: Result<(), CanonError>)
    ensures
        match domain_err(value@, Seq::empty()) {
            None => r is Ok,
            Some((p, d)) => r matches Err(e) && domain_error_is(e, p, d),
        },
{
    let empty = String::new();
    validate_at(value, empty.as_str())
}


// ---------------------------------------------------------------------
// The input domain over raw text
// ---------------------------------------------------------------------

pub open spec fn is_digit(c: char) -> bool {
    '0' <= c <= '9'
}

/// All characters are ASCII digits.
pub open spec fn all_digits(d: Seq<char>) -> bool {
    forall|k: int| 0 <= k < d.len() ==> is_digit(#[trigger] d[k])
}

/// The value of a run of decimal digits.
pub open spec fn digits_value(d: Seq<char>) -> nat
    decreases d.len(),
{
    if d.len() == 0 {
        0
    } else {
        digits_value(d.drop_last()) * 10 + ((d.last() as int) - ('0' as int)) as nat
    }
}

/// A non-empty run of decimal digits whose value is below 2^53.
pub open spec fn small_decimal(d: Seq<char>) -> bool {
    d.len() > 0 && all_digits(d) && digits_value(d) < jcs_limit()
}

/// A raw number token is in the domain: no fraction or exponent, and an
/// (optionally signed) decimal integer of absolute value below 2^53.
pub open spec fn raw_number_in_domain(t: Seq<char>) -> bool {
    &&& !t.contains('.')
    &&& !t.contains('e')
    &&& !t.contains('E')
    &&& if t.len() > 0 && (t[0] == '-' || t[0] == '+') {
        small_decimal(t.skip(1))
    } else {
        small_decimal(t)
    }
}

/// Characters that end a number token.
pub open spec fn ends_number(c: char) -> bool {
    c == ' ' || c == '\t' || c == '\r' || c == '\n' || c == ',' || c == ']' || c == '}'
}

/// The lexical scan of raw JSON text from position `i`: string literals
/// (with backslash escapes) are skipped; a number token starts at `-` or a
/// digit and runs to the next delimiter. The result is the first token
/// outside the domain, if any.
pub open spec fn raw_scan(s: Seq<char>, i: int, in_str: bool, esc: bool, start: Option<int>) -> Option<Seq<char>>
    decreases s.len() - i,
    when 0 <= i <= s.len() && (start matches Some(st) ==> 0 <= st < i)
{
    if i >= s.len() {
        match start {
            Some(st) => if raw_number_in_domain(s.subrange(st, s.len() as int)) {
                None
            } else {
                Some(s.subrange(st, s.len() as int))
            },
            None => None,
        }
    } else if in_str {
        if esc {
            raw_scan(s, i + 1, true, false, start)
        } else if s[i] == '\\' {
            raw_scan(s, i + 1, true, true, start)
        } else if s[i] == '"' {
            raw_scan(s, i + 1, false, false, start)
        } else {
            raw_scan(s, i + 1, true, false, start)
        }
    } else if start is Some {
        if ends_number(s[i]) {
            let tok = s.subrange(start->0, i);
            if raw_number_in_domain(tok) {
                raw_scan(s, i + 1, false, false, None)
            } else {
                Some(tok)
            }
        } else {
            raw_scan(s, i + 1, false, false, start)
        }
    } else if s[i] == '"' {
        raw_scan(s, i + 1, true, false, None)
    } else if s[i] == '-' || is_digit(s[i]) {
        raw_scan(s, i + 1, false, false, Some(i))
    } else {
        raw_scan(s, i + 1, false, false, None)
    }
}

/// The message a rejected raw number token is reported with.
pub open spec fn raw_number_message(tok: Seq<char>) -> Seq<char> {
    "number `"@ + tok + "` is not an integer with absolute value less than 2^53"@
}

fn small_decimal_exec(d: &Vec<char>, from: usize) -> (r: bool)
    requires
        from <= d.len(),
    ensures
        r == small_decimal(d@.skip(from as int)),
{
    let ghost t = d@.skip(from as int);
    if from == d.len() {
        return false;
    }
    let mut v: u64 = 0;
    let mut i: usize = from;
    assert(t.take(0) =~= Seq::<char>::empty());
    while i < d.len()
        invariant
            from <= i <= d.len(),
            t == d@.skip(from as int),
            v < jcs_limit(),
            all_digits(t.take(i - from)),
            v == digits_value(t.take(i - from)),
        decreases d.len() - i,
    {
        let c = d[i];
        assert(t[i - from] == c);
        assert(t.take(i - from + 1).drop_last() =~= t.take(i - from));
        if !('0' <= c && c <= '9') {
            assert(!all_digits(t));
            return false;
        }
        let dig: u64 = (c as u32 - '0' as u32) as u64;
        assert(dig as int == (c as int) - ('0' as int));
        assert(v * 10 + dig < 0x1_0000_0000_0000_0000) by (nonlinear_arith)
            requires v < 0x20_0000_0000_0000, dig < 10;
        v = v * 10 + dig;
        i += 1;
        assert(all_digits(t.take(i - from))) by {
            assert forall|k: int| 0 <= k < t.take(i - from).len() implies is_digit(#[trigger] t.take(i - from)[k]) by {
                if k < i - from - 1 {
                    assert(t.take(i - from)[k] == t.take(i - from - 1)[k]);
                }
            }
        }
        if v >= 0x20_0000_0000_0000 {
            proof { lemma_digits_value_prefix(t, (i - from) as int); }
            return false;
        }
    }
    assert(t.take(i - from) =~= t);
    true
}

/// Digit values only grow with more digits.
proof fn lemma_digits_value_prefix(t: Seq<char>, k: int)
    requires
        0 <= k <= t.len(),
        all_digits(t.take(k)),
    ensures
        all_digits(t) ==> digits_value(t) >= digits_value(t.take(k)),
    decreases t.len() - k,
{
    if k < t.len() && all_digits(t) {
        assert(all_digits(t.take(k + 1))) by {
            assert forall|m: int| 0 <= m < t.take(k + 1).len() implies is_digit(#[trigger] t.take(k + 1)[m]) by {
                assert(t.take(k + 1)[m] == t[m]);
            }
        }
        lemma_digits_value_prefix(t, k + 1);
        assert(t.take(k + 1).drop_last() =~= t.take(k));
    } else if k == t.len() {
        assert(t.take(k) =~= t);
    }
}

/// Whether a raw number token is in the domain: no fraction or exponent,
/// and an integer of absolute value below 2^53.
pub fn w12_raw_number_is_in_domain(token: &str) -> (r: bool)
    ensures
        r == raw_number_in_domain(token@),
{
    let t = chars_of(token);
    let mut i: usize = 0;
    while i < t.len()
        invariant
            i <= t.len(),
            forall|k: int| 0 <= k < i ==> t@[k] != '.' && t@[k] != 'e' && t@[k] != 'E',
        decreases t.len() - i,
    {
        if t[i] == '.' || t[i] == 'e' || t[i] == 'E' {
            assert(t@.contains(t@[i as int]));
            return false;
        }
        i += 1;
    }
    if t.len() > 0 && (t[0] == '-' || t[0] == '+') {
        small_decimal_exec(&t, 1)
    } else {
        assert(t@.skip(0) =~= t@);
        small_decimal_exec(&t, 0)
    }
}

fn token_of(t: &Vec<char>, start: usize, end: usize) -> (r: String)
    requires
        start <= end <= t.len(),
    ensures
        r@ == t@.subrange(start as int, end as int),
{
    let mut out = String::new();
    let mut i: usize = start;
    while i < end
        invariant
            start <= i <= end,
            end <= t.len(),
            out@ == t@.subrange(start as int, i as int),
        decreases end - i,
    {
        push_char(&mut out, t[i]);
        i += 1;
        assert(out@ =~= t@.subrange(start as int, i as int));
    }
    out
}

fn raw_number_error(tok: &str) -> (r: CanonError)
    ensures
        r matches CanonError::RawJson(m) && m@ == raw_number_message(tok@),
{
    CanonError::RawJson(cat(&cat("number `", tok), "` is not an integer with absolute value less than 2^53"))
}

/// Reject raw fabric JSON whose number tokens leave the domain, before any
/// value is built from it (a parser would already have rounded them).
pub fn w12_validate_raw_numbers(raw: &str) -> (r: Result<(), CanonError>)
    ensures
        match raw_scan(raw@, 0, false, false, None) {
            None => r is Ok,
            Some(tok) => r matches Err(CanonError::RawJson(m)) && m@ == raw_number_message(tok),
        },
{
    let t = chars_of(raw);
    let ghost s = t@;
    let mut in_string = false;
    let mut escaped = false;
    let mut number_start: Option<usize> = None;
    let mut i: usize = 0;
    while i < t.len()
        invariant
            i <= t.len(),
            s == t@,
            s == raw@,
            number_start matches Some(st) ==> st < i,
            in_string ==> number_start is None,
            !in_string ==> !escaped,
            raw_scan(s, 0, false, false, None) == raw_scan(s, i as int, in_string, escaped,
                match number_start {
                    Some(st) => Some(st as int),
                    None => None,
                }),
        decreases t.len() - i,
    {
        let c = t[i];
        if in_string {
            if escaped {
                escaped = false;
            } else if c == '\\' {
                escaped = true;
            } else if c == '"' {
                in_string = false;
            }
        } else {
            match number_start {
                Some(start) => {
                    if c == ' ' || c == '\t' || c == '\r' || c == '\n' || c == ',' || c == ']' || c == '}' {
                        let tok = token_of(&t, start, i);
                        if !w12_raw_number_is_in_domain(tok.as_str()) {
                            return Err(raw_number_error(tok.as_str()));
                        }
                        number_start = None;
                    }
                },
                None => {
                    if c == '"' {
                        in_string = true;
                    } else if c == '-' || ('0' <= c && c <= '9') {
                        number_start = Some(i);
                    }
                },
            }
        }
        i += 1;
    }
    match number_start {
        Some(start) => {
            let tok = token_of(&t, start, t.len());
            if !w12_raw_number_is_in_domain(tok.as_str()) {
                return Err(raw_number_error(tok.as_str()));
            }
            Ok(())
        },
        None => Ok(()),
    }
}


// ---------------------------------------------------------------------
// Admitting parsed fabric JSON
// ---------------------------------------------------------------------

/// A parsed fabric document (objects in document order, every name kept),
/// admitted into the domain: no object names a field twice, the float `-0`
/// is read as the integer 0 and every other float is refused, and object
/// fields are put in key order.
pub open spec fn fabric_norm(v: JsonV) -> Option<JsonV>
    decreases v,
{
    match v {
        JsonV::Float(t) => if t == "-0.0"@ {
            Some(JsonV::Int(0))
        } else {
            None
        },
        JsonV::Array(a) => match elems_norm(a) {
            Some(b) => Some(JsonV::Array(b)),
            None => None,
        },
        JsonV::Object(f) => match fields_norm(f) {
            Some(g) => Some(JsonV::Object(g)),
            None => None,
        },
        _ => Some(v),
    }
}

pub open spec fn elems_norm(a: Seq<JsonV>) -> Option<Seq<JsonV>>
    decreases a,
{
    if a.len() == 0 {
        Some(Seq::empty())
    } else {
        match (elems_norm(a.drop_last()), fabric_norm(a.last())) {
            (Some(r), Some(x)) => Some(r.push(x)),
            _ => None,
        }
    }
}

pub open spec fn fields_norm(f: Seq<(Seq<char>, JsonV)>) -> Option<Seq<(Seq<char>, JsonV)>>
    decreases f,
{
    if f.len() == 0 {
        Some(Seq::empty())
    } else {
        match (fields_norm(f.drop_last()), fabric_norm(f.last().1)) {
            (Some(r), Some(x)) => if field_of(r, f.last().0) is Some {
                None
            } else {
                Some(fields_insert(r, f.last().0, x))
            },
            _ => None,
        }
    }
}

fn field_present(fields: &Vec<(String, Json)>, k: &str) -> (r: bool)
    ensures
        r == field_of(fields_view(fields@), k@) is Some,
{
    proof { lemma_fields_view_len(fields@); }
    let ghost e = fields_view(fields@);
    let mut i: usize = 0;
    assert(e.skip(0) =~= e);
    while i < fields.len()
        invariant
            i <= fields.len(),
            e == fields_view(fields@),
            e.len() == fields.len(),
            forall|j: int| 0 <= j < fields.len() ==> #[trigger] e[j] == (fields@[j].0@, json_view(fields@[j].1)),
            field_of(e, k@) == field_of(e.skip(i as int), k@),
        decreases fields.len() - i,
    {
        assert(e.skip(i as int).drop_first() =~= e.skip(i + 1));
        assert(e.skip(i as int)[0] == e[i as int]);
        if str_eq(fields[i].0.as_str(), k) {
            return true;
        }
        i += 1;
    }
    false
}

/// Put `k: v` into fields kept in key order.
pub fn insert_field(fields: &mut Vec<(String, Json)>, k: String, v: Json)
    ensures
        fields_view(final(fields)@) == fields_insert(fields_view(old(fields)@), k@, v@),
{
    proof { lemma_fields_view_len(fields@); }
    let ghost e = fields_view(fields@);
    let ghost kv = (k@, v@);
    let mut j: usize = 0;
    assert(e.skip(0) =~= e);
    assert(e.take(0) + fields_insert(e.skip(0), k@, v@) =~= fields_insert(e, k@, v@));
    while j < fields.len() && !str_eq(fields[j].0.as_str(), k.as_str()) && !str_lt(k.as_str(), fields[j].0.as_str())
        invariant
            j <= fields.len(),
            e == fields_view(fields@),
            e.len() == fields.len(),
            forall|m: int| 0 <= m < fields.len() ==> #[trigger] e[m] == (fields@[m].0@, json_view(fields@[m].1)),
            e.take(j as int) + fields_insert(e.skip(j as int), k@, v@) == fields_insert(e, k@, v@),
        decreases fields.len() - j,
    {
        proof {
            let t = e.skip(j as int);
            assert(t[0] == e[j as int]);
            assert(t.drop_first() =~= e.skip(j + 1));
            assert(fields_insert(t, k@, v@) == seq![t[0]] + fields_insert(t.drop_first(), k@, v@));
            assert(e.take(j + 1) =~= e.take(j as int) + seq![t[0]]);
            assert(e.take(j + 1) + fields_insert(e.skip(j + 1), k@, v@) =~= e.take(j as int) + fields_insert(t, k@, v@));
        }
        j += 1;
    }
    let ghost t = e.skip(j as int);
    if j < fields.len() && str_eq(fields[j].0.as_str(), k.as_str()) {
        proof {
            assert(t[0] == e[j as int]);
            assert(fields_insert(t, k@, v@) == seq![kv] + t.drop_first());
        }
        fields.set(j, (k, v));
        proof {
            lemma_fields_view_len(fields@);
            assert(fields_view(fields@) =~= e.take(j as int) + seq![kv] + t.drop_first());
        }
    } else {
        proof {
            if j < e.len() {
                assert(t[0] == e[j as int]);
                assert(fields_insert(t, k@, v@) == seq![kv] + t);
            } else {
                assert(t.len() == 0);
                assert(fields_insert(t, k@, v@) == seq![kv]);
            }
        }
        fields.insert(j, (k, v));
        proof {
            lemma_fields_view_len(fields@);
            assert(fields_view(fields@) =~= e.take(j as int) + seq![kv] + t);
        }
    }
}

fn fabric_value(doc: &Json) -> (r: Result<Json, CanonError>)
    ensures
        match fabric_norm(doc@) {
            Some(v) => r matches Ok(x) && x@ == v,
            None => r matches Err(CanonError::RawJson(_)),
        },
    decreases doc,
{
    match doc {
        Json::Number(JsonNumber::Float(t)) => {
            if str_eq(t.as_str(), "-0.0") {
                Ok(Json::Number(JsonNumber::Int(0)))
            } else {
                Err(CanonError::RawJson("floats are forbidden in fabric objects".to_owned()))
            }
        },
        Json::Array(a) => {
            proof { lemma_elems_view_len(a@); }
            let ghost e = elems_view(a@);
            let mut out: Vec<Json> = Vec::new();
            let mut i: usize = 0;
            assert(e.take(0) =~= Seq::<JsonV>::empty());
            while i < a.len()
                invariant
                    i <= a.len(),
                    e == elems_view(a@),
                    e.len() == a.len(),
                    forall|j: int| 0 <= j < a.len() ==> #[trigger] e[j] == json_view(a@[j]),
                    elems_norm(e.take(i as int)) == Some(elems_view(out@)),
                decreases a.len() - i,
            {
                proof {
                    assert(decreases_to!(*doc => *a));
                    assert(decreases_to!(*a => a@));
                    assert(decreases_to!(a@ => a@[i as int]));
                    assert(e.take(i + 1).drop_last() =~= e.take(i as int));
                    assert(e.take(i + 1).last() == e[i as int]);
                }
                match fabric_value(&a[i]) {
                    Ok(x) => {
                        proof { lemma_elems_view_push(out@, x); }
                        out.push(x);
                    },
                    Err(err) => {
                        proof { lemma_elems_norm_prefix(e, (i + 1) as int); }
                        return Err(err);
                    },
                }
                i += 1;
            }
            assert(e.take(i as int) =~= e);
            Ok(Json::Array(out))
        },
        Json::Object(f) => {
            proof { lemma_fields_view_len(f@); }
            let ghost e = fields_view(f@);
            let mut out: Vec<(String, Json)> = Vec::new();
            let mut i: usize = 0;
            assert(e.take(0) =~= Seq::<(Seq<char>, JsonV)>::empty());
            assert(fields_view(out@) =~= Seq::<(Seq<char>, JsonV)>::empty());
            while i < f.len()
                invariant
                    i <= f.len(),
                    e == fields_view(f@),
                    e.len() == f.len(),
                    forall|j: int| 0 <= j < f.len() ==> #[trigger] e[j] == (f@[j].0@, json_view(f@[j].1)),
                    fields_norm(e.take(i as int)) == Some(fields_view(out@)),
                decreases f.len() - i,
            {
                proof {
                    assert(decreases_to!(*doc => *f));
                    assert(decreases_to!(*f => f@));
                    assert(decreases_to!(f@ => f@[i as int]));
                    assert(decreases_to!(f@[i as int] => f@[i as int].1));
                    assert(e.take(i + 1).drop_last() =~= e.take(i as int));
                    assert(e.take(i + 1).last() == e[i as int]);
                }
                match fabric_value(&f[i].1) {
                    Ok(x) => {
                        if field_present(&out, f[i].0.as_str()) {
                            proof { lemma_fields_norm_prefix(e, (i + 1) as int); }
                            return Err(CanonError::RawJson(cat(&cat("duplicate object name `", f[i].0.as_str()), "`")));
                        }
                        insert_field(&mut out, f[i].0.clone(), x);
                    },
                    Err(err) => {
                        proof { lemma_fields_norm_prefix(e, (i + 1) as int); }
                        return Err(err);
                    },
                }
                i += 1;
            }
            assert(e.take(i as int) =~= e);
            Ok(Json::Object(out))
        },
        Json::Null => Ok(Json::Null),
        Json::Bool(b) => Ok(Json::Bool(*b)),
        Json::Number(JsonNumber::Int(n)) => Ok(Json::Number(JsonNumber::Int(*n))),
        Json::Str(s) => Ok(Json::Str(s.clone())),
    }
}

/// A failing prefix fails the whole array.
proof fn lemma_elems_norm_prefix(a: Seq<JsonV>, k: int)
    requires
        0 <= k <= a.len(),
        elems_norm(a.take(k)) is None,
    ensures
        elems_norm(a) is None,
    decreases a.len() - k,
{
    if k < a.len() {
        assert(a.take(k + 1).drop_last() =~= a.take(k));
        lemma_elems_norm_prefix(a, k + 1);
    } else {
        assert(a.take(k) =~= a);
    }
}

/// A failing prefix fails the whole object.
proof fn lemma_fields_norm_prefix(f: Seq<(Seq<char>, JsonV)>, k: int)
    requires
        0 <= k <= f.len(),
        fields_norm(f.take(k)) is None,
    ensures
        fields_norm(f) is None,
    decreases f.len() - k,
{
    if k < f.len() {
        assert(f.take(k + 1).drop_last() =~= f.take(k));
        lemma_fields_norm_prefix(f, k + 1);
    } else {
        assert(f.take(k) =~= f);
    }
}

/// Admit raw fabric JSON, given the text and its parse (objects in
/// document order, every name kept, or the parser's complaint). Number
/// tokens are checked on the raw text first; then the parse is refused if
/// it failed, or if it names a field twice or holds a float.
pub fn admit_fabric_json(raw: &str, parsed: Result<Json, String>) -> (r: Result<Json, CanonError>)
    ensures
        raw_scan(raw@, 0, false, false, None) matches Some(tok) ==> r matches Err(CanonError::RawJson(m))
            && m@ == raw_number_message(tok),
        raw_scan(raw@, 0, false, false, None) is None ==> match parsed {
            Err(msg) => r matches Err(CanonError::RawJson(m)) && m@ == msg@,
            Ok(doc) => match fabric_norm(doc@) {
                Some(v) => r matches Ok(x) && x@ == v,
                None => r matches Err(CanonError::RawJson(_)),
            },
        },
{
    match w12_validate_raw_numbers(raw) {
        Err(e) => return Err(e),
        Ok(()) => {},
    }
    match parsed {
        Err(msg) => Err(CanonError::RawJson(msg)),
        Ok(doc) => fabric_value(&doc),
    }
}


// ---------------------------------------------------------------------
// Canonical bytes, digests and hex
// ---------------------------------------------------------------------

/// The RFC 8785 canonical bytes that `serde_json_canonicalizer::pipe`
/// produces for a JSON text; `None` when it refuses the text.
pub uninterp spec fn jcs_canonical(text: Seq<char>) -> Option<Seq<u8>>;

/// Trusted: `serde_json_canonicalizer::pipe` parses the text with
/// `serde_json` and writes its RFC 8785 canonical form. The contract claims
/// only that the outcome is a fixed function of the text.
#[verifier::external_body]
fn jcs_pipe(text: &str) -> (r: Result<Vec<u8>, serde_json::Error>)
    ensures
        r is Ok <==> jcs_canonical(text@) is Some,
        r matches Ok(b) ==> jcs_canonical(text@) == Some(b@),
{
    match serde_json_canonicalizer::pipe(text) {
        Ok(s) => Ok(s.into_bytes()),
        Err(e) => Err(e),
    }
}

/// The SHA-256 digest of `data`.
pub uninterp spec fn sha256_of(data: Seq<u8>) -> Seq<u8>;

/// Trusted: `sha2::Sha256::digest`; the contract claims the digest is a
/// fixed function of the input, 32 bytes long.
#[verifier::external_body]
pub(crate) fn sha256_digest(data: &[u8]) -> (r: Vec<u8>)
    ensures
        r@ == sha256_of(data@),
        r@.len() == 32,
{
    <sha2::Sha256 as sha2::Digest>::digest(data).to_vec()
}

/// Lowercase hex: two digits per byte, high nibble first.
pub open spec fn hex_lower(b: Seq<u8>) -> Seq<char>
    decreases b.len(),
{
    if b.len() == 0 {
        Seq::empty()
    } else {
        seq![hex_digit((b[0] / 16) as int), hex_digit((b[0] % 16) as int)] + hex_lower(b.drop_first())
    }
}

/// Trusted: `hex::encode` writes two lowercase hex digits per byte.
#[verifier::external_body]
pub(crate) fn hex_encode(data: &[u8]) -> (r: String)
    ensures
        r@ == hex_lower(data@),
{
    hex::encode(data)
}

/// The value of a hex digit (either case).
pub open spec fn hex_value(c: char) -> Option<int> {
    if '0' <= c <= '9' {
        Some(c as int - '0' as int)
    } else if 'a' <= c <= 'f' {
        Some(c as int - 'a' as int + 10)
    } else if 'A' <= c <= 'F' {
        Some(c as int - 'A' as int + 10)
    } else {
        None
    }
}

/// The bytes a hex text denotes; `None` for odd length or a non-hex digit.
pub open spec fn hex_decoded(s: Seq<char>) -> Option<Seq<u8>>
    decreases s.len(),
{
    if s.len() == 0 {
        Some(Seq::empty())
    } else if s.len() == 1 {
        None
    } else {
        match (hex_value(s[0]), hex_value(s[1]), hex_decoded(s.skip(2))) {
            (Some(h), Some(l), Some(rest)) => Some(seq![(h * 16 + l) as u8] + rest),
            _ => None,
        }
    }
}

/// Trusted: `hex::decode` reads pairs of hex digits of either case, and
/// fails on an odd length or a non-hex digit.
#[verifier::external_body]
fn hex_decode(s: &str) -> (r: Result<Vec<u8>, hex::FromHexError>)
    ensures
        r is Ok <==> hex_decoded(s@) is Some,
        r matches Ok(b) ==> hex_decoded(s@) == Some(b@),
{
    hex::decode(s)
}

/// The bytes a hex text denotes, if it is valid hex.
pub(crate) fn hex_bytes(s: &str) -> (r: Option<Vec<u8>>)
    ensures
        match r {
            Some(b) => hex_decoded(s@) == Some(b@),
            None => hex_decoded(s@) is None,
        },
{
    match hex_decode(s) {
        Ok(b) => Some(b),
        Err(_) => None,
    }
}

/// Two hex digits per byte.
pub proof fn lemma_hex_lower_len(b: Seq<u8>)
    ensures
        hex_lower(b).len() == 2 * b.len(),
    decreases b.len(),
{
    if b.len() > 0 {
        lemma_hex_lower_len(b.drop_first());
    }
}

/// Trusted: the `Display` text of a `hex::FromHexError`; nothing is
/// claimed of it.
#[verifier::external_body]
fn hex_error_text(e: &hex::FromHexError) -> (r: String) {
    e.to_string()
}

/// Canonical (RFC 8785) bytes of JSON in the fabric input domain.
pub fn jcs_bytes(value: &Json) -> (r: Result<Vec<u8>, CanonError>)
    ensures
        domain_err(value@, Seq::empty()) matches Some((p, d)) ==> r matches Err(e) && domain_error_is(e, p, d),
        domain_err(value@, Seq::empty()) is None ==> match jcs_canonical(json_text(value@)) {
            Some(b) => r matches Ok(x) && x@ == b,
            None => r matches Err(CanonError::Jcs(_)),
        },
{
    match validate_jcs_domain(value) {
        Err(e) => return Err(e),
        Ok(()) => {},
    }
    let text = to_json_text(value);
    match jcs_pipe(text.as_str()) {
        Ok(b) => Ok(b),
        Err(e) => Err(CanonError::Jcs(e)),
    }
}

/// The hash body: the object with `id` and `sig` removed.
pub open spec fn hash_body(obj: Seq<(Seq<char>, JsonV)>) -> Seq<(Seq<char>, JsonV)> {
    fields_remove(fields_remove(obj, "id"@), "sig"@)
}

fn without_field(obj: &Vec<(String, Json)>, k: &str) -> (r: Vec<(String, Json)>)
    ensures
        fields_view(r@) == fields_remove(fields_view(obj@), k@),
{
    proof { lemma_fields_view_len(obj@); }
    let ghost e = fields_view(obj@);
    let mut out: Vec<(String, Json)> = Vec::new();
    let mut i: usize = 0;
    assert(e.skip(0) =~= e);
    assert(fields_view(out@) =~= Seq::<(Seq<char>, JsonV)>::empty());
    while i < obj.len()
        invariant
            i <= obj.len(),
            e == fields_view(obj@),
            e.len() == obj.len(),
            forall|j: int| 0 <= j < obj.len() ==> #[trigger] e[j] == (obj@[j].0@, json_view(obj@[j].1)),
            fields_view(out@) + fields_remove(e.skip(i as int), k@) == fields_remove(e, k@),
        decreases obj.len() - i,
    {
        let ghost before = fields_view(out@);
        assert(e.skip(i as int)[0] == e[i as int]);
        assert(e.skip(i as int).drop_first() =~= e.skip(i + 1));
        if !str_eq(obj[i].0.as_str(), k) {
            let item = (obj[i].0.clone(), obj[i].1.deep_clone());
            proof { lemma_fields_view_push(out@, item); }
            out.push(item);
            assert(fields_view(out@) + fields_remove(e.skip(i + 1), k@) =~= before + fields_remove(e.skip(i as int), k@));
        }
        i += 1;
    }
    assert(e.skip(i as int) =~= Seq::<(Seq<char>, JsonV)>::empty());
    assert(fields_view(out@) + Seq::<(Seq<char>, JsonV)>::empty() =~= fields_view(out@));
    out
}

fn hash_body_of(obj: &Vec<(String, Json)>) -> (r: Vec<(String, Json)>)
    ensures
        fields_view(r@) == hash_body(fields_view(obj@)),
{
    without_field(&without_field(obj, "id"), "sig")
}

/// Canonical bytes of the hash body — the message that is both hashed for
/// the id and signed.
pub fn body_bytes(obj: &Vec<(String, Json)>) -> (r: Result<Vec<u8>, CanonError>)
    ensures
        domain_err(JsonV::Object(hash_body(fields_view(obj@))), Seq::empty()) matches Some((p, d)) ==> r matches Err(e)
            && domain_error_is(e, p, d),
        domain_err(JsonV::Object(hash_body(fields_view(obj@))), Seq::empty()) is None ==> match jcs_canonical(
            json_text(JsonV::Object(hash_body(fields_view(obj@)))),
        ) {
            Some(b) => r matches Ok(x) && x@ == b,
            None => r matches Err(CanonError::Jcs(_)),
        },
{
    let body = hash_body_of(obj);
    jcs_bytes(&Json::Object(body))
}

/// `<prefix>:<hex digest>`.
pub open spec fn id_text(prefix: Seq<char>, bytes: Seq<u8>) -> Seq<char> {
    prefix + ":"@ + hex_lower(sha256_of(bytes))
}

fn id_of(prefix: &str, bytes: &Vec<u8>) -> (r: String)
    ensures
        r@ == id_text(prefix@, bytes@),
{
    let head = cat(prefix, ":");
    let r = cat(head.as_str(), hex_encode(sha256_digest(bytes.as_slice()).as_slice()).as_str());
    assert(r@ =~= id_text(prefix@, bytes@));
    r
}

/// Compute `<prefix>:<hex sha256(JCS(body without id and sig))>`.
pub fn compute_id(prefix: &str, obj: &Vec<(String, Json)>) -> (r: Result<String, CanonError>)
    ensures
        domain_err(JsonV::Object(hash_body(fields_view(obj@))), Seq::empty()) matches Some((p, d)) ==> r matches Err(e)
            && domain_error_is(e, p, d),
        domain_err(JsonV::Object(hash_body(fields_view(obj@))), Seq::empty()) is None ==> match jcs_canonical(
            json_text(JsonV::Object(hash_body(fields_view(obj@)))),
        ) {
            Some(b) => r matches Ok(x) && x@ == id_text(prefix@, b),
            None => r matches Err(CanonError::Jcs(_)),
        },
{
    match body_bytes(obj) {
        Ok(b) => Ok(id_of(prefix, &b)),
        Err(e) => Err(e),
    }
}

/// `sha256:<hex>` of arbitrary content (payload hashes, state roots).
pub fn sha256_hex(content: &[u8]) -> (r: String)
    ensures
        r@ == "sha256:"@ + hex_lower(sha256_of(content@)),
{
    cat("sha256:", hex_encode(sha256_digest(content).as_slice()).as_str())
}


// ---------------------------------------------------------------------
// Keys and signatures
// ---------------------------------------------------------------------

/// The 32 compressed public-key bytes of the Ed25519 signing key whose
/// 32-byte secret seed is `seed`.
pub uninterp spec fn ed25519_public(seed: Seq<u8>) -> Seq<u8>;

/// The 64 signature bytes that Ed25519 signing with the secret seed `seed`
/// gives over `msg`. Ed25519 signing draws no randomness, so they depend on
/// the seed and the message alone.
pub uninterp spec fn ed25519_signature(seed: Seq<u8>, msg: Seq<u8>) -> Seq<u8>;

/// The compressed encoding of the identity point: the one `R` half of an
/// honest signature that strict verification refuses (it arises only when
/// the signing nonce is a multiple of the group order).
pub open spec fn ed25519_identity() -> Seq<u8> {
    Seq::new(32, |i: int| if i == 0 { 1u8 } else { 0u8 })
}

/// Trusted: `SigningKey::from_bytes` on the secret seed, then
/// `verifying_key` and `VerifyingKey::to_bytes`. The result is named
/// [`ed25519_public`] of the seed.
#[verifier::external_body]
fn public_key_of_seed(seed: &[u8; 32]) -> (r: [u8; 32])
    ensures
        r@ == ed25519_public(seed@),
{
    ed25519_dalek::SigningKey::from_bytes(seed).verifying_key().to_bytes()
}

/// Trusted: `Signer::sign` with the signing key of the secret seed, as the
/// 64 signature bytes, named [`ed25519_signature`] of the seed and the
/// message. A signature whose `R` half is not the identity encoding is
/// accepted by strict verification under the seed's public key (the
/// identity `R` is the one small-order point that signing can produce; the
/// public key of a clamped seed is never of small order).
#[verifier::external_body]
fn sign_bytes(seed: &[u8; 32], msg: &[u8]) -> (r: Vec<u8>)
    ensures
        r@ == ed25519_signature(seed@, msg@),
        r@.len() == 64,
        r@.take(32) != ed25519_identity() ==> ed25519_accepts(ed25519_public(seed@), msg@, r@),
{
    let sk = ed25519_dalek::SigningKey::from_bytes(seed);
    ed25519_dalek::Signer::sign(&sk, msg).to_bytes().to_vec()
}

/// Whether strict Ed25519 verification accepts `sig` as a signature over
/// `msg` by the public key whose 32 compressed bytes are `pk`: the verdict
/// of `VerifyingKey::from_bytes` followed by `verify_strict`, which depends
/// on these bytes alone.
pub uninterp spec fn ed25519_accepts(pk: Seq<u8>, msg: Seq<u8>, sig: Seq<u8>) -> bool;

/// Trusted: `VerifyingKey::from_bytes` on the 32 public-key bytes, then
/// `verify_strict` over a 64-byte signature. It succeeds exactly when
/// [`ed25519_accepts`] holds of the three byte strings.
#[verifier::external_body]
fn verify_strict_bytes(pk: &[u8], msg: &[u8], sig: &[u8]) -> (r: Result<(), ed25519_dalek::SignatureError>)
    requires
        pk@.len() == 32,
        sig@.len() == 64,
    ensures
        r is Ok <==> ed25519_accepts(pk@, msg@, sig@),
{
    let key: [u8; 32] = match pk.try_into() {
        Ok(k) => k,
        Err(_) => return Err(ed25519_dalek::SignatureError::new()),
    };
    let vk = ed25519_dalek::VerifyingKey::from_bytes(&key)?;
    let s = ed25519_dalek::Signature::from_slice(sig)?;
    vk.verify_strict(msg, &s)
}

/// `key:<hex of the first 16 bytes of sha256(public key)>`.
pub open spec fn key_id_text(pk: Seq<u8>) -> Seq<char> {
    "key:"@ + hex_lower(sha256_of(pk).take(16))
}

/// The key id of a public key given by its bytes.
pub fn key_id_of_bytes(pk: &[u8]) -> (r: String)
    ensures
        r@ == key_id_text(pk@),
{
    let d = sha256_digest(pk);
    let mut head: Vec<u8> = Vec::new();
    let mut i: usize = 0;
    while i < 16
        invariant
            i <= 16,
            d@.len() == 32,
            head@ == d@.take(i as int),
        decreases 16 - i,
    {
        head.push(d[i]);
        i += 1;
        assert(head@ =~= d@.take(i as int));
    }
    cat("key:", hex_encode(head.as_slice()).as_str())
}

/// Key id for a verifying key given by its 32 compressed bytes:
/// `key:<hex sha256(pubkey)>` (first 16 bytes for legibility; the full key
/// is registered alongside).
pub fn key_id(pk: &[u8; 32]) -> (r: String)
    ensures
        r@ == key_id_text(pk@),
{
    key_id_of_bytes(pk.as_slice())
}

/// The signature record stamped on a sealed object.
pub open spec fn sig_record(kid: Seq<char>, sig: Seq<u8>) -> JsonV {
    JsonV::Object(seq![
        ("alg"@, JsonV::Str("ed25519"@)),
        ("key_id"@, JsonV::Str(kid)),
        ("value"@, JsonV::Str(hex_lower(sig))),
    ])
}

/// An object body stamped with `id` and a signature record: the key id of
/// `pk` and the signature bytes `sig`.
pub open spec fn stamped(body: Seq<(Seq<char>, JsonV)>, id: Seq<char>, pk: Seq<u8>, sig: Seq<u8>) -> Seq<(Seq<char>, JsonV)> {
    fields_insert(fields_insert(body, "id"@, JsonV::Str(id)), "sig"@, sig_record(key_id_text(pk), sig))
}

/// `r` is the hash body `body` sealed under `id` with the signing key of
/// the secret seed `seed`: the signature is the seed's Ed25519 signature
/// over the canonical bytes of the body, under the seed's public key id.
pub open spec fn sealed_as(body: Seq<(Seq<char>, JsonV)>, id: Seq<char>, seed: Seq<u8>, r: Seq<(Seq<char>, JsonV)>) -> bool {
    match jcs_canonical(json_text(JsonV::Object(body))) {
        Some(b) => r == stamped(body, id, ed25519_public(seed), ed25519_signature(seed, b)),
        None => false,
    }
}

/// Stamp `id` and `sig` onto an object body, signing with the Ed25519 key
/// whose 32-byte secret seed is `sk`. Returns the completed object. The
/// prefix is the id namespace (`man`, `evt`, `int`, …). Where the prefix
/// holds no `:` and the signature's `R` half is not the identity encoding,
/// the sealed object verifies under the key's public key.
pub fn seal(prefix: &str, obj: Vec<(String, Json)>, sk: &[u8; 32]) -> (r: Result<Vec<(String, Json)>, CanonError>)
    ensures
        domain_err(JsonV::Object(hash_body(fields_view(obj@))), Seq::empty()) matches Some((p, d)) ==> r matches Err(e)
            && domain_error_is(e, p, d),
        domain_err(JsonV::Object(hash_body(fields_view(obj@))), Seq::empty()) is None ==> match jcs_canonical(
            json_text(JsonV::Object(hash_body(fields_view(obj@)))),
        ) {
            Some(b) => r matches Ok(x) && sealed_as(hash_body(fields_view(obj@)), id_text(prefix@, b), sk@, fields_view(x@))
                && (!prefix@.contains(':') && ed25519_signature(sk@, b).take(32) != ed25519_identity()
                    ==> verifies_under(JsonV::Object(fields_view(x@)), ed25519_public(sk@))),
            None => r matches Err(CanonError::Jcs(_)),
        },
{
    let mut body = hash_body_of(&obj);
    proof {
        lemma_remove_absent(fields_view(obj@));
    }
    let bytes = match body_bytes(&body) {
        Ok(b) => b,
        Err(e) => return Err(e),
    };
    let id = id_of(prefix, &bytes);
    let sig = sign_bytes(sk, bytes.as_slice());
    let pk = public_key_of_seed(sk);
    let kid = key_id_of_bytes(pk.as_slice());
    let rec_fields = vec![
        ("alg".to_owned(), Json::from_str("ed25519")),
        ("key_id".to_owned(), Json::Str(kid)),
        ("value".to_owned(), Json::Str(hex_encode(sig.as_slice()))),
    ];
    proof { lemma_fields_view_len(rec_fields@); }
    let rec = Json::Object(rec_fields);
    assert(rec@ == sig_record(key_id_text(pk@), sig@)) by {
        assert(fields_view(rec_fields@) =~= seq![
            ("alg"@, JsonV::Str("ed25519"@)),
            ("key_id"@, JsonV::Str(key_id_text(pk@))),
            ("value"@, JsonV::Str(hex_lower(sig@))),
        ]);
    }
    let ghost b0 = fields_view(body@);
    insert_field(&mut body, "id".to_owned(), Json::Str(id));
    insert_field(&mut body, "sig".to_owned(), rec);
    assert(fields_view(body@) == stamped(b0, id_text(prefix@, bytes@), pk@, sig@));
    proof {
        if !prefix@.contains(':') && sig@.take(32) != ed25519_identity() {
            law_stamped_object_verifies(prefix@, fields_view(obj@), pk@, sig@, bytes@);
        }
    }
    Ok(body)
}

/// Removing `id` and `sig` again changes nothing.
proof fn lemma_remove_absent(obj: Seq<(Seq<char>, JsonV)>)
    ensures
        hash_body(hash_body(obj)) == hash_body(obj),
{
    lemma_remove_idem(obj, "id"@);
    lemma_remove_idem(fields_remove(obj, "id"@), "sig"@);
    lemma_remove_commute(fields_remove(obj, "id"@), "sig"@, "id"@);
    lemma_remove_idem(fields_remove(fields_remove(obj, "id"@), "sig"@), "sig"@);
}

proof fn lemma_remove_idem(f: Seq<(Seq<char>, JsonV)>, k: Seq<char>)
    ensures
        fields_remove(fields_remove(f, k), k) == fields_remove(f, k),
    decreases f.len(),
{
    if f.len() > 0 {
        lemma_remove_idem(f.drop_first(), k);
        if f[0].0 != k {
            let t = seq![f[0]] + fields_remove(f.drop_first(), k);
            assert(t[0] == f[0]);
            assert(t.drop_first() =~= fields_remove(f.drop_first(), k));
        }
    }
}

proof fn lemma_remove_commute(f: Seq<(Seq<char>, JsonV)>, a: Seq<char>, b: Seq<char>)
    ensures
        fields_remove(fields_remove(f, a), b) == fields_remove(fields_remove(f, b), a),
    decreases f.len(),
{
    if f.len() > 0 {
        lemma_remove_commute(f.drop_first(), a, b);
        if f[0].0 != a {
            let t = seq![f[0]] + fields_remove(f.drop_first(), a);
            assert(t[0] == f[0]);
            assert(t.drop_first() =~= fields_remove(f.drop_first(), a));
        }
        if f[0].0 != b {
            let t = seq![f[0]] + fields_remove(f.drop_first(), b);
            assert(t[0] == f[0]);
            assert(t.drop_first() =~= fields_remove(f.drop_first(), b));
        }
    }
}


// ---------------------------------------------------------------------
// Verification
// ---------------------------------------------------------------------

/// Position of the first `:` (the length when there is none).
pub open spec fn first_colon(s: Seq<char>) -> int
    decreases s.len(),
{
    if s.len() == 0 || s[0] == ':' {
        0
    } else {
        1 + first_colon(s.drop_first())
    }
}

/// The namespace of an id: everything before its first `:`.
pub open spec fn id_prefix(s: Seq<char>) -> Seq<char> {
    s.take(first_colon(s))
}

fn prefix_of(id: &str) -> (r: String)
    ensures
        r@ == id_prefix(id@),
{
    let cs = chars_of(id);
    let mut out = String::new();
    let mut i: usize = 0;
    assert(cs@.skip(0) =~= cs@);
    while i < cs.len() && cs[i] != ':'
        invariant
            i <= cs.len(),
            out@ == cs@.take(i as int),
            first_colon(cs@) == i + first_colon(cs@.skip(i as int)),
        decreases cs.len() - i,
    {
        assert(cs@.skip(i as int).drop_first() =~= cs@.skip(i + 1));
        push_char(&mut out, cs[i]);
        i += 1;
        assert(out@ =~= cs@.take(i as int));
    }
    out
}

/// Removing a field keeps an object inside the domain.
proof fn lemma_remove_in_domain(f: Seq<(Seq<char>, JsonV)>, k: Seq<char>, path: Seq<char>)
    requires
        fields_err(f, path) is None,
    ensures
        fields_err(fields_remove(f, k), path) is None,
    decreases f.len(),
{
    if f.len() > 0 {
        lemma_remove_in_domain(f.drop_first(), k, path);
        if f[0].0 != k {
            let t = seq![f[0]] + fields_remove(f.drop_first(), k);
            assert(t[0] == f[0]);
            assert(t.drop_first() =~= fields_remove(f.drop_first(), k));
        }
    }
}

/// The signature record's string field, or empty.
pub open spec fn str_or_empty(v: JsonV, key: Seq<char>) -> Seq<char> {
    match v.str_at(key) {
        Some(s) => s,
        None => Seq::empty(),
    }
}

/// Full verification of a sealed object against the fabric key given by its
/// 32 public-key bytes: recompute the id from the raw value, check that the
/// signature record is Ed25519 under the key's id, and verify the signature
/// over the same bytes. Checks run in order and the first failure is
/// reported.
pub fn verify(raw: &Json, pk: &[u8; 32]) -> (r: Result<(), CanonError>)
    ensures
        domain_err(raw@, Seq::empty()) matches Some((p, d)) ==> r matches Err(e) && domain_error_is(e, p, d),
        domain_err(raw@, Seq::empty()) is None ==> match raw@ {
            JsonV::Object(f) => match raw@.str_at("id"@) {
                None => r matches Err(CanonError::MissingField(m)) && m@ == "id"@,
                Some(cid) => match jcs_canonical(json_text(JsonV::Object(hash_body(f)))) {
                    None => r matches Err(CanonError::Jcs(_)),
                    Some(b) => if id_text(id_prefix(cid), b) != cid {
                        r matches Err(CanonError::IdMismatch { claimed, computed }) && claimed@ == cid
                            && computed@ == id_text(id_prefix(cid), b)
                    } else {
                        match raw@.get("sig"@) {
                            None => r matches Err(CanonError::MissingField(m)) && m@ == "sig"@,
                            Some(sig) => if str_or_empty(sig, "alg"@) != "ed25519"@ {
                                r matches Err(CanonError::WrongAlg(a)) && a@ == str_or_empty(sig, "alg"@)
                            } else {
                                if str_or_empty(sig, "key_id"@) != key_id_text(pk@) {
                                    r matches Err(CanonError::WrongKey { claimed, expected }) && claimed@ == str_or_empty(sig, "key_id"@)
                                        && expected@ == key_id_text(pk@)
                                } else {
                                    match sig.str_at("value"@) {
                                        None => r matches Err(CanonError::MissingField(m)) && m@ == "sig.value"@,
                                        Some(h) => match hex_decoded(h) {
                                            Some(bytes) => if bytes.len() != 64 {
                                                r matches Err(CanonError::SigEncoding(_))
                                            } else if ed25519_accepts(pk@, b, bytes) {
                                                r is Ok
                                            } else {
                                                r matches Err(CanonError::SigInvalid(_))
                                            },
                                            None => r matches Err(CanonError::SigEncoding(_)),
                                        },
                                    }
                                }
                            },
                        }
                    },
                },
            },
            _ => r matches Err(CanonError::NotAnObject),
        },
        r is Ok <==> verifies_under(raw@, pk@),
{
    verify_with_key(raw, pk.as_slice())
}

/// `raw` is a sealed object that verifies under the 32-byte public key
/// `pk`: in the fabric input domain, its id recomputes from its canonical
/// body, its signature record is Ed25519 under `pk`'s key id, and strict
/// verification accepts the signature over the same canonical bytes.
pub open spec fn verifies_under(raw: JsonV, pk: Seq<u8>) -> bool {
    if domain_err(raw, Seq::empty()) is Some {
        false
    } else {
        match raw {
            JsonV::Object(f) => match raw.str_at("id"@) {
                None => false,
                Some(cid) => match jcs_canonical(json_text(JsonV::Object(hash_body(f)))) {
                    None => false,
                    Some(b) => match raw.get("sig"@) {
                        None => false,
                        Some(sig) => match sig.str_at("value"@) {
                            None => false,
                            Some(h) => match hex_decoded(h) {
                                None => false,
                                Some(bytes) => id_text(id_prefix(cid), b) == cid && str_or_empty(sig, "alg"@) == "ed25519"@
                                    && str_or_empty(sig, "key_id"@) == key_id_text(pk) && bytes.len() == 64
                                    && ed25519_accepts(pk, b, bytes),
                            },
                        },
                    },
                },
            },
            _ => false,
        }
    }
}

/// A hash body stamped with its id, under a namespace that holds no `:`,
/// and with a signature record whose signature strict verification accepts
/// over the body's canonical bytes under `pk`, verifies under `pk`.
pub proof fn law_stamped_object_verifies(
    prefix: Seq<char>,
    obj: Seq<(Seq<char>, JsonV)>,
    pk: Seq<u8>,
    sig: Seq<u8>,
    b: Seq<u8>,
)
    requires
        domain_err(JsonV::Object(hash_body(obj)), Seq::empty()) is None,
        jcs_canonical(json_text(JsonV::Object(hash_body(obj)))) == Some(b),
        !prefix.contains(':'),
        sig.len() == 64,
        ed25519_accepts(pk, b, sig),
    ensures
        verifies_under(JsonV::Object(stamped(hash_body(obj), id_text(prefix, b), pk, sig)), pk),
{
    reveal_strlit("id");
    reveal_strlit("sig");
    let hb = hash_body(obj);
    let id = id_text(prefix, b);
    let rec = sig_record(key_id_text(pk), sig);
    let s1 = fields_insert(hb, "id"@, JsonV::Str(id));
    let s2 = fields_insert(s1, "sig"@, rec);
    let raw = JsonV::Object(s2);
    // inside the domain
    lemma_insert_in_domain(hb, "id"@, JsonV::Str(id), Seq::empty());
    lemma_sig_record(key_id_text(pk), sig, Seq::empty() + seq!['/'] + pointer_escape("sig"@));
    lemma_insert_in_domain(s1, "sig"@, rec, Seq::empty());
    // the stamped fields
    lemma_field_of_insert(hb, "id"@, JsonV::Str(id), "id"@);
    lemma_field_of_insert(s1, "sig"@, rec, "id"@);
    lemma_field_of_insert(s1, "sig"@, rec, "sig"@);
    assert(raw.str_at("id"@) == Some(id));
    assert(raw.get("sig"@) == Some(rec));
    // removing them gives the hash body back
    lemma_remove_lacks(fields_remove(obj, "id"@), "sig"@, "id"@);
    lemma_remove_lacks(obj, "id"@, "sig"@);
    lemma_insert_lacks(hb, "id"@, JsonV::Str(id), "sig"@);
    lemma_remove_insert(s1, "sig"@, rec);
    lemma_remove_insert(hb, "id"@, JsonV::Str(id));
    lemma_remove_commute(s2, "id"@, "sig"@);
    assert(hash_body(s2) == hb);
    // the id recomputes
    lemma_hex_lower_len(sha256_of(b));
    lemma_first_colon(prefix, hex_lower(sha256_of(b)));
    assert(id_prefix(id) =~= prefix);
    // the signature record
    lemma_hex_round_trip(sig);
}

/// The fields of a signature record, and that it lies inside the domain.
proof fn lemma_sig_record(kid: Seq<char>, sig: Seq<u8>, path: Seq<char>)
    ensures
        sig_record(kid, sig).str_at("alg"@) == Some("ed25519"@),
        sig_record(kid, sig).str_at("key_id"@) == Some(kid),
        sig_record(kid, sig).str_at("value"@) == Some(hex_lower(sig)),
        domain_err(sig_record(kid, sig), path) is None,
{
    reveal_strlit("alg");
    reveal_strlit("key_id");
    reveal_strlit("value");
    let f = seq![
        ("alg"@, JsonV::Str("ed25519"@)),
        ("key_id"@, JsonV::Str(kid)),
        ("value"@, JsonV::Str(hex_lower(sig))),
    ];
    assert("alg"@.len() == 3 && "key_id"@.len() == 6 && "value"@.len() == 5);
    assert(f.drop_first() =~= seq![("key_id"@, JsonV::Str(kid)), ("value"@, JsonV::Str(hex_lower(sig)))]);
    assert(f.drop_first().drop_first() =~= seq![("value"@, JsonV::Str(hex_lower(sig)))]);
    assert(f.drop_first().drop_first().drop_first() =~= Seq::<(Seq<char>, JsonV)>::empty());
    assert(field_of(f, "alg"@) == Some(JsonV::Str("ed25519"@)));
    assert(field_of(f.drop_first(), "key_id"@) == Some(JsonV::Str(kid)));
    assert(field_of(f, "key_id"@) == Some(JsonV::Str(kid)));
    assert(field_of(f.drop_first().drop_first(), "value"@) == Some(JsonV::Str(hex_lower(sig))));
    assert(field_of(f.drop_first(), "value"@) == Some(JsonV::Str(hex_lower(sig))));
    assert(field_of(f, "value"@) == Some(JsonV::Str(hex_lower(sig))));
    assert forall|i: int| 0 <= i < f.len() implies (#[trigger] f[i]).1 is Str by {}
    lemma_strings_in_domain(f, path);
}

/// Fields that are all strings lie inside the domain.
proof fn lemma_strings_in_domain(f: Seq<(Seq<char>, JsonV)>, path: Seq<char>)
    requires
        forall|i: int| 0 <= i < f.len() ==> (#[trigger] f[i]).1 is Str,
    ensures
        fields_err(f, path) is None,
    decreases f.len(),
{
    if f.len() > 0 {
        let t = f.drop_first();
        assert forall|i: int| 0 <= i < t.len() implies (#[trigger] t[i]).1 is Str by {
            assert(t[i] == f[i + 1]);
        }
        lemma_strings_in_domain(t, path);
        assert(f[0].1 is Str);
        assert(domain_err(f[0].1, path + seq!['/'] + pointer_escape(f[0].0)) is None);
    }
}

/// No field of `f` is named `k`.
pub open spec fn lacks_key(f: Seq<(Seq<char>, JsonV)>, k: Seq<char>) -> bool {
    forall|i: int| 0 <= i < f.len() ==> (#[trigger] f[i]).0 != k
}

/// Removing `k` leaves no field named `k`, and adds no field.
proof fn lemma_remove_lacks(f: Seq<(Seq<char>, JsonV)>, k: Seq<char>, q: Seq<char>)
    ensures
        lacks_key(fields_remove(f, k), k),
        lacks_key(f, q) ==> lacks_key(fields_remove(f, k), q),
    decreases f.len(),
{
    if f.len() > 0 {
        let t = f.drop_first();
        lemma_remove_lacks(t, k, q);
        if lacks_key(f, q) {
            assert forall|i: int| 0 <= i < t.len() implies (#[trigger] t[i]).0 != q by {
                assert(t[i] == f[i + 1]);
            }
        }
        if f[0].0 != k {
            let g = seq![f[0]] + fields_remove(t, k);
            assert(fields_remove(f, k) == g);
            assert forall|i: int| 0 <= i < g.len() implies (#[trigger] g[i]).0 != k by {
                if i > 0 {
                    assert(g[i] == fields_remove(t, k)[i - 1]);
                }
            }
            if lacks_key(f, q) {
                assert forall|i: int| 0 <= i < g.len() implies (#[trigger] g[i]).0 != q by {
                    if i > 0 {
                        assert(g[i] == fields_remove(t, k)[i - 1]);
                    } else {
                        assert(g[0] == f[0]);
                    }
                }
            }
        }
    }
}

/// Removing a key that no field carries changes nothing.
proof fn lemma_remove_lacking(f: Seq<(Seq<char>, JsonV)>, k: Seq<char>)
    requires
        lacks_key(f, k),
    ensures
        fields_remove(f, k) == f,
    decreases f.len(),
{
    if f.len() > 0 {
        let t = f.drop_first();
        assert forall|i: int| 0 <= i < t.len() implies (#[trigger] t[i]).0 != k by {
            assert(t[i] == f[i + 1]);
        }
        lemma_remove_lacking(t, k);
        assert(f[0].0 != k);
        assert(seq![f[0]] + t =~= f);
    }
}

/// Setting `k` adds no field named another key.
proof fn lemma_insert_lacks(f: Seq<(Seq<char>, JsonV)>, k: Seq<char>, v: JsonV, q: Seq<char>)
    requires
        lacks_key(f, q),
        k != q,
    ensures
        lacks_key(fields_insert(f, k, v), q),
    decreases f.len(),
{
    let g = fields_insert(f, k, v);
    if f.len() == 0 {
        assert(g =~= seq![(k, v)]);
    } else if f[0].0 == k {
        assert forall|i: int| 0 <= i < g.len() implies (#[trigger] g[i]).0 != q by {
            if i > 0 {
                assert(g[i] == f[i]);
            }
        }
    } else if chars_lt(k, f[0].0) {
        assert forall|i: int| 0 <= i < g.len() implies (#[trigger] g[i]).0 != q by {
            if i > 0 {
                assert(g[i] == f[i - 1]);
            }
        }
    } else {
        let t = f.drop_first();
        assert forall|i: int| 0 <= i < t.len() implies (#[trigger] t[i]).0 != q by {
            assert(t[i] == f[i + 1]);
        }
        lemma_insert_lacks(t, k, v, q);
        let h = fields_insert(t, k, v);
        assert forall|i: int| 0 <= i < g.len() implies (#[trigger] g[i]).0 != q by {
            if i > 0 {
                assert(g[i] == h[i - 1]);
            } else {
                assert(g[0] == f[0]);
            }
        }
    }
}

/// Setting a key that no field carries, then removing it, gives the
/// fields back.
proof fn lemma_remove_insert(f: Seq<(Seq<char>, JsonV)>, k: Seq<char>, v: JsonV)
    requires
        lacks_key(f, k),
    ensures
        fields_remove(fields_insert(f, k, v), k) == f,
    decreases f.len(),
{
    let g = fields_insert(f, k, v);
    if f.len() == 0 {
        assert(g =~= seq![(k, v)]);
        assert(g[0] == (k, v));
        assert(g.drop_first() =~= f);
        assert(fields_remove(g.drop_first(), k) == f);
    } else {
        assert(f[0].0 != k);
        if chars_lt(k, f[0].0) {
            assert(g =~= seq![(k, v)] + f);
            assert(g[0] == (k, v));
            assert(g.drop_first() =~= f);
            lemma_remove_lacking(f, k);
        } else {
            let t = f.drop_first();
            assert forall|i: int| 0 <= i < t.len() implies (#[trigger] t[i]).0 != k by {
                assert(t[i] == f[i + 1]);
            }
            lemma_remove_insert(t, k, v);
            let h = fields_insert(t, k, v);
            assert(g =~= seq![f[0]] + h);
            assert(g[0] == f[0]);
            assert(g.drop_first() =~= h);
            assert(seq![f[0]] + t =~= f);
        }
    }
}

/// Setting a field to a value inside the domain keeps an object inside it.
proof fn lemma_insert_in_domain(f: Seq<(Seq<char>, JsonV)>, k: Seq<char>, v: JsonV, path: Seq<char>)
    requires
        fields_err(f, path) is None,
        domain_err(v, path + seq!['/'] + pointer_escape(k)) is None,
    ensures
        fields_err(fields_insert(f, k, v), path) is None,
    decreases f.len(),
{
    let g = fields_insert(f, k, v);
    if f.len() == 0 {
        assert(g =~= seq![(k, v)]);
        assert(g.drop_first() =~= f);
    } else if f[0].0 == k {
        assert(g =~= seq![(k, v)] + f.drop_first());
        assert(g[0] == (k, v));
        assert(g.drop_first() =~= f.drop_first());
    } else if chars_lt(k, f[0].0) {
        assert(g =~= seq![(k, v)] + f);
        assert(g[0] == (k, v));
        assert(g.drop_first() =~= f);
    } else {
        lemma_insert_in_domain(f.drop_first(), k, v, path);
        let h = fields_insert(f.drop_first(), k, v);
        assert(g =~= seq![f[0]] + h);
        assert(g[0] == f[0]);
        assert(g.drop_first() =~= h);
    }
}

/// A hex digit reads back as its value.
proof fn lemma_hex_digit_value(n: int)
    requires
        0 <= n < 16,
    ensures
        hex_value(hex_digit(n)) == Some(n),
{
}

/// Decoding lowercase hex gives the bytes back.
pub proof fn lemma_hex_round_trip(s: Seq<u8>)
    ensures
        hex_decoded(hex_lower(s)) == Some(s),
    decreases s.len(),
{
    if s.len() > 0 {
        let t = s.drop_first();
        lemma_hex_round_trip(t);
        let hi = (s[0] / 16) as int;
        let lo = (s[0] % 16) as int;
        lemma_hex_digit_value(hi);
        lemma_hex_digit_value(lo);
        let h = hex_lower(s);
        assert(h =~= seq![hex_digit(hi), hex_digit(lo)] + hex_lower(t));
        assert(h.skip(2) =~= hex_lower(t));
        assert(hi * 16 + lo == s[0]);
        assert(seq![(hi * 16 + lo) as u8] + t =~= s);
    }
}

/// An id's namespace is everything before the `:` that follows it.
proof fn lemma_first_colon(p: Seq<char>, rest: Seq<char>)
    requires
        !p.contains(':'),
    ensures
        first_colon(p + ":"@ + rest) == p.len(),
    decreases p.len(),
{
    reveal_strlit(":");
    let s = p + ":"@ + rest;
    if p.len() == 0 {
        assert(s[0] == ':');
    } else {
        if p[0] == ':' {
            assert(p.contains(':'));
        }
        let q = p.drop_first();
        if q.contains(':') {
            let i = choose|i: int| 0 <= i < q.len() && q[i] == ':';
            assert(p[i + 1] == ':');
        }
        lemma_first_colon(q, rest);
        assert(s.drop_first() =~= q + ":"@ + rest);
    }
}

/// Full verification of a sealed object against a public key given by its
/// 32 bytes: recompute the id from the raw value, check the signature
/// record's algorithm and key id, and verify the signature over the same
/// bytes. Checks run in order and the first failure is reported.
pub(crate) fn verify_with_key(raw: &Json, pk: &[u8]) -> (r: Result<(), CanonError>)
    requires
        pk@.len() == 32,
    ensures
        domain_err(raw@, Seq::empty()) matches Some((p, d)) ==> r matches Err(e) && domain_error_is(e, p, d),
        domain_err(raw@, Seq::empty()) is None ==> match raw@ {
            JsonV::Object(f) => match raw@.str_at("id"@) {
                None => r matches Err(CanonError::MissingField(m)) && m@ == "id"@,
                Some(cid) => match jcs_canonical(json_text(JsonV::Object(hash_body(f)))) {
                    None => r matches Err(CanonError::Jcs(_)),
                    Some(b) => if id_text(id_prefix(cid), b) != cid {
                        r matches Err(CanonError::IdMismatch { claimed, computed }) && claimed@ == cid
                            && computed@ == id_text(id_prefix(cid), b)
                    } else {
                        match raw@.get("sig"@) {
                            None => r matches Err(CanonError::MissingField(m)) && m@ == "sig"@,
                            Some(sig) => if str_or_empty(sig, "alg"@) != "ed25519"@ {
                                r matches Err(CanonError::WrongAlg(a)) && a@ == str_or_empty(sig, "alg"@)
                            } else {
                                if str_or_empty(sig, "key_id"@) != key_id_text(pk@) {
                                    r matches Err(CanonError::WrongKey { claimed, expected }) && claimed@ == str_or_empty(sig, "key_id"@)
                                        && expected@ == key_id_text(pk@)
                                } else {
                                    match sig.str_at("value"@) {
                                        None => r matches Err(CanonError::MissingField(m)) && m@ == "sig.value"@,
                                        Some(h) => match hex_decoded(h) {
                                            Some(bytes) => if bytes.len() != 64 {
                                                r matches Err(CanonError::SigEncoding(_))
                                            } else if ed25519_accepts(pk@, b, bytes) {
                                                r is Ok
                                            } else {
                                                r matches Err(CanonError::SigInvalid(_))
                                            },
                                            None => r matches Err(CanonError::SigEncoding(_)),
                                        },
                                    }
                                }
                            },
                        }
                    },
                },
            },
            _ => r matches Err(CanonError::NotAnObject),
        },
        r is Ok <==> verifies_under(raw@, pk@),
{
    match validate_jcs_domain(raw) {
        Err(e) => return Err(e),
        Ok(()) => {},
    }
    let obj = match raw {
        Json::Object(f) => f,
        _ => return Err(CanonError::NotAnObject),
    };
    let claimed_id = match raw.str_at("id") {
        Some(s) => s,
        None => return Err(CanonError::MissingField("id")),
    };
    proof {
        lemma_fields_view_len(obj@);
        let f = fields_view(obj@);
        assert(fields_err(f, Seq::empty()) is None);
        lemma_remove_in_domain(f, "id"@, Seq::empty());
        lemma_remove_in_domain(fields_remove(f, "id"@), "sig"@, Seq::empty());
    }
    let prefix = prefix_of(claimed_id);
    let computed = match compute_id(prefix.as_str(), obj) {
        Ok(c) => c,
        Err(e) => return Err(e),
    };
    if !str_eq(computed.as_str(), claimed_id) {
        return Err(CanonError::IdMismatch { claimed: claimed_id.to_owned(), computed });
    }
    let sig = match raw.get("sig") {
        Some(s) => s,
        None => return Err(CanonError::MissingField("sig")),
    };
    let alg = match sig.str_at("alg") {
        Some(a) => a.to_owned(),
        None => String::new(),
    };
    if !str_eq(alg.as_str(), "ed25519") {
        return Err(CanonError::WrongAlg(alg));
    }
    let claimed_key = match sig.str_at("key_id") {
        Some(k) => k.to_owned(),
        None => String::new(),
    };
    let expected_key = key_id_of_bytes(pk);
    if !str_eq(claimed_key.as_str(), expected_key.as_str()) {
        return Err(CanonError::WrongKey { claimed: claimed_key, expected: expected_key });
    }
    let sig_hex = match sig.str_at("value") {
        Some(h) => h,
        None => return Err(CanonError::MissingField("sig.value")),
    };
    let sig_bytes = match hex_decode(sig_hex) {
        Ok(b) => b,
        Err(e) => return Err(CanonError::SigEncoding(hex_error_text(&e))),
    };
    if sig_bytes.len() != 64 {
        return Err(CanonError::SigEncoding("signature must be 64 bytes".to_owned()));
    }
    let bytes = match body_bytes(obj) {
        Ok(b) => b,
        Err(e) => return Err(e),
    };
    match verify_strict_bytes(pk, bytes.as_slice(), sig_bytes.as_slice()) {
        Ok(()) => Ok(()),
        Err(e) => Err(CanonError::SigInvalid(e)),
    }
}


// ---------------------------------------------------------------------
// Messages
// ---------------------------------------------------------------------

/// Trusted: the `Display` text of a `serde_json::Error`; nothing is
/// claimed of it.
#[verifier::external_body]
fn json_error_text(e: &serde_json::Error) -> (r: String) {
    e.to_string()
}

/// Trusted: the `Display` text of an `ed25519_dalek::SignatureError`;
/// nothing is claimed of it.
#[verifier::external_body]
fn signature_error_text(e: &ed25519_dalek::SignatureError) -> (r: String) {
    e.to_string()
}

/// How a canonicalization or verification failure reads, for every
/// failure that does not carry an outside error.
pub open spec fn canon_error_text(e: CanonError) -> Option<Seq<char>> {
    match e {
        CanonError::NotAnObject => Some("object body must be a JSON object"@),
        CanonError::InputDomain { path, detail } => Some(
            "value outside the ASF JCS input domain at "@ + path@ + ": "@ + detail@),
        CanonError::RawJson(m) => Some("raw fabric JSON rejected before value construction: "@ + m@),
        CanonError::Jcs(_) => None,
        CanonError::MissingField(f) => Some("object has no `"@ + f@ + "` field"@),
        CanonError::IdMismatch { claimed, computed } => Some("id mismatch: claimed "@ + claimed@ + ", computed "@ + computed@),
        CanonError::SigEncoding(m) => Some("bad signature encoding: "@ + m@),
        CanonError::SigInvalid(_) => None,
        CanonError::WrongAlg(a) => Some("sig.alg is "@ + a@ + ", expected ed25519"@),
        CanonError::WrongKey { claimed, expected } => Some("sig.key_id is "@ + claimed@ + ", expected "@ + expected@),
    }
}

impl CanonError {
    /// The error's message.
    pub fn text(&self) -> (r: String)
        ensures
            canon_error_text(*self) matches Some(t) ==> r@ == t,
    {
        match self {
            CanonError::NotAnObject => "object body must be a JSON object".to_owned(),
            CanonError::InputDomain { path, detail } => cat(
                &cat(&cat("value outside the ASF JCS input domain at ", path.as_str()), ": "),
                detail,
            ),
            CanonError::RawJson(m) => cat("raw fabric JSON rejected before value construction: ", m.as_str()),
            CanonError::Jcs(e) => cat("canonicalization failed: ", json_error_text(e).as_str()),
            CanonError::MissingField(f) => cat(&cat("object has no `", f), "` field"),
            CanonError::IdMismatch { claimed, computed } => cat(
                &cat(&cat("id mismatch: claimed ", claimed.as_str()), ", computed "),
                computed.as_str(),
            ),
            CanonError::SigEncoding(m) => cat("bad signature encoding: ", m.as_str()),
            CanonError::SigInvalid(e) => cat("signature invalid: ", signature_error_text(e).as_str()),
            CanonError::WrongAlg(a) => cat(&cat("sig.alg is ", a.as_str()), ", expected ed25519"),
            CanonError::WrongKey { claimed, expected } => cat(
                &cat(&cat("sig.key_id is ", claimed.as_str()), ", expected "),
                expected.as_str(),
            ),
        }
    }
}

} // verus!
