//! The fabric's JSON value model.
//!
//! Fabric objects are JSON. The library keeps them in [`Json`], a plain
//! tree of values whose spec-level reading is the value itself: strings are
//! read through their character sequence, arrays through their element
//! sequence, objects through their (key, value) field sequence. Objects keep
//! their fields in strictly increasing key order (code-point order, the
//! byte order of UTF-8), which is the order in which an ordered JSON map
//! iterates; lookups take the first field with a matching key.
//!
//! Numbers are integers (held exactly) or floats. Floats never enter fabric
//! logic beyond being recognised and rejected, so a float is held by its
//! shortest round-trip decimal rendering (the text a JSON serializer
//! writes for it).

use vstd::prelude::*;

verus! {

/// A JSON number: an exact integer in the range JSON numbers may hold
/// (`-2^63 ..= 2^64 - 1`), or a float given by its decimal rendering.
#[derive(Debug, PartialEq)]
pub enum JsonNumber {
    Int(i128),
    Float(String),
}

/// A JSON value.
#[derive(Debug, PartialEq)]
pub enum Json {
    Null,
    Bool(bool),
    Number(JsonNumber),
    Str(String),
    Array(Vec<Json>),
    Object(Vec<(String, Json)>),
}

/// The mathematical reading of a JSON value.
pub enum JsonV {
    Null,
    Bool(bool),
    Int(int),
    Float(Seq<char>),
    Str(Seq<char>),
    Array(Seq<JsonV>),
    Object(Seq<(Seq<char>, JsonV)>),
}

/// Smallest integer a JSON number holds exactly.
pub open spec fn int_min() -> int {
    -0x8000_0000_0000_0000int
}

/// Largest integer a JSON number holds exactly.
pub open spec fn int_max() -> int {
    0xffff_ffff_ffff_ffffint
}

pub open spec fn json_view(j: Json) -> JsonV
    decreases j,
{
    match j {
        Json::Null => JsonV::Null,
        Json::Bool(b) => JsonV::Bool(b),
        Json::Number(JsonNumber::Int(n)) => JsonV::Int(n as int),
        Json::Number(JsonNumber::Float(b)) => JsonV::Float(b@),
        Json::Str(s) => JsonV::Str(s@),
        Json::Array(a) => JsonV::Array(elems_view(a@)),
        Json::Object(f) => JsonV::Object(fields_view(f@)),
    }
}

pub open spec fn elems_view(s: Seq<Json>) -> Seq<JsonV>
    decreases s,
{
    if s.len() == 0 {
        Seq::empty()
    } else {
        seq![json_view(s[0])] + elems_view(s.drop_first())
    }
}

pub open spec fn fields_view(s: Seq<(String, Json)>) -> Seq<(Seq<char>, JsonV)>
    decreases s,
{
    if s.len() == 0 {
        Seq::empty()
    } else {
        seq![(s[0].0@, json_view(s[0].1))] + fields_view(s.drop_first())
    }
}

impl View for Json {
    type V = JsonV;

    open spec fn view(&self) -> JsonV {
        json_view(*self)
    }
}

/// The first field of `fields` named `key`, if any.
pub open spec fn field_of(fields: Seq<(Seq<char>, JsonV)>, key: Seq<char>) -> Option<JsonV>
    decreases fields.len(),
{
    if fields.len() == 0 {
        None
    } else if fields[0].0 == key {
        Some(fields[0].1)
    } else {
        field_of(fields.drop_first(), key)
    }
}

/// Code-point lexicographic order on character sequences (strict).
pub open spec fn chars_lt(a: Seq<char>, b: Seq<char>) -> bool
    decreases a.len(),
{
    if a.len() == 0 {
        b.len() > 0
    } else if b.len() == 0 {
        false
    } else if a[0] != b[0] {
        (a[0] as int) < (b[0] as int)
    } else {
        chars_lt(a.drop_first(), b.drop_first())
    }
}

/// Object fields in strictly increasing key order.
pub open spec fn keys_sorted(fields: Seq<(Seq<char>, JsonV)>) -> bool {
    forall|i: int, j: int|
        0 <= i < j < fields.len() ==> chars_lt(#[trigger] fields[i].0, #[trigger] fields[j].0)
}

/// The field sequence of an object with `key` set to `value`: an existing
/// field is replaced in place; otherwise the field is inserted before the
/// first key ordered after `key`.
pub open spec fn fields_insert(fields: Seq<(Seq<char>, JsonV)>, key: Seq<char>, value: JsonV) -> Seq<(Seq<char>, JsonV)>
    decreases fields.len(),
{
    if fields.len() == 0 {
        seq![(key, value)]
    } else if fields[0].0 == key {
        seq![(key, value)] + fields.drop_first()
    } else if chars_lt(key, fields[0].0) {
        seq![(key, value)] + fields
    } else {
        seq![fields[0]] + fields_insert(fields.drop_first(), key, value)
    }
}

/// `fields` without any field named `key`.
pub open spec fn fields_remove(fields: Seq<(Seq<char>, JsonV)>, key: Seq<char>) -> Seq<(Seq<char>, JsonV)>
    decreases fields.len(),
{
    if fields.len() == 0 {
        fields
    } else if fields[0].0 == key {
        fields_remove(fields.drop_first(), key)
    } else {
        seq![fields[0]] + fields_remove(fields.drop_first(), key)
    }
}

impl JsonV {
    /// The field `key` of an object; `None` for non-objects and absent keys.
    pub open spec fn get(self, key: Seq<char>) -> Option<JsonV> {
        match self {
            JsonV::Object(fields) => field_of(fields, key),
            _ => None,
        }
    }

    /// The value at `key`, or `Null` (JSON indexing).
    pub open spec fn at(self, key: Seq<char>) -> JsonV {
        match self.get(key) {
            Some(v) => v,
            None => JsonV::Null,
        }
    }

    pub open spec fn as_str(self) -> Option<Seq<char>> {
        match self {
            JsonV::Str(s) => Some(s),
            _ => None,
        }
    }

    pub open spec fn as_array(self) -> Option<Seq<JsonV>> {
        match self {
            JsonV::Array(a) => Some(a),
            _ => None,
        }
    }

    pub open spec fn as_u64(self) -> Option<u64> {
        match self {
            JsonV::Int(n) => if 0 <= n <= u64::MAX {
                Some(n as u64)
            } else {
                None
            },
            _ => None,
        }
    }

    pub open spec fn as_i64(self) -> Option<i64> {
        match self {
            JsonV::Int(n) => if i64::MIN <= n <= i64::MAX {
                Some(n as i64)
            } else {
                None
            },
            _ => None,
        }
    }

    /// The string at `key`, if the field exists and is a string.
    pub open spec fn str_at(self, key: Seq<char>) -> Option<Seq<char>> {
        match self.get(key) {
            Some(v) => v.as_str(),
            None => None,
        }
    }

    /// The strings of the array at `key` (non-strings skipped); empty when
    /// the field is absent or not an array.
    pub open spec fn str_list_at(self, key: Seq<char>) -> Seq<Seq<char>> {
        match self.at(key).as_array() {
            Some(a) => strings_of(a),
            None => Seq::empty(),
        }
    }
}

/// The string elements of `a`, in order.
pub open spec fn strings_of(a: Seq<JsonV>) -> Seq<Seq<char>>
    decreases a.len(),
{
    if a.len() == 0 {
        Seq::empty()
    } else {
        match a[0] {
            JsonV::Str(s) => seq![s] + strings_of(a.drop_first()),
            _ => strings_of(a.drop_first()),
        }
    }
}

/// The character sequences of a sequence of strings.
pub open spec fn string_views(v: Seq<String>) -> Seq<Seq<char>> {
    v.map_values(|x: String| x@)
}

/// Option of a reference, read as an option of the value's view.
pub open spec fn opt_view(o: Option<&Json>) -> Option<JsonV> {
    match o {
        Some(v) => Some(v@),
        None => None,
    }
}

/// Whether the characters of `a` and `b` agree.
pub fn str_eq(a: &str, b: &str) -> (r: bool)
    ensures
        r == (a@ == b@),
{
    let x = a.to_owned();
    let y = b.to_owned();
    x == y
}

/// The characters of `s`.
pub fn chars_of(s: &str) -> (r: Vec<char>)
    ensures
        r@ == s@,
{
    let mut out: Vec<char> = Vec::new();
    for c in it: s.chars()
        invariant
            out@ == it.seq().take(it.index() as int),
            it.seq() == s@,
    {
        out.push(c);
    }
    out
}

/// Appends a character to a string.
#[verifier::external_body]
pub fn push_char(s: &mut String, c: char)
    ensures
        final(s)@ == old(s)@.push(c),
{
    s.push(c);
}

/// A string holding exactly the characters of `cs`.
pub fn string_of(cs: &Vec<char>) -> (r: String)
    ensures
        r@ == cs@,
{
    let mut out = String::new();
    let mut i: usize = 0;
    while i < cs.len()
        invariant
            i <= cs.len(),
            out@ == cs@.subrange(0, i as int),
        decreases cs.len() - i,
    {
        push_char(&mut out, cs[i]);
        i += 1;
        assert(out@ =~= cs@.subrange(0, i as int));
    }
    assert(cs@.subrange(0, cs.len() as int) =~= cs@);
    out
}

/// Code-point lexicographic comparison: `a` strictly before `b`.
pub fn str_lt(a: &str, b: &str) -> (r: bool)
    ensures
        r == chars_lt(a@, b@),
{
    let x = chars_of(a);
    let y = chars_of(b);
    let mut i: usize = 0;
    assert(x@.skip(0) =~= x@);
    assert(y@.skip(0) =~= y@);
    while i < x.len() && i < y.len() && x[i] == y[i]
        invariant
            i <= x.len(),
            i <= y.len(),
            chars_lt(x@, y@) == chars_lt(x@.skip(i as int), y@.skip(i as int)),
        decreases x.len() - i,
    {
        proof {
            assert(x@.skip(i as int).drop_first() =~= x@.skip(i + 1));
            assert(y@.skip(i as int).drop_first() =~= y@.skip(i + 1));
        }
        i += 1;
    }
    if i == x.len() {
        i < y.len()
    } else if i == y.len() {
        false
    } else {
        x[i] < y[i]
    }
}

impl Json {
    /// A copy of this value.
    #[verifier::loop_isolation(false)]
    pub fn deep_clone(&self) -> (r: Json)
        ensures
            r@ == self@,
        decreases self,
    {
        match self {
            Json::Null => Json::Null,
            Json::Bool(b) => Json::Bool(*b),
            Json::Number(JsonNumber::Int(n)) => Json::Number(JsonNumber::Int(*n)),
            Json::Number(JsonNumber::Float(b)) => Json::Number(JsonNumber::Float(b.clone())),
            Json::Str(s) => Json::Str(s.clone()),
            Json::Array(a) => {
                let mut out: Vec<Json> = Vec::new();
                let mut i: usize = 0;
                while i < a.len()
                    invariant
                        i <= a.len(),
                        elems_view(out@) == elems_view(a@.subrange(0, i as int)),
                        out@.len() == i,
                    decreases a.len() - i,
                {
                    proof { assert(decreases_to!(*self => *a)); assert(decreases_to!(*a => a@)); assert(decreases_to!(a@ => a@[i as int])); }
                    let e = a[i].deep_clone();
                    proof { lemma_elems_view_push(out@, e); lemma_elems_view_push(a@.subrange(0, i as int), a@[i as int]); }
                    out.push(e);
                    i += 1;
                    assert(a@.subrange(0, i as int) =~= a@.subrange(0, i - 1).push(a@[i - 1]));
                }
                assert(a@.subrange(0, a.len() as int) =~= a@);
                Json::Array(out)
            },
            Json::Object(f) => {
                let mut out: Vec<(String, Json)> = Vec::new();
                let mut i: usize = 0;
                while i < f.len()
                    invariant
                        i <= f.len(),
                        fields_view(out@) == fields_view(f@.subrange(0, i as int)),
                        out@.len() == i,
                    decreases f.len() - i,
                {
                    proof { assert(decreases_to!(*self => *f)); assert(decreases_to!(*f => f@)); assert(decreases_to!(f@ => f@[i as int])); assert(decreases_to!(f@[i as int] => f@[i as int].1)); }
                    let k = f[i].0.clone();
                    let v = f[i].1.deep_clone();
                    proof { lemma_fields_view_push(out@, (k, v)); lemma_fields_view_push(f@.subrange(0, i as int), f@[i as int]); }
                    out.push((k, v));
                    i += 1;
                    assert(f@.subrange(0, i as int) =~= f@.subrange(0, i - 1).push(f@[i - 1]));
                }
                assert(f@.subrange(0, f.len() as int) =~= f@);
                Json::Object(out)
            },
        }
    }

    /// The field `key` of an object.
    #[verifier::loop_isolation(false)]
    pub fn get<'a>(&'a self, key: &str) -> (r: Option<&'a Json>)
        ensures
            opt_view(r) == self@.get(key@),
    {
        match self {
            Json::Object(fields) => {
                let mut i: usize = 0;
                proof { lemma_fields_view_len(fields@); }
                assert(fields@.skip(0) =~= fields@);
                while i < fields.len()
                    invariant
                        i <= fields.len(),
                        field_of(fields_view(fields@), key@) == field_of(fields_view(fields@.skip(i as int)), key@),
                    decreases fields.len() - i,
                {
                    proof {
                        assert(fields@.skip(i as int).drop_first() =~= fields@.skip(i + 1));
                        lemma_fields_view_len(fields@.skip(i as int));
                        let t = fields@.skip(i as int);
                        assert(fields_view(t).drop_first() =~= fields_view(t.drop_first()));
                    }
                    if str_eq(fields[i].0.as_str(), key) {
                        return Some(&fields[i].1);
                    }
                    i += 1;
                }
                None
            },
            _ => None,
        }
    }

    pub fn as_str(&self) -> (r: Option<&str>)
        ensures
            r is Some <==> self@.as_str() is Some,
            r matches Some(s) ==> self@.as_str() == Some(s@),
    {
        match self {
            Json::Str(s) => Some(s.as_str()),
            _ => None,
        }
    }

    pub fn as_array(&self) -> (r: Option<&Vec<Json>>)
        ensures
            r is Some <==> self@.as_array() is Some,
            r matches Some(a) ==> self@.as_array() == Some(elems_view(a@)),
    {
        match self {
            Json::Array(a) => Some(a),
            _ => None,
        }
    }

    pub fn as_u64(&self) -> (r: Option<u64>)
        ensures
            r == self@.as_u64(),
    {
        match self {
            Json::Number(JsonNumber::Int(n)) => if 0 <= *n && *n <= 0xffff_ffff_ffff_ffffi128 {
                Some(*n as u64)
            } else {
                None
            },
            _ => None,
        }
    }

    pub fn as_i64(&self) -> (r: Option<i64>)
        ensures
            r == self@.as_i64(),
    {
        match self {
            Json::Number(JsonNumber::Int(n)) => if -0x8000_0000_0000_0000i128 <= *n && *n
                <= 0x7fff_ffff_ffff_ffffi128 {
                Some(*n as i64)
            } else {
                None
            },
            _ => None,
        }
    }

    /// The string at `key`, if present and a string.
    pub fn str_at(&self, key: &str) -> (r: Option<&str>)
        ensures
            r is Some <==> self@.str_at(key@) is Some,
            r matches Some(s) ==> self@.str_at(key@) == Some(s@),
    {
        match self.get(key) {
            Some(v) => v.as_str(),
            None => None,
        }
    }

    pub fn is_null(&self) -> (r: bool)
        ensures
            r == (self@ is Null),
    {
        match self {
            Json::Null => true,
            _ => false,
        }
    }

    /// A string value.
    pub fn from_str(s: &str) -> (r: Json)
        ensures
            r@ == JsonV::Str(s@),
    {
        Json::Str(s.to_owned())
    }

    /// An integer value.
    pub fn from_u64(n: u64) -> (r: Json)
        ensures
            r@ == JsonV::Int(n as int),
    {
        Json::Number(JsonNumber::Int(n as i128))
    }

    /// An integer value.
    pub fn from_i64(n: i64) -> (r: Json)
        ensures
            r@ == JsonV::Int(n as int),
    {
        Json::Number(JsonNumber::Int(n as i128))
    }

    /// An empty object.
    pub fn new_object() -> (r: Json)
        ensures
            r@ == JsonV::Object(Seq::empty()),
    {
        Json::Object(Vec::new())
    }
}

/// Looking a key up after setting it finds the new value.
pub proof fn lemma_field_of_insert(f: Seq<(Seq<char>, JsonV)>, k: Seq<char>, v: JsonV, q: Seq<char>)
    ensures
        field_of(fields_insert(f, k, v), q) == (if q == k {
            Some(v)
        } else {
            field_of(f, q)
        }),
    decreases f.len(),
{
    let g = fields_insert(f, k, v);
    if f.len() == 0 {
        assert(g =~= seq![(k, v)]);
        assert(g.drop_first() =~= Seq::<(Seq<char>, JsonV)>::empty());
        assert(field_of(g, q) == (if g[0].0 == q { Some(g[0].1) } else { field_of(g.drop_first(), q) }));
    } else if f[0].0 == k {
        assert(g =~= seq![(k, v)] + f.drop_first());
        assert(g[0] == (k, v));
        assert(g.drop_first() =~= f.drop_first());
        assert(field_of(g, q) == (if g[0].0 == q { Some(g[0].1) } else { field_of(g.drop_first(), q) }));
        assert(field_of(f, q) == (if f[0].0 == q { Some(f[0].1) } else { field_of(f.drop_first(), q) }));
    } else if chars_lt(k, f[0].0) {
        assert(g =~= seq![(k, v)] + f);
        assert(g[0] == (k, v));
        assert(g.drop_first() =~= f);
        assert(field_of(g, q) == (if g[0].0 == q { Some(g[0].1) } else { field_of(g.drop_first(), q) }));
    } else {
        lemma_field_of_insert(f.drop_first(), k, v, q);
        let h = fields_insert(f.drop_first(), k, v);
        assert(g =~= seq![f[0]] + h);
        assert(g[0] == f[0]);
        assert(g.drop_first() =~= h);
        assert(field_of(g, q) == (if g[0].0 == q { Some(g[0].1) } else { field_of(g.drop_first(), q) }));
        assert(field_of(f, q) == (if f[0].0 == q { Some(f[0].1) } else { field_of(f.drop_first(), q) }));
    }
}

pub proof fn lemma_elems_view_len(s: Seq<Json>)
    ensures
        elems_view(s).len() == s.len(),
        forall|i: int| 0 <= i < s.len() ==> #[trigger] elems_view(s)[i] == json_view(s[i]),
    decreases s.len(),
{
    if s.len() > 0 {
        lemma_elems_view_len(s.drop_first());
        assert forall|i: int| 0 <= i < s.len() implies #[trigger] elems_view(s)[i] == json_view(s[i]) by {
            if i > 0 {
                assert(s.drop_first()[i - 1] == s[i]);
            }
        }
    }
}

pub proof fn lemma_fields_view_len(s: Seq<(String, Json)>)
    ensures
        fields_view(s).len() == s.len(),
        forall|i: int| 0 <= i < s.len() ==> #[trigger] fields_view(s)[i] == (s[i].0@, json_view(s[i].1)),
    decreases s.len(),
{
    if s.len() > 0 {
        lemma_fields_view_len(s.drop_first());
        assert forall|i: int| 0 <= i < s.len() implies #[trigger] fields_view(s)[i] == (s[i].0@, json_view(s[i].1)) by {
            if i > 0 {
                assert(s.drop_first()[i - 1] == s[i]);
            }
        }
    }
}

pub proof fn lemma_elems_view_push(s: Seq<Json>, x: Json)
    ensures
        elems_view(s.push(x)) == elems_view(s).push(json_view(x)),
    decreases s.len(),
{
    lemma_elems_view_len(s);
    lemma_elems_view_len(s.push(x));
    assert(elems_view(s.push(x)) =~= elems_view(s).push(json_view(x)));
}

pub proof fn lemma_fields_view_push(s: Seq<(String, Json)>, x: (String, Json))
    ensures
        fields_view(s.push(x)) == fields_view(s).push((x.0@, json_view(x.1))),
    decreases s.len(),
{
    lemma_fields_view_len(s);
    lemma_fields_view_len(s.push(x));
    assert(fields_view(s.push(x)) =~= fields_view(s).push((x.0@, json_view(x.1))));
}

/// Code-point order is irreflexive.
pub proof fn lemma_chars_lt_irrefl(a: Seq<char>)
    ensures
        !chars_lt(a, a),
    decreases a.len(),
{
    if a.len() > 0 {
        lemma_chars_lt_irrefl(a.drop_first());
    }
}

/// Code-point order is transitive.
pub proof fn lemma_chars_lt_trans(a: Seq<char>, b: Seq<char>, c: Seq<char>)
    requires
        chars_lt(a, b),
        chars_lt(b, c),
    ensures
        chars_lt(a, c),
    decreases a.len(),
{
    if a.len() > 0 && a[0] == b[0] && b[0] == c[0] {
        lemma_chars_lt_trans(a.drop_first(), b.drop_first(), c.drop_first());
    }
}

/// Code-point order is total.
pub proof fn lemma_chars_lt_total(a: Seq<char>, b: Seq<char>)
    ensures
        a == b || chars_lt(a, b) || chars_lt(b, a),
    decreases a.len(),
{
    if a.len() == 0 && b.len() == 0 {
        assert(a =~= b);
    } else if a.len() > 0 && b.len() > 0 && a[0] == b[0] {
        lemma_chars_lt_total(a.drop_first(), b.drop_first());
        if a.drop_first() == b.drop_first() {
            assert(a.len() == b.len());
            assert(a =~= b) by {
                assert forall|k: int| 0 <= k < a.len() implies a[k] == b[k] by {
                    if k > 0 {
                        assert(a[k] == a.drop_first()[k - 1]);
                        assert(b[k] == b.drop_first()[k - 1]);
                    }
                }
            }
        }
    } else if a.len() > 0 && b.len() > 0 {
        assert((a[0] as int) != (b[0] as int));
    }
}

/// Code-point order is asymmetric.
pub proof fn lemma_chars_lt_asym(a: Seq<char>, b: Seq<char>)
    requires
        chars_lt(a, b),
    ensures
        !chars_lt(b, a),
{
    if chars_lt(b, a) {
        lemma_chars_lt_trans(a, b, a);
        lemma_chars_lt_irrefl(a);
    }
}

/// Value equality: same variant and equal contents.
#[verifier::loop_isolation(false)]
pub fn json_eq(a: &Json, b: &Json) -> (r: bool)
    ensures
        r == (a@ == b@),
    decreases a,
{
    match (a, b) {
        (Json::Null, Json::Null) => true,
        (Json::Bool(x), Json::Bool(y)) => *x == *y,
        (Json::Number(JsonNumber::Int(x)), Json::Number(JsonNumber::Int(y))) => *x == *y,
        (Json::Number(JsonNumber::Float(x)), Json::Number(JsonNumber::Float(y))) => *x == *y,
        (Json::Str(x), Json::Str(y)) => *x == *y,
        (Json::Array(x), Json::Array(y)) => {
            proof {
                lemma_elems_view_len(x@);
                lemma_elems_view_len(y@);
            }
            if x.len() != y.len() {
                return false;
            }
            let mut i: usize = 0;
            while i < x.len()
                invariant
                    i <= x.len(),
                    x.len() == y.len(),
                    elems_view(x@).len() == x.len(),
                    elems_view(y@).len() == y.len(),
                    forall|j: int| 0 <= j < i ==> elems_view(x@)[j] == elems_view(y@)[j],
                    forall|j: int| 0 <= j < x.len() ==> #[trigger] elems_view(x@)[j] == json_view(x@[j]),
                    forall|j: int| 0 <= j < y.len() ==> #[trigger] elems_view(y@)[j] == json_view(y@[j]),
                decreases x.len() - i,
            {
                proof { assert(decreases_to!(*a => *x)); assert(decreases_to!(*x => x@)); assert(decreases_to!(x@ => x@[i as int])); }
                if !json_eq(&x[i], &y[i]) {
                    assert(elems_view(x@)[i as int] != elems_view(y@)[i as int]);
                    return false;
                }
                i += 1;
            }
            assert(elems_view(x@) =~= elems_view(y@));
            true
        },
        (Json::Object(x), Json::Object(y)) => {
            proof {
                lemma_fields_view_len(x@);
                lemma_fields_view_len(y@);
            }
            if x.len() != y.len() {
                return false;
            }
            let mut i: usize = 0;
            while i < x.len()
                invariant
                    i <= x.len(),
                    x.len() == y.len(),
                    fields_view(x@).len() == x.len(),
                    fields_view(y@).len() == y.len(),
                    forall|j: int| 0 <= j < i ==> fields_view(x@)[j] == fields_view(y@)[j],
                    forall|j: int| 0 <= j < x.len() ==> #[trigger] fields_view(x@)[j] == (x@[j].0@, json_view(x@[j].1)),
                    forall|j: int| 0 <= j < y.len() ==> #[trigger] fields_view(y@)[j] == (y@[j].0@, json_view(y@[j].1)),
                decreases x.len() - i,
            {
                proof { assert(decreases_to!(*a => *x)); assert(decreases_to!(*x => x@)); assert(decreases_to!(x@ => x@[i as int])); assert(decreases_to!(x@[i as int] => x@[i as int].1)); }
                if !(x[i].0 == y[i].0) {
                    assert(fields_view(x@)[i as int] != fields_view(y@)[i as int]);
                    return false;
                }
                if !json_eq(&x[i].1, &y[i].1) {
                    assert(fields_view(x@)[i as int] != fields_view(y@)[i as int]);
                    return false;
                }
                i += 1;
            }
            assert(fields_view(x@) =~= fields_view(y@));
            true
        },
        _ => false,
    }
}

/// Whether the value is the string `s`.
pub fn json_is_str(v: &Json, s: &str) -> (r: bool)
    ensures
        r == (v@.as_str() == Some(s@)),
{
    match v.as_str() {
        Some(x) => str_eq(x, s),
        None => false,
    }
}

} // verus!
