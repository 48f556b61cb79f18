//! Compact JSON text of a value: the form fabric code renders values in
//! (caveat names of malformed caveats, operation sort keys, stored raw
//! objects). Strings escape `"`, `\` and control characters (the named
//! escapes `\b \t \n \f \r`, otherwise `\u00xx` with lowercase hex);
//! integers are decimal; floats are their rendering; arrays and objects
//! list their elements and fields in order, with no whitespace.

use vstd::prelude::*;
use crate::json::{
    chars_of, elems_view, fields_view, json_view, lemma_elems_view_len, lemma_fields_view_len,
    string_of, Json, JsonNumber, JsonV,
};

verus! {

pub open spec fn hex_digit(n: int) -> char {
    if n < 10 {
        (n + 48) as char
    } else {
        (n - 10 + 97) as char
    }
}

/// The JSON escape of one string character.
pub open spec fn escape_char(c: char) -> Seq<char> {
    if c == '"' {
        seq!['\\', '"']
    } else if c == '\\' {
        seq!['\\', '\\']
    } else if c == '\x08' {
        seq!['\\', 'b']
    } else if c == '\t' {
        seq!['\\', 't']
    } else if c == '\n' {
        seq!['\\', 'n']
    } else if c == '\x0c' {
        seq!['\\', 'f']
    } else if c == '\r' {
        seq!['\\', 'r']
    } else if (c as u32) < 0x20 {
        seq!['\\', 'u', '0', '0', hex_digit(((c as u32) / 16) as int), hex_digit(((c as u32) % 16) as int)]
    } else {
        seq![c]
    }
}

/// The escaped characters of `s`.
pub open spec fn escape_str(s: Seq<char>) -> Seq<char>
    decreases s.len(),
{
    if s.len() == 0 {
        Seq::empty()
    } else {
        escape_char(s[0]) + escape_str(s.drop_first())
    }
}

/// A JSON string literal.
pub open spec fn quoted(s: Seq<char>) -> Seq<char> {
    seq!['"'] + escape_str(s) + seq!['"']
}

/// Decimal digits of a natural number.
pub open spec fn nat_digits(n: nat) -> Seq<char>
    decreases n,
{
    if n < 10 {
        seq![hex_digit(n as int)]
    } else {
        nat_digits((n / 10) as nat) + seq![hex_digit((n % 10) as int)]
    }
}

/// Decimal text of an integer.
pub open spec fn int_text(n: int) -> Seq<char> {
    if n < 0 {
        seq!['-'] + nat_digits((-n) as nat)
    } else {
        nat_digits(n as nat)
    }
}

pub open spec fn json_text(v: JsonV) -> Seq<char>
    decreases v,
{
    match v {
        JsonV::Null => seq!['n', 'u', 'l', 'l'],
        JsonV::Bool(b) => if b {
            seq!['t', 'r', 'u', 'e']
        } else {
            seq!['f', 'a', 'l', 's', 'e']
        },
        JsonV::Int(n) => int_text(n),
        JsonV::Float(t) => t,
        JsonV::Str(s) => quoted(s),
        JsonV::Array(a) => seq!['['] + elems_text(a) + seq![']'],
        JsonV::Object(f) => seq!['{'] + fields_text(f) + seq!['}'],
    }
}

/// Comma-separated texts of the elements.
pub open spec fn elems_text(a: Seq<JsonV>) -> Seq<char>
    decreases a,
{
    if a.len() == 0 {
        Seq::empty()
    } else if a.len() == 1 {
        json_text(a[0])
    } else {
        json_text(a[0]) + seq![','] + elems_text(a.drop_first())
    }
}

/// Comma-separated `"key":value` texts of the fields.
pub open spec fn fields_text(f: Seq<(Seq<char>, JsonV)>) -> Seq<char>
    decreases f,
{
    if f.len() == 0 {
        Seq::empty()
    } else if f.len() == 1 {
        quoted(f[0].0) + seq![':'] + json_text(f[0].1)
    } else {
        quoted(f[0].0) + seq![':'] + json_text(f[0].1) + seq![','] + fields_text(f.drop_first())
    }
}

fn hex_char(n: u32) -> (r: char)
    requires
        n < 16,
    ensures
        r == hex_digit(n as int),
{
    if n < 10 {
        ((n + 48) as u8) as char
    } else {
        ((n - 10 + 97) as u8) as char
    }
}

fn push_all(out: &mut Vec<char>, cs: &Vec<char>)
    ensures
        final(out)@ == old(out)@ + cs@,
{
    let ghost s = cs@;
    let mut i: usize = 0;
    while i < cs.len()
        invariant
            i <= cs.len(),
            cs@ == s,
            out@ == old(out)@ + s.take(i as int),
        decreases cs.len() - i,
    {
        out.push(cs[i]);
        i += 1;
        assert(out@ =~= old(out)@ + s.take(i as int));
    }
    assert(s.take(cs.len() as int) =~= s);
}

fn push_escaped_char(out: &mut Vec<char>, c: char)
    ensures
        final(out)@ == old(out)@ + escape_char(c),
{
    let ghost start = out@;
    if c == '"' {
        out.push('\\');
        out.push('"');
    } else if c == '\\' {
        out.push('\\');
        out.push('\\');
    } else if c == '\x08' {
        out.push('\\');
        out.push('b');
    } else if c == '\t' {
        out.push('\\');
        out.push('t');
    } else if c == '\n' {
        out.push('\\');
        out.push('n');
    } else if c == '\x0c' {
        out.push('\\');
        out.push('f');
    } else if c == '\r' {
        out.push('\\');
        out.push('r');
    } else if (c as u32) < 0x20 {
        out.push('\\');
        out.push('u');
        out.push('0');
        out.push('0');
        out.push(hex_char((c as u32) / 16));
        out.push(hex_char((c as u32) % 16));
    } else {
        out.push(c);
    }
    assert(out@ =~= start + escape_char(c));
}

/// Append the JSON string literal of `s`.
pub fn push_quoted(out: &mut Vec<char>, s: &str)
    ensures
        final(out)@ == old(out)@ + quoted(s@),
{
    let cs = chars_of(s);
    let ghost start = out@;
    out.push('"');
    let mut i: usize = 0;
    assert(cs@.skip(0) =~= cs@);
    while i < cs.len()
        invariant
            i <= cs.len(),
            out@ + escape_str(cs@.skip(i as int)) == start + seq!['"'] + escape_str(cs@),
        decreases cs.len() - i,
    {
        let ghost before = out@;
        assert(cs@.skip(i as int).drop_first() =~= cs@.skip(i + 1));
        push_escaped_char(out, cs[i]);
        i += 1;
        assert(out@ + escape_str(cs@.skip(i as int)) =~= before + escape_str(cs@.skip(i - 1)));
    }
    assert(cs@.skip(cs.len() as int) =~= Seq::<char>::empty());
    out.push('"');
    assert(out@ =~= start + quoted(s@));
}

fn push_nat(out: &mut Vec<char>, m: u128)
    ensures
        final(out)@ == old(out)@ + nat_digits(m as nat),
    decreases m,
{
    if m >= 10 {
        push_nat(out, m / 10);
    }
    out.push(hex_char((m % 10) as u32));
}

/// Append the decimal text of `n`.
pub fn push_int(out: &mut Vec<char>, n: i128)
    ensures
        final(out)@ == old(out)@ + int_text(n as int),
{
    let ghost start = out@;
    if n < 0 {
        out.push('-');
        let m: u128 = ((0 - (n + 1)) as u128) + 1;
        assert(m as int == -(n as int));
        push_nat(out, m);
        assert(out@ =~= start + int_text(n as int));
    } else {
        push_nat(out, n as u128);
    }
}

proof fn lemma_elems_text_push(t: Seq<JsonV>, x: JsonV)
    ensures
        elems_text(t.push(x)) == elems_text(t) + (if t.len() > 0 {
            seq![',']
        } else {
            Seq::<char>::empty()
        }) + json_text(x),
    decreases t.len(),
{
    if t.len() == 0 {
        assert(elems_text(t.push(x)) =~= json_text(x));
    } else if t.len() == 1 {
        assert(t.push(x).drop_first() =~= seq![x]);
        assert(elems_text(seq![x]) == json_text(x));
        assert(elems_text(t.push(x)) =~= elems_text(t) + seq![','] + json_text(x));
    } else {
        lemma_elems_text_push(t.drop_first(), x);
        assert(t.push(x).drop_first() =~= t.drop_first().push(x));
        assert(elems_text(t.push(x)) =~= elems_text(t) + seq![','] + json_text(x));
    }
}

proof fn lemma_fields_text_push(t: Seq<(Seq<char>, JsonV)>, x: (Seq<char>, JsonV))
    ensures
        fields_text(t.push(x)) == fields_text(t) + (if t.len() > 0 {
            seq![',']
        } else {
            Seq::<char>::empty()
        }) + quoted(x.0) + seq![':'] + json_text(x.1),
    decreases t.len(),
{
    if t.len() == 0 {
        assert(fields_text(t.push(x)) =~= quoted(x.0) + seq![':'] + json_text(x.1));
    } else if t.len() == 1 {
        assert(t.push(x).drop_first() =~= seq![x]);
        assert(fields_text(seq![x]) == quoted(x.0) + seq![':'] + json_text(x.1));
        assert(fields_text(t.push(x)) =~= fields_text(t) + seq![','] + quoted(x.0) + seq![':'] + json_text(x.1));
    } else {
        lemma_fields_text_push(t.drop_first(), x);
        assert(t.push(x).drop_first() =~= t.drop_first().push(x));
        assert(fields_text(t.push(x)) =~= fields_text(t) + seq![','] + quoted(x.0) + seq![':'] + json_text(x.1));
    }
}

/// Append the JSON text of `v`.
pub fn push_json(out: &mut Vec<char>, v: &Json)
    ensures
        final(out)@ == old(out)@ + json_text(v@),
    decreases v,
{
    let ghost start = out@;
    match v {
        Json::Null => {
            out.push('n');
            out.push('u');
            out.push('l');
            out.push('l');
        },
        Json::Bool(b) => if *b {
            out.push('t');
            out.push('r');
            out.push('u');
            out.push('e');
        } else {
            out.push('f');
            out.push('a');
            out.push('l');
            out.push('s');
            out.push('e');
        },
        Json::Number(JsonNumber::Int(n)) => push_int(out, *n),
        Json::Number(JsonNumber::Float(t)) => {
            let cs = chars_of(t.as_str());
            push_all(out, &cs);
        },
        Json::Str(s) => push_quoted(out, s.as_str()),
        Json::Array(a) => {
            out.push('[');
            proof { lemma_elems_view_len(a@); }
            let ghost e = elems_view(a@);
            let mut i: usize = 0;
            assert(e.take(0) =~= Seq::<JsonV>::empty());
            while i < a.len()
                invariant
                    i <= a.len(),
                    e == elems_view(a@),
                    e.len() == a.len(),
                    forall|j: int| 0 <= j < a.len() ==> #[trigger] e[j] == json_view(a@[j]),
                    out@ == start + seq!['['] + elems_text(e.take(i as int)),
                decreases a.len() - i,
            {
                proof {
                    assert(decreases_to!(*v => *a));
                    assert(decreases_to!(*a => a@));
                    assert(decreases_to!(a@ => a@[i as int]));
                    lemma_elems_text_push(e.take(i as int), e[i as int]);
                    assert(e.take(i + 1) =~= e.take(i as int).push(e[i as int]));
                }
                if i > 0 {
                    out.push(',');
                }
                push_json(out, &a[i]);
                i += 1;
                assert(out@ =~= start + seq!['['] + elems_text(e.take(i as int)));
            }
            assert(e.take(a.len() as int) =~= e);
            out.push(']');
            assert(out@ =~= start + json_text(v@));
        },
        Json::Object(f) => {
            out.push('{');
            proof { lemma_fields_view_len(f@); }
            let ghost e = fields_view(f@);
            let mut i: usize = 0;
            assert(e.take(0) =~= Seq::<(Seq<char>, JsonV)>::empty());
            while i < f.len()
                invariant
                    i <= f.len(),
                    e == fields_view(f@),
                    e.len() == f.len(),
                    forall|j: int| 0 <= j < f.len() ==> #[trigger] e[j] == (f@[j].0@, json_view(f@[j].1)),
                    out@ == start + seq!['{'] + fields_text(e.take(i as int)),
                decreases f.len() - i,
            {
                proof {
                    assert(decreases_to!(*v => *f));
                    assert(decreases_to!(*f => f@));
                    assert(decreases_to!(f@ => f@[i as int]));
                    assert(decreases_to!(f@[i as int] => f@[i as int].1));
                    lemma_fields_text_push(e.take(i as int), e[i as int]);
                    assert(e.take(i + 1) =~= e.take(i as int).push(e[i as int]));
                }
                if i > 0 {
                    out.push(',');
                }
                push_quoted(out, f[i].0.as_str());
                out.push(':');
                push_json(out, &f[i].1);
                i += 1;
                assert(out@ =~= start + seq!['{'] + fields_text(e.take(i as int)));
            }
            assert(e.take(f.len() as int) =~= e);
            out.push('}');
            assert(out@ =~= start + json_text(v@));
        },
    }
}
/// The compact JSON text of `v`.
pub fn to_json_text(v: &Json) -> (r: String)
    ensures
        r@ == json_text(v@),
{
    let mut out: Vec<char> = Vec::new();
    push_json(&mut out, v);
    assert(out@ =~= json_text(v@));
    string_of(&out)
}

} // verus!
