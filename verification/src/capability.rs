//! Capabilities and the caveat grammar.
//!
//! Broker-minted, mandatory expiry, bound to a manifest, conjunctive
//! caveats (all must pass), and unknown caveat dimensions fail closed: an
//! unrecognized restriction cannot be safely ignored, so a capability
//! carrying a dimension this evaluator does not implement denies every call
//! it applies to, and cannot be attenuation-verified.
//!
//! Caveats are JSON objects `{"dim": "...", ...params}` so unknown
//! dimensions are representable, hashed, and preserved.

use vstd::prelude::*;
use crate::json::{
    chars_of, elems_view, json_eq, json_view, lemma_elems_view_len, lemma_elems_view_push, opt_view,
    push_char, str_eq, string_of, strings_of, string_views, fields_view, lemma_fields_view_len, Json, JsonV,
};
use crate::{parse_instant, rfc3339_instant};

verus! {

/// Why a capability body could not be built or an attenuation verified.
#[derive(Debug)]
pub enum CapError {
    Missing(String),
    NoExpiry,
    Attenuation(String),
    MalformedCaveat(String),
}

impl CapError {
    /// The error's message.
    pub fn text(&self) -> (r: String)
        ensures
            r@ == cap_error_text(*self),
    {
        match self {
            CapError::Missing(f) => cat("capability missing required field ", f),
            CapError::NoExpiry => "expiry is mandatory (spec §5)".to_owned(),
            CapError::Attenuation(m) => cat("attenuation invalid: ", m),
            CapError::MalformedCaveat(m) => cat("malformed caveat: ", m),
        }
    }
}

/// How a capability error reads.
pub open spec fn cap_error_text(e: CapError) -> Seq<char> {
    match e {
        CapError::Missing(f) => "capability missing required field "@ + f@,
        CapError::NoExpiry => "expiry is mandatory (spec §5)"@,
        CapError::Attenuation(m) => "attenuation invalid: "@ + m@,
        CapError::MalformedCaveat(m) => "malformed caveat: "@ + m@,
    }
}

// ---------------------------------------------------------------------
// Ranks
// ---------------------------------------------------------------------

/// Total order on reversibility classes. Lower = safer.
pub open spec fn spec_reversibility_rank(class: Seq<char>) -> Option<u8> {
    if class == "reversible"@ {
        Some(0)
    } else if class == "compensable"@ {
        Some(1)
    } else if class == "irreversible"@ {
        Some(2)
    } else {
        None
    }
}

/// Total order on external reach. Lower = less reach.
pub open spec fn spec_reach_rank(mode: Seq<char>) -> Option<u8> {
    if mode == "none"@ {
        Some(0)
    } else if mode == "mocks"@ {
        Some(1)
    } else if mode == "live"@ {
        Some(2)
    } else {
        None
    }
}

/// Total order on channel auth strength; `local_session` ranks with
/// `passkey` in the strong tier.
pub open spec fn spec_auth_rank(strength: Seq<char>) -> Option<u8> {
    if strength == "unverified"@ {
        Some(0)
    } else if strength == "platform_oauth"@ {
        Some(1)
    } else if strength == "passkey"@ {
        Some(2)
    } else if strength == "local_session"@ {
        Some(2)
    } else {
        None
    }
}

/// Total order on reversibility classes (§4/§5.1). Lower = safer.
pub fn reversibility_rank(class: &str) -> (r: Option<u8>)
    ensures
        r == spec_reversibility_rank(class@),
{
    if str_eq(class, "reversible") {
        Some(0)
    } else if str_eq(class, "compensable") {
        Some(1)
    } else if str_eq(class, "irreversible") {
        Some(2)
    } else {
        None
    }
}

/// Total order on external reach (§5.1). Lower = less reach.
pub fn reach_rank(mode: &str) -> (r: Option<u8>)
    ensures
        r == spec_reach_rank(mode@),
{
    if str_eq(mode, "none") {
        Some(0)
    } else if str_eq(mode, "mocks") {
        Some(1)
    } else if str_eq(mode, "live") {
        Some(2)
    } else {
        None
    }
}

/// Total order on channel auth strength, for `approval.min_auth`.
pub fn auth_rank(strength: &str) -> (r: Option<u8>)
    ensures
        r == spec_auth_rank(strength@),
{
    if str_eq(strength, "unverified") {
        Some(0)
    } else if str_eq(strength, "platform_oauth") {
        Some(1)
    } else if str_eq(strength, "passkey") {
        Some(2)
    } else if str_eq(strength, "local_session") {
        Some(2)
    } else {
        None
    }
}

/// Dimensions this evaluator knows how to check mechanically.
pub open spec fn spec_known_dims() -> Seq<Seq<char>> {
    seq![
        "action.allow"@,
        "reversibility.max"@,
        "external_reach"@,
        "budget.count"@,
        "paths.write"@,
        "time"@,
        "approval.min_auth"@,
    ]
}

/// Dimensions this evaluator knows how to check mechanically. Anything not
/// listed fails closed at evaluation time and cannot be attenuation-verified.
pub fn known_dims() -> (r: Vec<&'static str>)
    ensures
        r@.map_values(|s: &str| s@) == spec_known_dims(),
{
    let v = vec![
        "action.allow",
        "reversibility.max",
        "external_reach",
        "budget.count",
        "paths.write",
        "time",
        "approval.min_auth",
    ];
    assert(v@.map_values(|s: &str| s@) =~= spec_known_dims());
    v
}

// ---------------------------------------------------------------------
// Caveat keys
// ---------------------------------------------------------------------

/// A caveat's identity key: most dims are singletons; `budget.count` is
/// per action class (`*` when the class is absent or not a string).
pub open spec fn spec_caveat_key(cav: JsonV) -> Option<Seq<char>> {
    match cav.str_at("dim"@) {
        None => None,
        Some(dim) => if dim == "budget.count"@ {
            Some(
                dim + ":"@ + match cav.str_at("action_class"@) {
                    Some(c) => c,
                    None => "*"@,
                },
            )
        } else {
            Some(dim)
        },
    }
}

/// Concatenation of two strings.
pub fn cat(a: &str, b: &str) -> (r: String)
    ensures
        r@ == a@ + b@,
{
    let mut s = a.to_owned();
    let bc = chars_of(b);
    let mut i: usize = 0;
    while i < bc.len()
        invariant
            i <= bc.len(),
            s@ == a@ + bc@.subrange(0, i as int),
        decreases bc.len() - i,
    {
        push_char(&mut s, bc[i]);
        i += 1;
        assert(s@ =~= a@ + bc@.subrange(0, i as int));
    }
    assert(bc@.subrange(0, bc.len() as int) =~= bc@);
    s
}

/// A caveat's identity key for matching parent↔child instances during
/// attenuation: most dims are singletons; budget.count is per action_class.
pub fn caveat_key(cav: &Json) -> (r: Result<String, CapError>)
    ensures
        r matches Ok(k) ==> spec_caveat_key(cav@) == Some(k@),
        r is Err ==> spec_caveat_key(cav@) is None,
        r matches Err(e) ==> e is MalformedCaveat,
{
    match cav.str_at("dim") {
        None => Err(CapError::MalformedCaveat(cat("no dim: ", &crate::json_text::to_json_text(cav)))),
        Some(dim) => {
            if str_eq(dim, "budget.count") {
                let cls = match cav.str_at("action_class") {
                    Some(c) => c,
                    None => "*",
                };
                let head = cat(dim, ":");
                Ok(cat(head.as_str(), cls))
            } else {
                Ok(dim.to_owned())
            }
        },
    }
}

// ---------------------------------------------------------------------
// Glob matching — paths.write. `**` matches any number of path segments,
// `*` matches a run of characters within a single segment.
// ---------------------------------------------------------------------

/// All characters of `q` are `*`.
pub open spec fn all_stars(q: Seq<char>) -> bool {
    forall|k: int| 0 <= k < q.len() ==> q[k] == '*'
}

/// The single-segment matcher as it runs: a greedy scan that consumes a
/// literal match first, records the latest `*` in the pattern, and on a
/// mismatch retries from that star with one more character absorbed. For
/// segments without `*` this is ordinary wildcard matching; a literal `*`
/// in the segment is consumed by an equal pattern character before the
/// pattern's wildcard reading is tried.
pub open spec fn seg_scan(p: Seq<char>, s: Seq<char>, pi: int, si: int, star: Option<int>, mark: int) -> bool
    decreases s.len() - mark, s.len() - si, p.len() - pi
    when 0 <= pi <= p.len() && 0 <= mark <= si <= s.len() && (star matches Some(sp) ==> 0 <= sp < pi)
        && (star is None ==> mark == 0)
{
    if si < s.len() {
        if pi < p.len() && p[pi] == s[si] {
            seg_scan(p, s, pi + 1, si + 1, star, mark)
        } else if pi < p.len() && p[pi] == '*' {
            seg_scan(p, s, pi + 1, si, Some(pi), si)
        } else if star is Some {
            seg_scan(p, s, star->0 + 1, mark + 1, star, mark + 1)
        } else {
            false
        }
    } else {
        all_stars(p.skip(pi))
    }
}

pub open spec fn opt_int(o: Option<usize>) -> Option<int> {
    match o {
        Some(x) => Some(x as int),
        None => None,
    }
}

/// Does the single path segment `s` match the segment pattern `p`?
pub open spec fn spec_segment_matches(p: Seq<char>, s: Seq<char>) -> bool {
    seg_scan(p, s, 0, 0, None, 0)
}

/// Wildcard matching of one segment: `*` matches any run of characters,
/// the empty run included, and every other pattern character matches
/// itself.
pub open spec fn wildcard_match(p: Seq<char>, s: Seq<char>) -> bool
    decreases p.len() + s.len(),
{
    if p.len() == 0 {
        s.len() == 0
    } else if p[0] == '*' {
        wildcard_match(p.drop_first(), s) || (s.len() > 0 && wildcard_match(p, s.drop_first()))
    } else {
        s.len() > 0 && p[0] == s[0] && wildcard_match(p.drop_first(), s.drop_first())
    }
}

/// A common prefix can be put in front of a match.
proof fn lemma_wild_prefix(l: Seq<char>, x: Seq<char>, y: Seq<char>)
    requires
        wildcard_match(x, y),
    ensures
        wildcard_match(l + x, l + y),
    decreases l.len(),
{
    if l.len() == 0 {
        assert(l + x =~= x);
        assert(l + y =~= y);
    } else {
        let t = l.drop_first();
        lemma_wild_prefix(t, x, y);
        let a = l + x;
        let b = l + y;
        assert(a.drop_first() =~= t + x);
        assert(b.drop_first() =~= t + y);
        assert(a[0] == l[0] && b[0] == l[0]);
        if l[0] == '*' {
            assert(wildcard_match(a, b.drop_first())) by {
                assert(wildcard_match(a.drop_first(), b.drop_first()));
            }
        }
    }
}

/// A leading `*` absorbs any run put in front of the text.
proof fn lemma_wild_star_absorbs(p: Seq<char>, u: Seq<char>, t: Seq<char>)
    requires
        p.len() > 0,
        p[0] == '*',
        wildcard_match(p, t),
    ensures
        wildcard_match(p, u + t),
    decreases u.len(),
{
    if u.len() == 0 {
        assert(u + t =~= t);
    } else {
        lemma_wild_star_absorbs(p, u.drop_first(), t);
        assert((u + t).drop_first() =~= u.drop_first() + t);
    }
}

/// Only a pattern of stars matches the empty text.
proof fn lemma_wild_empty(p: Seq<char>)
    ensures
        wildcard_match(p, Seq::empty()) <==> all_stars(p),
    decreases p.len(),
{
    if p.len() > 0 {
        lemma_wild_empty(p.drop_first());
        if all_stars(p) {
            assert forall|k: int| 0 <= k < p.drop_first().len() implies p.drop_first()[k] == '*' by {
                assert(p.drop_first()[k] == p[k + 1]);
            }
        }
        if all_stars(p.drop_first()) && p[0] == '*' {
            assert forall|k: int| 0 <= k < p.len() implies p[k] == '*' by {
                if k > 0 {
                    assert(p[k] == p.drop_first()[k - 1]);
                }
            }
        }
    }
}

/// A leading `*` matches by absorbing some run of the text.
proof fn lemma_wild_star_split(p: Seq<char>, s: Seq<char>)
    requires
        p.len() > 0,
        p[0] == '*',
        wildcard_match(p, s),
    ensures
        exists|k: int| 0 <= k <= s.len() && wildcard_match(p.drop_first(), #[trigger] s.skip(k)),
    decreases s.len(),
{
    if wildcard_match(p.drop_first(), s) {
        assert(s.skip(0) =~= s);
    } else {
        lemma_wild_star_split(p, s.drop_first());
        let k = choose|k: int| 0 <= k <= s.drop_first().len() && wildcard_match(p.drop_first(), #[trigger] s.drop_first().skip(k));
        assert(s.drop_first().skip(k) =~= s.skip(k + 1));
    }
}

/// A star-free prefix of the pattern must be read literally at the front
/// of the text.
proof fn lemma_wild_literal_prefix(l: Seq<char>, x: Seq<char>, z: Seq<char>)
    requires
        !l.contains('*'),
        wildcard_match(l + x, z),
    ensures
        z.len() >= l.len(),
        z.take(l.len() as int) == l,
        wildcard_match(x, z.skip(l.len() as int)),
    decreases l.len(),
{
    if l.len() == 0 {
        assert(l + x =~= x);
        assert(z.skip(0) =~= z);
        assert(z.take(0) =~= l);
    } else {
        let a = l + x;
        assert(a[0] == l[0]);
        if l[0] == '*' {
            assert(l.contains('*'));
        }
        let t = l.drop_first();
        if t.contains('*') {
            let k = choose|k: int| 0 <= k < t.len() && t[k] == '*';
            assert(l[k + 1] == '*');
            assert(l.contains('*'));
        }
        assert(a.drop_first() =~= t + x);
        lemma_wild_literal_prefix(t, x, z.drop_first());
        assert(z.drop_first().skip(t.len() as int) =~= z.skip(l.len() as int));
        assert(z.take(l.len() as int) =~= seq![z[0]] + z.drop_first().take(t.len() as int));
        assert(l =~= seq![l[0]] + t);
    }
}

/// The scan only accepts wildcard matches: a scan without a star pending
/// accepts only when the rest of the pattern matches the rest of the text;
/// with a star at `sp` pending, only when the pattern from that star
/// matches the text from `mark`.
proof fn lemma_scan_sound(p: Seq<char>, s: Seq<char>, pi: int, si: int, star: Option<int>, mark: int)
    requires
        0 <= pi <= p.len(),
        0 <= mark <= si <= s.len(),
        star matches Some(sp) ==> 0 <= sp < pi && p[sp] == '*' && p.subrange(sp + 1, pi) == s.subrange(mark, si),
        star is None ==> mark == 0,
        seg_scan(p, s, pi, si, star, mark),
    ensures
        star is None ==> wildcard_match(p.skip(pi), s.skip(si)),
        star matches Some(sp) ==> wildcard_match(p.skip(sp), s.skip(mark)),
    decreases s.len() - mark, s.len() - si, p.len() - pi,
{
    if si < s.len() {
        if pi < p.len() && p[pi] == s[si] {
            if let Some(sp) = star {
                assert(p.subrange(sp + 1, pi + 1) =~= p.subrange(sp + 1, pi).push(p[pi]));
                assert(s.subrange(mark, si + 1) =~= s.subrange(mark, si).push(s[si]));
            }
            lemma_scan_sound(p, s, pi + 1, si + 1, star, mark);
            if star is None {
                lemma_wild_prefix(seq![p[pi]], p.skip(pi + 1), s.skip(si + 1));
                assert(seq![p[pi]] + p.skip(pi + 1) =~= p.skip(pi));
                assert(seq![p[pi]] + s.skip(si + 1) =~= s.skip(si));
            }
        } else if pi < p.len() && p[pi] == '*' {
            assert(p.subrange(pi + 1, pi + 1) =~= s.subrange(si, si));
            lemma_scan_sound(p, s, pi + 1, si, Some(pi), si);
            if let Some(sp) = star {
                let l = s.subrange(mark, si);
                lemma_wild_prefix(l, p.skip(pi), s.skip(si));
                let q = p.skip(sp);
                assert(q.drop_first() =~= l + p.skip(pi));
                assert(l + s.skip(si) =~= s.skip(mark));
                assert(q[0] == '*');
            }
        } else if star is Some {
            let sp = star->0;
            assert(p.subrange(sp + 1, sp + 1) =~= s.subrange(mark + 1, mark + 1));
            lemma_scan_sound(p, s, sp + 1, mark + 1, star, mark + 1);
            let q = p.skip(sp);
            assert(q[0] == '*');
            assert(s.skip(mark).drop_first() =~= s.skip(mark + 1));
        }
    } else {
        lemma_wild_empty(p.skip(pi));
        assert(s.skip(si) =~= Seq::<char>::empty());
        if let Some(sp) = star {
            let l = s.subrange(mark, si);
            lemma_wild_prefix(l, p.skip(pi), Seq::empty());
            let q = p.skip(sp);
            assert(q.drop_first() =~= l + p.skip(pi));
            assert(l + Seq::<char>::empty() =~= s.skip(mark));
            assert(q[0] == '*');
        }
    }
}

/// On a text without `*`, the scan accepts every wildcard match: without
/// a star pending, whenever the rest of the pattern matches the rest of
/// the text; with a star at `sp` pending, whenever the pattern after that
/// star matches the text from some position at or after `mark`.
proof fn lemma_scan_complete(p: Seq<char>, s: Seq<char>, pi: int, si: int, star: Option<int>, mark: int)
    requires
        !s.contains('*'),
        0 <= pi <= p.len(),
        0 <= mark <= si <= s.len(),
        star matches Some(sp) ==> 0 <= sp < pi && p[sp] == '*' && p.subrange(sp + 1, pi) == s.subrange(mark, si)
            && exists|k: int| mark <= k <= s.len() && wildcard_match(p.skip(sp + 1), #[trigger] s.skip(k)),
        star is None ==> mark == 0 && wildcard_match(p.skip(pi), s.skip(si)),
    ensures
        seg_scan(p, s, pi, si, star, mark),
    decreases s.len() - mark, s.len() - si, p.len() - pi,
{
    if si < s.len() {
        if s[si] == '*' {
            assert(s.contains('*'));
        }
        if pi < p.len() && p[pi] == s[si] {
            if let Some(sp) = star {
                assert(p.subrange(sp + 1, pi + 1) =~= p.subrange(sp + 1, pi).push(p[pi]));
                assert(s.subrange(mark, si + 1) =~= s.subrange(mark, si).push(s[si]));
            } else {
                assert(p.skip(pi).drop_first() =~= p.skip(pi + 1));
                assert(s.skip(si).drop_first() =~= s.skip(si + 1));
            }
            lemma_scan_complete(p, s, pi + 1, si + 1, star, mark);
        } else if pi < p.len() && p[pi] == '*' {
            assert(p.subrange(pi + 1, pi + 1) =~= s.subrange(si, si));
            assert(p.skip(pi).drop_first() =~= p.skip(pi + 1));
            match star {
                None => {
                    lemma_wild_star_split(p.skip(pi), s.skip(si));
                    let k = choose|k: int| 0 <= k <= s.skip(si).len() && wildcard_match(p.skip(pi).drop_first(), #[trigger] s.skip(si).skip(k));
                    assert(s.skip(si).skip(k) =~= s.skip(si + k));
                },
                Some(sp) => {
                    let k0 = choose|k: int| mark <= k <= s.len() && wildcard_match(p.skip(sp + 1), #[trigger] s.skip(k));
                    let l = p.subrange(sp + 1, pi);
                    lemma_no_star_run(s, mark, si);
                    assert(p.skip(sp + 1) =~= l + p.skip(pi));
                    lemma_wild_literal_prefix(l, p.skip(pi), s.skip(k0));
                    let z = s.skip(k0).skip(l.len() as int);
                    assert(z =~= s.skip(k0 + l.len()));
                    lemma_wild_star_split(p.skip(pi), z);
                    let k = choose|k: int| 0 <= k <= z.len() && wildcard_match(p.skip(pi).drop_first(), #[trigger] z.skip(k));
                    assert(z.skip(k) =~= s.skip(k0 + l.len() + k));
                    assert(si == mark + l.len());
                },
            }
            lemma_scan_complete(p, s, pi + 1, si, Some(pi), si);
        } else {
            match star {
                None => {
                    assert(p.skip(pi).len() == 0 || p.skip(pi)[0] == p[pi]);
                    assert(s.skip(si)[0] == s[si]);
                },
                Some(sp) => {
                    let k0 = choose|k: int| mark <= k <= s.len() && wildcard_match(p.skip(sp + 1), #[trigger] s.skip(k));
                    let l = p.subrange(sp + 1, pi);
                    if k0 == mark {
                        lemma_no_star_run(s, mark, si);
                        assert(p.skip(sp + 1) =~= l + p.skip(pi));
                        lemma_wild_literal_prefix(l, p.skip(pi), s.skip(mark));
                        assert(s.skip(mark).skip(l.len() as int) =~= s.skip(si));
                        assert(p.skip(pi).len() == 0 || p.skip(pi)[0] == p[pi]);
                        assert(s.skip(si)[0] == s[si]);
                    }
                    assert(p.subrange(sp + 1, sp + 1) =~= s.subrange(mark + 1, mark + 1));
                    lemma_scan_complete(p, s, sp + 1, mark + 1, star, mark + 1);
                },
            }
        }
    } else {
        match star {
            None => {
                assert(s.skip(si) =~= Seq::<char>::empty());
                lemma_wild_empty(p.skip(pi));
            },
            Some(sp) => {
                let k0 = choose|k: int| mark <= k <= s.len() && wildcard_match(p.skip(sp + 1), #[trigger] s.skip(k));
                let l = p.subrange(sp + 1, pi);
                lemma_no_star_run(s, mark, si);
                assert(p.skip(sp + 1) =~= l + p.skip(pi));
                lemma_wild_literal_prefix(l, p.skip(pi), s.skip(k0));
                assert(k0 == mark);
                assert(s.skip(k0).skip(l.len() as int) =~= Seq::<char>::empty());
                lemma_wild_empty(p.skip(pi));
            },
        }
    }
}

/// A run of a text without `*` holds no `*`.
proof fn lemma_no_star_run(s: Seq<char>, a: int, b: int)
    requires
        !s.contains('*'),
        0 <= a <= b <= s.len(),
    ensures
        !s.subrange(a, b).contains('*'),
{
    if s.subrange(a, b).contains('*') {
        let k = choose|k: int| 0 <= k < s.subrange(a, b).len() && s.subrange(a, b)[k] == '*';
        assert(s[a + k] == '*');
        assert(s.contains('*'));
    }
}

/// Segment patterns match as wildcards do: whatever the matcher accepts
/// fits the pattern with each `*` standing for some run of characters and
/// every other character for itself; and on segments without `*`, every
/// such fit is accepted. A segment `x.txt` thus never matches `*.md`.
pub proof fn law_segment_matching_is_wildcard_matching(p: Seq<char>, s: Seq<char>)
    ensures
        spec_segment_matches(p, s) ==> wildcard_match(p, s),
        !s.contains('*') ==> (spec_segment_matches(p, s) <==> wildcard_match(p, s)),
{
    assert(p.skip(0) =~= p);
    assert(s.skip(0) =~= s);
    if spec_segment_matches(p, s) {
        lemma_scan_sound(p, s, 0, 0, None, 0);
    }
    if !s.contains('*') && wildcard_match(p, s) {
        lemma_scan_complete(p, s, 0, 0, None, 0);
    }
}

/// The non-empty `/`-separated segments of `s`, with `cur` the segment
/// being read.
pub open spec fn split_from(s: Seq<char>, cur: Seq<char>) -> Seq<Seq<char>>
    decreases s.len(),
{
    if s.len() == 0 {
        if cur.len() == 0 {
            Seq::empty()
        } else {
            seq![cur]
        }
    } else if s[0] == '/' {
        (if cur.len() == 0 {
            Seq::<Seq<char>>::empty()
        } else {
            seq![cur]
        }) + split_from(s.drop_first(), Seq::empty())
    } else {
        split_from(s.drop_first(), cur.push(s[0]))
    }
}

/// The non-empty `/`-separated segments of `s`.
pub open spec fn split_segs(s: Seq<char>) -> Seq<Seq<char>> {
    split_from(s, Seq::empty())
}

pub open spec fn double_star() -> Seq<char> {
    seq!['*', '*']
}

/// Segment-wise glob matching: `**` consumes zero or more segments.
pub open spec fn glob_rec(pats: Seq<Seq<char>>, segs: Seq<Seq<char>>) -> bool
    decreases pats.len() + segs.len(),
{
    if pats.len() == 0 {
        segs.len() == 0
    } else if pats[0] == double_star() {
        glob_rec(pats.drop_first(), segs) || (segs.len() > 0 && glob_rec(pats, segs.drop_first()))
    } else if segs.len() == 0 {
        false
    } else {
        spec_segment_matches(pats[0], segs[0]) && glob_rec(pats.drop_first(), segs.drop_first())
    }
}

/// Does `path` (relative, '/'-separated) match `glob`?
pub open spec fn spec_glob_matches(glob: Seq<char>, path: Seq<char>) -> bool {
    glob_rec(split_segs(glob), split_segs(path))
}

fn segment_matches(pat: &str, seg: &str) -> (r: bool)
    ensures
        r == spec_segment_matches(pat@, seg@),
{
    let p = chars_of(pat);
    let s = chars_of(seg);
    let mut pi: usize = 0;
    let mut si: usize = 0;
    let mut star: Option<usize> = None;
    let mut mark: usize = 0;
    while si < s.len()
        invariant
            pi <= p.len(),
            mark <= si <= s.len(),
            star matches Some(sp) ==> sp < pi,
            star is None ==> mark == 0,
            spec_segment_matches(p@, s@) == seg_scan(p@, s@, pi as int, si as int, opt_int(star), mark as int),
        decreases s.len() - mark, s.len() - si, p.len() - pi,
    {
        if pi < p.len() && p[pi] == s[si] {
            pi += 1;
            si += 1;
        } else if pi < p.len() && p[pi] == '*' {
            star = Some(pi);
            mark = si;
            pi += 1;
        } else if let Some(sp) = star {
            pi = sp + 1;
            mark += 1;
            si = mark;
        } else {
            assert(star is None);
            assert(!seg_scan(p@, s@, pi as int, si as int, None, mark as int));
            return false;
        }
    }
    while pi < p.len() && p[pi] == '*'
        invariant
            pi <= p.len(),
            spec_segment_matches(p@, s@) == all_stars(p@.skip(pi as int)),
        decreases p.len() - pi,
    {
        proof {
            let q = p@.skip(pi as int);
            let r = p@.skip(pi + 1);
            assert forall|k: int| 0 <= k < r.len() implies r[k] == q[k + 1] by {}
            if all_stars(r) {
                assert forall|k: int| 0 <= k < q.len() implies q[k] == '*' by {
                    if k > 0 {
                        assert(q[k] == r[k - 1]);
                    }
                }
            }
            if all_stars(q) {
                assert forall|k: int| 0 <= k < r.len() implies r[k] == '*' by {
                    assert(r[k] == q[k + 1]);
                }
            }
        }
        pi += 1;
    }
    if pi == p.len() {
        assert(p@.skip(pi as int).len() == 0);
        true
    } else {
        assert(p@.skip(pi as int)[0] == p@[pi as int]);
        false
    }
}

/// The non-empty `/`-separated segments of `s`.
pub(crate) fn split_nonempty(s: &str) -> (r: Vec<String>)
    ensures
        string_views(r@) == split_segs(s@),
{
    let cs = chars_of(s);
    let mut out: Vec<String> = Vec::new();
    let mut cur: Vec<char> = Vec::new();
    let mut i: usize = 0;
    assert(cs@.skip(0) =~= cs@);
    while i < cs.len()
        invariant
            i <= cs.len(),
            string_views(out@) + split_from(cs@.skip(i as int), cur@) == split_segs(cs@),
        decreases cs.len() - i,
    {
        let ghost rest = cs@.skip(i as int);
        assert(rest.drop_first() =~= cs@.skip(i + 1));
        if cs[i] == '/' {
            if cur.len() > 0 {
                let seg = string_of(&cur);
                let ghost before = out@;
                out.push(seg);
                assert(string_views(out@) =~= before.map_values(|x: String| x@) + seq![cur@]);
            } else {
                assert(string_views(out@) + Seq::<Seq<char>>::empty() =~= string_views(out@));
            }
            cur = Vec::new();
            assert(string_views(out@) + split_from(cs@.skip(i + 1), cur@) =~= split_segs(cs@));
        } else {
            cur.push(cs[i]);
        }
        i += 1;
    }
    if cur.len() > 0 {
        let seg = string_of(&cur);
        let ghost before = out@;
        out.push(seg);
        assert(string_views(out@) =~= before.map_values(|x: String| x@) + seq![cur@]);
    } else {
        assert(string_views(out@) + Seq::<Seq<char>>::empty() =~= string_views(out@));
    }
    out
}

fn is_double_star(s: &str) -> (r: bool)
    ensures
        r == (s@ == double_star()),
{
    let c = chars_of(s);
    let r = c.len() == 2 && c[0] == '*' && c[1] == '*';
    proof {
        if r {
            assert(c@ =~= double_star());
        }
    }
    r
}

fn glob_rec_exec(pats: &Vec<String>, segs: &Vec<String>, i: usize, j: usize) -> (r: bool)
    requires
        i <= pats.len(),
        j <= segs.len(),
    ensures
        r == glob_rec(
            string_views(pats@).skip(i as int),
            string_views(segs@).skip(j as int),
        ),
    decreases pats.len() - i + segs.len() - j,
{
    let ghost ps = string_views(pats@).skip(i as int);
    let ghost ss = string_views(segs@).skip(j as int);
    if i == pats.len() {
        return j == segs.len();
    }
    assert(ps[0] == pats@[i as int]@);
    assert(ps.drop_first() =~= string_views(pats@).skip(i + 1));
    if is_double_star(pats[i].as_str()) {
        if glob_rec_exec(pats, segs, i + 1, j) {
            return true;
        }
        if j < segs.len() {
            assert(ss.drop_first() =~= string_views(segs@).skip(j + 1));
            glob_rec_exec(pats, segs, i, j + 1)
        } else {
            false
        }
    } else if j == segs.len() {
        false
    } else {
        assert(ss[0] == segs@[j as int]@);
        assert(ss.drop_first() =~= string_views(segs@).skip(j + 1));
        segment_matches(pats[i].as_str(), segs[j].as_str()) && glob_rec_exec(pats, segs, i + 1, j + 1)
    }
}

/// Does `path` (relative, '/'-separated) match `glob`?
pub fn glob_matches(glob: &str, path: &str) -> (r: bool)
    ensures
        r == spec_glob_matches(glob@, path@),
{
    let pats = split_nonempty(glob);
    let segs = split_nonempty(path);
    assert(string_views(pats@).skip(0) =~= string_views(pats@));
    assert(string_views(segs@).skip(0) =~= string_views(segs@));
    glob_rec_exec(&pats, &segs, 0, 0)
}

/// `s` contains no `*`.
pub open spec fn star_free(s: Seq<char>) -> bool {
    forall|k: int| 0 <= k < s.len() ==> s[k] != '*'
}

/// `parent` is `pre/**`; the prefix `pre`.
pub open spec fn slash_star_star_prefix(parent: Seq<char>) -> Option<Seq<char>> {
    if parent.len() >= 3 && parent[parent.len() - 3] == '/' && parent[parent.len() - 2] == '*'
        && parent[parent.len() - 1] == '*' {
        Some(parent.take(parent.len() - 3))
    } else {
        None
    }
}

/// Conservative glob-subset rule: identical globs; parent `**`; parent
/// `pre/**` (with `pre` free of wildcards) over a child that is `pre` or
/// lies under `pre/`.
pub open spec fn spec_glob_covers(parent: Seq<char>, child: Seq<char>) -> bool {
    if parent == child || parent == double_star() {
        true
    } else {
        match slash_star_star_prefix(parent) {
            Some(pre) => star_free(pre) && (child == pre || (child.len() > pre.len() && child.take(
                pre.len() as int,
            ) == pre && child[pre.len() as int] == '/')),
            None => false,
        }
    }
}

/// Conservative glob-subset test for attenuation: is every path matched by
/// `child` also matched by `parent`? Only the provable cases are accepted:
/// identical globs; parent `**`; parent `prefix/**` covering a child whose
/// literal prefix sits under it. Everything else is not-a-subset (fail
/// closed — the child must be rewritten more plainly).
pub fn glob_covers(parent: &str, child: &str) -> (r: bool)
    ensures
        r == spec_glob_covers(parent@, child@),
{
    if str_eq(parent, child) || is_double_star(parent) {
        return true;
    }
    let p = chars_of(parent);
    let c = chars_of(child);
    let n = p.len();
    if n >= 3 && p[n - 3] == '/' && p[n - 2] == '*' && p[n - 1] == '*' {
        let pre_len = n - 3;
        let mut k: usize = 0;
        while k < pre_len
            invariant
                k <= pre_len,
                pre_len == n - 3,
                n == p.len(),
                forall|m: int| 0 <= m < k ==> p@[m] != '*',
            decreases pre_len - k,
        {
            if p[k] == '*' {
                assert(p@.take(pre_len as int)[k as int] == '*');
                assert(!star_free(p@.take(pre_len as int)));
                return false;
            }
            k += 1;
        }
        assert(star_free(p@.take(pre_len as int)));
        if c.len() < pre_len {
            assert(c@.len() != p@.take(pre_len as int).len());
            return false;
        }
        let mut m: usize = 0;
        while m < pre_len
            invariant
                m <= pre_len,
                pre_len <= c.len(),
                pre_len == n - 3,
                n == p.len(),
                forall|q: int| 0 <= q < m ==> c@[q] == p@[q],
            decreases pre_len - m,
        {
            if c[m] != p[m] {
                assert(c@.take(pre_len as int)[m as int] != p@.take(pre_len as int)[m as int]);
                assert(c@ != p@.take(pre_len as int));
                return false;
            }
            m += 1;
        }
        assert(c@.take(pre_len as int) =~= p@.take(pre_len as int));
        if c.len() == pre_len {
            assert(c@ =~= p@.take(pre_len as int));
            true
        } else {
            c[pre_len] == '/'
        }
    } else {
        false
    }
}

// ---------------------------------------------------------------------
// Soundness of the cover rule
// ---------------------------------------------------------------------

/// Splitting `a/b` yields the segments of `a` followed by those of `b`.
proof fn lemma_split_slash(a: Seq<char>, cur: Seq<char>, b: Seq<char>)
    ensures
        split_from(a + seq!['/'] + b, cur) == split_from(a, cur) + split_segs(b),
    decreases a.len(),
{
    let s = a + seq!['/'] + b;
    let head = if cur.len() == 0 {
        Seq::<Seq<char>>::empty()
    } else {
        seq![cur]
    };
    if a.len() == 0 {
        assert(s[0] == '/');
        assert(s.drop_first() =~= b);
        assert(split_from(a, cur) == head);
    } else {
        assert(s[0] == a[0]);
        assert(s.drop_first() =~= a.drop_first() + seq!['/'] + b);
        if a[0] == '/' {
            lemma_split_slash(a.drop_first(), Seq::empty(), b);
            assert(head + (split_from(a.drop_first(), Seq::empty()) + split_segs(b)) =~= (head
                + split_from(a.drop_first(), Seq::empty())) + split_segs(b));
        } else {
            lemma_split_slash(a.drop_first(), cur.push(a[0]), b);
        }
    }
}

/// The segments of `**` are `**` alone.
proof fn lemma_split_double_star()
    ensures
        split_segs(double_star()) == seq![double_star()],
{
    let d = double_star();
    let one = seq!['*'];
    assert(d.drop_first() =~= one);
    assert(one.drop_first() =~= Seq::<char>::empty());
    assert(Seq::<char>::empty().push('*') =~= one);
    assert(one.push('*') =~= d);
    assert(split_from(Seq::<char>::empty(), d) == seq![d]);
    assert(split_from(one, one) == split_from(Seq::<char>::empty(), d));
    assert(split_from(d, Seq::<char>::empty()) == split_from(one, one));
}

/// Segments read from star-free text are star-free and non-empty.
proof fn lemma_split_star_free(s: Seq<char>, cur: Seq<char>)
    requires
        star_free(s),
        star_free(cur),
    ensures
        forall|i: int| 0 <= i < split_from(s, cur).len() ==> star_free(#[trigger] split_from(s, cur)[i])
            && split_from(s, cur)[i].len() > 0,
    decreases s.len(),
{
    if s.len() > 0 {
        assert(star_free(s.drop_first()));
        if s[0] == '/' {
            lemma_split_star_free(s.drop_first(), Seq::empty());
            let head = if cur.len() == 0 {
                Seq::<Seq<char>>::empty()
            } else {
                seq![cur]
            };
            let tail = split_from(s.drop_first(), Seq::empty());
            assert(split_from(s, cur) == head + tail);
            assert forall|i: int| 0 <= i < (head + tail).len() implies star_free(#[trigger] (head + tail)[i])
                && (head + tail)[i].len() > 0 by {
                if i >= head.len() {
                    assert((head + tail)[i] == tail[i - head.len()]);
                }
            }
        } else {
            let c2 = cur.push(s[0]);
            assert(star_free(c2)) by {
                assert forall|k: int| 0 <= k < c2.len() implies c2[k] != '*' by {
                    if k < cur.len() {
                        assert(c2[k] == cur[k]);
                    }
                }
            }
            lemma_split_star_free(s.drop_first(), c2);
            assert(split_from(s, cur) == split_from(s.drop_first(), c2));
        }
    } else if cur.len() > 0 {
        assert(split_from(s, cur) == seq![cur]);
        assert(seq![cur][0] == cur);
    } else {
        assert(split_from(s, cur).len() == 0);
    }
}

/// From position `k` on, a star-free pattern matches exactly itself.
proof fn lemma_scan_literal(p: Seq<char>, s: Seq<char>, k: int)
    requires
        star_free(p),
        0 <= k <= p.len(),
        k <= s.len(),
    ensures
        seg_scan(p, s, k, k, None, 0) == (p.skip(k) == s.skip(k)),
    decreases s.len() - k,
{
    if k < s.len() {
        if k < p.len() && p[k] == s[k] {
            lemma_scan_literal(p, s, k + 1);
            assert(p.skip(k).drop_first() =~= p.skip(k + 1));
            assert(s.skip(k).drop_first() =~= s.skip(k + 1));
            if p.skip(k + 1) == s.skip(k + 1) {
                assert(p.skip(k) =~= s.skip(k)) by {
                    assert forall|m: int| 0 <= m < p.skip(k).len() implies p.skip(k)[m] == s.skip(k)[m] by {
                        if m > 0 {
                            assert(p.skip(k)[m] == p.skip(k + 1)[m - 1]);
                            assert(s.skip(k)[m] == s.skip(k + 1)[m - 1]);
                        }
                    }
                }
            }
        } else {
            if k < p.len() {
                assert(p[k] != '*');
                assert(p.skip(k)[0] != s.skip(k)[0]);
            } else {
                assert(p.skip(k).len() != s.skip(k).len());
            }
        }
    } else {
        if k < p.len() {
            assert(p.skip(k)[0] != '*');
            assert(!all_stars(p.skip(k)));
            assert(p.skip(k).len() != s.skip(k).len());
        } else {
            assert(p.skip(k) =~= s.skip(k));
        }
    }
}

/// A star-free segment pattern matches exactly itself.
proof fn lemma_segment_literal(p: Seq<char>, s: Seq<char>)
    requires
        star_free(p),
    ensures
        spec_segment_matches(p, s) == (p == s),
{
    lemma_scan_literal(p, s, 0);
    assert(p.skip(0) =~= p);
    assert(s.skip(0) =~= s);
}

/// `**` matches every segment sequence.
proof fn lemma_glob_any(segs: Seq<Seq<char>>)
    ensures
        glob_rec(seq![double_star()], segs),
    decreases segs.len(),
{
    let pats = seq![double_star()];
    assert(pats.drop_first() =~= Seq::<Seq<char>>::empty());
    assert(pats[0] == double_star());
    if segs.len() > 0 {
        lemma_glob_any(segs.drop_first());
        assert(glob_rec(pats, segs) == (glob_rec(pats.drop_first(), segs) || (segs.len() > 0 && glob_rec(pats, segs.drop_first()))));
    } else {
        assert(glob_rec(pats.drop_first(), segs));
    }
}

/// A run `a` of literal segments in front of the pattern must be matched by
/// the same run in front of the path.
proof fn lemma_glob_literal_prefix(a: Seq<Seq<char>>, r: Seq<Seq<char>>, s: Seq<Seq<char>>)
    requires
        forall|i: int| 0 <= i < a.len() ==> star_free(#[trigger] a[i]) && a[i].len() > 0,
    ensures
        glob_rec(a + r, s) == (s.len() >= a.len() && s.take(a.len() as int) == a && glob_rec(
            r,
            s.skip(a.len() as int),
        )),
    decreases a.len(),
{
    if a.len() == 0 {
        assert(a + r =~= r);
        assert(s.take(0) =~= a);
        assert(s.skip(0) =~= s);
    } else {
        let ar = a + r;
        assert(ar[0] == a[0]);
        assert(a[0][0] != '*');
        assert(a[0] != double_star()) by {
            if a[0] == double_star() {
                assert(a[0][0] == '*');
            }
        }
        lemma_segment_literal(a[0], if s.len() > 0 { s[0] } else { a[0] });
        assert(ar.drop_first() =~= a.drop_first() + r);
        let a1 = a.drop_first();
        assert forall|i: int| 0 <= i < a1.len() implies star_free(#[trigger] a1[i]) && a1[i].len() > 0 by {
            assert(a1[i] == a[i + 1]);
        }
        if s.len() > 0 {
            let s1 = s.drop_first();
            lemma_glob_literal_prefix(a1, r, s1);
            if s.len() >= a.len() {
                assert(s.skip(a.len() as int) =~= s1.skip(a1.len() as int));
                if s.take(a.len() as int) == a {
                    assert(s[0] == a[0]);
                    assert(s1.take(a1.len() as int) =~= a1) by {
                        assert forall|m: int| 0 <= m < a1.len() implies s1.take(a1.len() as int)[m] == a1[m] by {
                            assert(s.take(a.len() as int)[m + 1] == a[m + 1]);
                        }
                    }
                } else if s[0] == a[0] && s1.take(a1.len() as int) == a1 {
                    assert(s.take(a.len() as int) =~= a) by {
                        assert forall|m: int| 0 <= m < a.len() implies s.take(a.len() as int)[m] == a[m] by {
                            if m > 0 {
                                assert(s1.take(a1.len() as int)[m - 1] == a1[m - 1]);
                            }
                        }
                    }
                }
            }
        }
    }
}

proof fn lemma_double_star_rec(segs: Seq<Seq<char>>)
    ensures
        glob_rec(seq![double_star()], segs),
    decreases segs.len(),
{
    let pats = seq![double_star()];
    assert(pats[0] == double_star());
    assert(pats.drop_first() =~= Seq::<Seq<char>>::empty());
    if segs.len() > 0 {
        lemma_double_star_rec(segs.drop_first());
        assert(glob_rec(pats, segs.drop_first()));
    } else {
        assert(glob_rec(Seq::<Seq<char>>::empty(), segs));
        assert(glob_rec(pats.drop_first(), segs));
    }
    assert(glob_rec(pats, segs) == (glob_rec(pats.drop_first(), segs) || (segs.len() > 0 && glob_rec(pats, segs.drop_first()))));
}

/// `**` matches every path.
pub proof fn law_double_star_matches_every_path(path: Seq<char>)
    ensures
        spec_glob_matches(double_star(), path),
{
    let g = double_star();
    assert(g.drop_first() =~= seq!['*']);
    assert(g.drop_first().drop_first() =~= Seq::<char>::empty());
    assert(Seq::<char>::empty().push('*') =~= seq!['*']);
    assert(seq!['*'].push('*') =~= g);
    assert(split_from(Seq::<char>::empty(), g) == seq![g]);
    assert(split_from(seq!['*'], seq!['*']) == split_from(Seq::<char>::empty(), g));
    assert(split_segs(g) == split_from(seq!['*'], seq!['*']));
    lemma_double_star_rec(split_segs(path));
}

proof fn lemma_starless_same_len(pats: Seq<Seq<char>>, segs: Seq<Seq<char>>)
    requires
        glob_rec(pats, segs),
        !pats.contains(double_star()),
    ensures
        pats.len() == segs.len(),
    decreases pats.len() + segs.len(),
{
    if pats.len() > 0 {
        assert(pats[0] != double_star()) by {
            assert(pats.contains(pats[0]));
        }
        assert(!pats.drop_first().contains(double_star())) by {
            if pats.drop_first().contains(double_star()) {
                let k = choose|k: int| 0 <= k < pats.drop_first().len() && pats.drop_first()[k] == double_star();
                assert(pats[k + 1] == double_star());
            }
        }
        lemma_starless_same_len(pats.drop_first(), segs.drop_first());
    }
}

/// Without a `**` segment, a glob matches only paths with as many
/// non-empty segments as it has: `*` never crosses a `/`.
pub proof fn law_starless_glob_keeps_segment_count(glob: Seq<char>, path: Seq<char>)
    requires
        spec_glob_matches(glob, path),
        !split_segs(glob).contains(double_star()),
    ensures
        split_segs(glob).len() == split_segs(path).len(),
{
    lemma_starless_same_len(split_segs(glob), split_segs(path));
}

proof fn lemma_split_double_slash(a: Seq<char>, b: Seq<char>, cur: Seq<char>)
    ensures
        split_from(a + seq!['/'] + b, cur) == split_from(a + seq!['/', '/'] + b, cur),
    decreases a.len(),
{
    let x = a + seq!['/'] + b;
    let y = a + seq!['/', '/'] + b;
    let none = if cur.len() == 0 {
        Seq::<Seq<char>>::empty()
    } else {
        seq![cur]
    };
    if a.len() == 0 {
        assert(x =~= seq!['/'] + b);
        assert(y =~= seq!['/', '/'] + b);
        assert(x.drop_first() =~= b);
        assert(y.drop_first() =~= seq!['/'] + b);
        assert(y.drop_first().drop_first() =~= b);
        assert(split_from(y.drop_first(), Seq::empty()) == Seq::<Seq<char>>::empty() + split_from(b, Seq::empty()));
        assert(Seq::<Seq<char>>::empty() + split_from(b, Seq::empty()) =~= split_from(b, Seq::empty()));
    } else {
        assert(x.drop_first() =~= a.drop_first() + seq!['/'] + b);
        assert(y.drop_first() =~= a.drop_first() + seq!['/', '/'] + b);
        assert(x[0] == a[0] && y[0] == a[0]);
        if a[0] == '/' {
            lemma_split_double_slash(a.drop_first(), b, Seq::empty());
        } else {
            lemma_split_double_slash(a.drop_first(), b, cur.push(a[0]));
        }
    }
}

/// A trailing `/` ends the last segment and adds none.
proof fn lemma_split_trailing_slash(a: Seq<char>, cur: Seq<char>)
    ensures
        split_from(a + seq!['/'], cur) == split_from(a, cur),
    decreases a.len(),
{
    let x = a + seq!['/'];
    let none = if cur.len() == 0 {
        Seq::<Seq<char>>::empty()
    } else {
        seq![cur]
    };
    if a.len() == 0 {
        assert(x =~= seq!['/']);
        assert(x[0] == '/');
        assert(x.drop_first() =~= Seq::<char>::empty());
        assert(split_from(x.drop_first(), Seq::empty()) == Seq::<Seq<char>>::empty());
        assert(split_from(x, cur) == none + Seq::<Seq<char>>::empty());
        assert(none + Seq::<Seq<char>>::empty() =~= none);
    } else {
        assert(x.drop_first() =~= a.drop_first() + seq!['/']);
        assert(x[0] == a[0]);
        if a[0] == '/' {
            lemma_split_trailing_slash(a.drop_first(), Seq::empty());
        } else {
            lemma_split_trailing_slash(a.drop_first(), cur.push(a[0]));
        }
    }
}

/// Empty segments never matter: a doubled `/` anywhere in a glob or a
/// path, or a leading `/`, reads as the same segments, so matching is
/// unchanged.
pub proof fn law_empty_segments_ignored(a: Seq<char>, b: Seq<char>, other: Seq<char>)
    ensures
        spec_glob_matches(a + seq!['/'] + b, other) == spec_glob_matches(a + seq!['/', '/'] + b, other),
        spec_glob_matches(other, a + seq!['/'] + b) == spec_glob_matches(other, a + seq!['/', '/'] + b),
        spec_glob_matches(seq!['/'] + a, other) == spec_glob_matches(a, other),
        spec_glob_matches(other, seq!['/'] + a) == spec_glob_matches(other, a),
{
    lemma_split_double_slash(a, b, Seq::empty());
    let l = seq!['/'] + a;
    assert(l.drop_first() =~= a);
    assert(split_from(l, Seq::empty()) == Seq::<Seq<char>>::empty() + split_from(a, Seq::empty()));
    assert(Seq::<Seq<char>>::empty() + split_from(a, Seq::empty()) =~= split_from(a, Seq::empty()));
}

/// A trailing `/` on a glob or a path changes nothing either.
pub proof fn law_trailing_slash_ignored(a: Seq<char>, other: Seq<char>)
    ensures
        spec_glob_matches(a + seq!['/'], other) == spec_glob_matches(a, other),
        spec_glob_matches(other, a + seq!['/']) == spec_glob_matches(other, a),
{
    lemma_split_trailing_slash(a, Seq::empty());
}

/// Soundness of the conservative cover rule: when `glob_covers(parent,
/// child)` holds, every path that `child` matches is matched by `parent`.
/// The rule never over-approves an attenuation of `paths.write`.
pub proof fn law_glob_cover_sound(parent: Seq<char>, child: Seq<char>, path: Seq<char>)
    requires
        spec_glob_covers(parent, child),
        spec_glob_matches(child, path),
    ensures
        spec_glob_matches(parent, path),
{
    let segs = split_segs(path);
    if parent == child {
    } else if parent == double_star() {
        lemma_split_double_star();
        lemma_glob_any(segs);
    } else {
        let pre = slash_star_star_prefix(parent)->0;
        let d = double_star();
        assert(parent =~= pre + seq!['/'] + d);
        lemma_split_slash(pre, Seq::empty(), d);
        lemma_split_double_star();
        let a = split_segs(pre);
        assert(star_free(Seq::<char>::empty()));
        lemma_split_star_free(pre, Seq::empty());
        assert(split_segs(parent) == a + seq![d]);
        lemma_glob_literal_prefix(a, seq![d], segs);
        if child == pre {
            lemma_glob_literal_prefix(a, Seq::empty(), segs);
            assert(a + Seq::<Seq<char>>::empty() =~= a);
            lemma_glob_any(segs.skip(a.len() as int));
        } else {
            let rest = child.skip(pre.len() as int + 1);
            assert(child =~= pre + seq!['/'] + rest);
            lemma_split_slash(pre, Seq::empty(), rest);
            lemma_glob_literal_prefix(a, split_segs(rest), segs);
            lemma_glob_any(segs.skip(a.len() as int));
        }
    }
}

// ---------------------------------------------------------------------
// Attenuation (§5.2)
// ---------------------------------------------------------------------

/// The string elements of the array at `field` (empty when absent).
#[verifier::spinoff_prover]
pub(crate) fn as_str_set(v: &Json, field: &str) -> (r: Vec<String>)
    ensures
        string_views(r@) == v@.str_list_at(field@),
{
    let mut out: Vec<String> = Vec::new();
    match v.get(field) {
        Some(a) => match a.as_array() {
            Some(items) => {
                proof { lemma_elems_view_len(items@); }
                let ghost e = elems_view(items@);
                assert(e.skip(0) =~= e);
                let mut i: usize = 0;
                while i < items.len()
                    invariant
                        i <= items.len(),
                        e == elems_view(items@),
                        e.len() == items.len(),
                        forall|j: int| 0 <= j < items.len() ==> #[trigger] e[j] == json_view(items@[j]),
                        string_views(out@) + strings_of(e.skip(i as int)) == strings_of(e),
                    decreases items.len() - i,
                {
                    assert(e.skip(i as int).drop_first() =~= e.skip(i + 1));
                    assert(e.skip(i as int)[0] == e[i as int]);
                    match items[i].as_str() {
                        Some(s) => {
                            let ghost before = out@;
                            out.push(s.to_owned());
                            assert(string_views(out@) =~= before.map_values(|x: String| x@) + seq![s@]);
                        },
                        None => {},
                    }
                    i += 1;
                }
                assert(e.skip(items.len() as int) =~= Seq::<JsonV>::empty());
                out
            },
            None => out,
        },
        None => out,
    }
}

/// Every element of `child` occurs in `parent`.
pub open spec fn seq_subset(child: Seq<Seq<char>>, parent: Seq<Seq<char>>) -> bool {
    forall|i: int| 0 <= i < child.len() ==> parent.contains(#[trigger] child[i])
}

pub(crate) fn str_list_contains(v: &Vec<String>, s: &str) -> (r: bool)
    ensures
        r == string_views(v@).contains(s@),
{
    let ghost m = string_views(v@);
    let mut i: usize = 0;
    while i < v.len()
        invariant
            i <= v.len(),
            m == string_views(v@),
            forall|j: int| 0 <= j < i ==> m[j] != s@,
        decreases v.len() - i,
    {
        if str_eq(v[i].as_str(), s) {
            assert(m[i as int] == s@);
            return true;
        }
        i += 1;
    }
    false
}

fn subset(child: &Vec<String>, parent: &Vec<String>) -> (r: bool)
    ensures
        r == seq_subset(string_views(child@), string_views(parent@)),
{
    let ghost c = string_views(child@);
    let mut i: usize = 0;
    while i < child.len()
        invariant
            i <= child.len(),
            c == string_views(child@),
            forall|j: int| 0 <= j < i ==> string_views(parent@).contains(#[trigger] c[j]),
        decreases child.len() - i,
    {
        if !str_list_contains(parent, child[i].as_str()) {
            assert(c[i as int] == child@[i as int]@);
            assert(!string_views(parent@).contains(c[i as int]));
            return false;
        }
        i += 1;
    }
    true
}

/// Parse the string at `key` (if any) as an instant.
pub open spec fn instant_at(v: JsonV, key: Seq<char>) -> Option<Option<int>> {
    match v.str_at(key) {
        Some(s) => Some(rfc3339_instant(s)),
        None => None,
    }
}

/// Child lower time bound sits within the parent's.
pub open spec fn time_start_ok(parent: JsonV, child: JsonV) -> bool {
    match (parent.str_at("not_before"@), child.str_at("not_before"@)) {
        (Some(p), Some(c)) => match (rfc3339_instant(c), rfc3339_instant(p)) {
            (Some(c), Some(p)) => c >= p,
            _ => false,
        },
        (Some(_), None) => false,
        (None, _) => true,
    }
}

/// Child upper time bound sits within the parent's.
pub open spec fn time_end_ok(parent: JsonV, child: JsonV) -> bool {
    match (parent.str_at("not_after"@), child.str_at("not_after"@)) {
        (Some(p), Some(c)) => match (rfc3339_instant(c), rfc3339_instant(p)) {
            (Some(c), Some(p)) => c <= p,
            _ => false,
        },
        (Some(_), None) => false,
        (None, _) => true,
    }
}

/// Rank comparison for ranked dimensions: both present and `ok(c, p)`.
pub open spec fn ranks_le(p: Option<u8>, c: Option<u8>) -> bool {
    match (p, c) {
        (Some(p), Some(c)) => c <= p,
        _ => false,
    }
}

pub open spec fn rev_rank_at(v: JsonV, key: Seq<char>) -> Option<u8> {
    match v.str_at(key) {
        Some(s) => spec_reversibility_rank(s),
        None => None,
    }
}

pub open spec fn reach_rank_at(v: JsonV, key: Seq<char>) -> Option<u8> {
    match v.str_at(key) {
        Some(s) => spec_reach_rank(s),
        None => None,
    }
}

pub open spec fn auth_rank_at(v: JsonV, key: Seq<char>) -> Option<u8> {
    match v.str_at(key) {
        Some(s) => spec_auth_rank(s),
        None => None,
    }
}

/// Per-dimension subset check: is `child` no wider than `parent`? `None`
/// for a dimension this evaluator does not know (cannot be verified).
pub open spec fn spec_dim_subset(dim: Seq<char>, parent: JsonV, child: JsonV) -> Option<bool> {
    if dim == "action.allow"@ {
        Some(
            seq_subset(child.str_list_at("tools"@), parent.str_list_at("tools"@)) && seq_subset(
                child.str_list_at("actions"@),
                parent.str_list_at("actions"@),
            ),
        )
    } else if dim == "reversibility.max"@ {
        Some(
            ranks_le(
                rev_rank_at(parent, "max"@),
                rev_rank_at(child, "max"@),
            ),
        )
    } else if dim == "external_reach"@ {
        Some(
            ranks_le(
                reach_rank_at(parent, "mode"@),
                reach_rank_at(child, "mode"@),
            ),
        )
    } else if dim == "budget.count"@ {
        Some(
            parent.get("action_class"@) == child.get("action_class"@) && parent.get("window"@)
                == child.get("window"@) && match (
                parent.at("max"@).as_u64(),
                child.at("max"@).as_u64(),
            ) {
                (Some(p), Some(c)) => c <= p,
                _ => false,
            },
        )
    } else if dim == "paths.write"@ {
        Some(globs_cover_all(parent.str_list_at("globs"@), child.str_list_at("globs"@)))
    } else if dim == "time"@ {
        Some(time_start_ok(parent, child) && time_end_ok(parent, child))
    } else if dim == "approval.min_auth"@ {
        Some(
            match (
                auth_rank_at(parent, "min"@),
                auth_rank_at(child, "min"@),
            ) {
                (Some(p), Some(c)) => c >= p,
                _ => false,
            },
        )
    } else {
        None
    }
}

/// The dimensions a caveat narrows are exactly the known ones: for any
/// other dimension there is no subset judgement, so attenuation refuses it.
pub proof fn law_subset_judged_for_known_dims_only(dim: Seq<char>, parent: JsonV, child: JsonV)
    ensures
        spec_dim_subset(dim, parent, child) is Some <==> spec_known_dims().contains(dim),
{
    let k = spec_known_dims();
    if spec_dim_subset(dim, parent, child) is Some {
        if dim == "action.allow"@ {
            assert(k[0] == dim);
        } else if dim == "reversibility.max"@ {
            assert(k[1] == dim);
        } else if dim == "external_reach"@ {
            assert(k[2] == dim);
        } else if dim == "budget.count"@ {
            assert(k[3] == dim);
        } else if dim == "paths.write"@ {
            assert(k[4] == dim);
        } else if dim == "time"@ {
            assert(k[5] == dim);
        } else {
            assert(k[6] == dim);
        }
    }
    if k.contains(dim) {
        let i = choose|i: int| 0 <= i < k.len() && k[i] == dim;
        assert(0 <= i < 7);
    }
}

fn opt_json_eq(a: Option<&Json>, b: Option<&Json>) -> (r: bool)
    ensures
        r == (opt_view(a) == opt_view(b)),
{
    match (a, b) {
        (None, None) => true,
        (Some(x), Some(y)) => json_eq(x, y),
        _ => false,
    }
}

fn rank_of(v: &Json, key: &str, which: u8) -> (r: Option<u8>)
    requires
        which <= 2,
    ensures
        which == 0 ==> r == rev_rank_at(v@, key@),
        which == 1 ==> r == reach_rank_at(v@, key@),
        which == 2 ==> r == auth_rank_at(v@, key@),
{
    match v.str_at(key) {
        Some(s) => if which == 0 {
            reversibility_rank(s)
        } else if which == 1 {
            reach_rank(s)
        } else {
            auth_rank(s)
        },
        None => None,
    }
}

fn time_bound_ok(parent: &Json, child: &Json, key: &str, start: bool) -> (r: bool)
    requires
        key@ == (if start {
            "not_before"@
        } else {
            "not_after"@
        }),
    ensures
        start ==> r == time_start_ok(parent@, child@),
        !start ==> r == time_end_ok(parent@, child@),
{
    match (parent.str_at(key), child.str_at(key)) {
        (Some(p), Some(c)) => match (parse_instant(c), parse_instant(p)) {
            (Some(ci), Some(pi)) => if start {
                ci >= pi
            } else {
                ci <= pi
            },
            _ => false,
        },
        (Some(_), None) => false,
        (None, _) => true,
    }
}

/// Some glob of `pv` covers `g`.
pub open spec fn glob_covered_by(pv: Seq<Seq<char>>, g: Seq<char>) -> bool {
    exists|j: int| 0 <= j < pv.len() && spec_glob_covers(#[trigger] pv[j], g)
}

/// Every child glob is covered by some parent glob.
pub open spec fn globs_cover_all(pv: Seq<Seq<char>>, cv: Seq<Seq<char>>) -> bool {
    forall|i: int| 0 <= i < cv.len() ==> #[trigger] glob_covered_by(pv, cv[i])
}

fn globs_covered(p: &Vec<String>, cg: &Vec<String>) -> (r: bool)
    ensures
        r == globs_cover_all(string_views(p@), string_views(cg@)),
{
    let ghost pv = string_views(p@);
    let ghost cv = string_views(cg@);
    let mut i: usize = 0;
    while i < cg.len()
        invariant
            i <= cg.len(),
            pv == string_views(p@),
            cv == string_views(cg@),
            forall|k: int| 0 <= k < i ==> #[trigger] glob_covered_by(pv, cv[k]),
        decreases cg.len() - i,
    {
        let mut found = false;
        let mut j: usize = 0;
        while j < p.len()
            invariant
                j <= p.len(),
                i < cg.len(),
                pv == string_views(p@),
                cv == string_views(cg@),
                found ==> exists|q: int| 0 <= q < pv.len() && spec_glob_covers(#[trigger] pv[q], cv[i as int]),
                !found ==> forall|q: int| 0 <= q < j ==> !spec_glob_covers(#[trigger] pv[q], cv[i as int]),
            decreases p.len() - j,
        {
            if !found && glob_covers(p[j].as_str(), cg[i].as_str()) {
                found = true;
                assert(spec_glob_covers(pv[j as int], cv[i as int]));
            }
            j += 1;
        }
        assert(found ==> glob_covered_by(pv, cv[i as int]));
        if !found {
            assert(pv.len() == p.len());
            assert(!glob_covered_by(pv, cv[i as int]));
            return false;
        }
        i += 1;
    }
    assert(cv.len() == cg.len());
    assert(globs_cover_all(pv, cv));
    true
}

/// Per-dimension subset check: is `child` no wider than `parent`?
/// Unknown dimensions cannot be verified → error (fail closed).
fn dim_subset(dim: &str, parent: &Json, child: &Json) -> (r: Result<bool, CapError>)
    ensures
        r matches Ok(b) ==> spec_dim_subset(dim@, parent@, child@) == Some(b),
        r is Err ==> spec_dim_subset(dim@, parent@, child@) is None,
        r matches Err(e) ==> e is Attenuation,
{
    if str_eq(dim, "action.allow") {
        let a = subset(&as_str_set(child, "tools"), &as_str_set(parent, "tools"));
        let b = subset(&as_str_set(child, "actions"), &as_str_set(parent, "actions"));
        Ok(a && b)
    } else if str_eq(dim, "reversibility.max") {
        let p = rank_of(parent, "max", 0);
        let c = rank_of(child, "max", 0);
        Ok(
            match (p, c) {
                (Some(p), Some(c)) => c <= p,
                _ => false,
            },
        )
    } else if str_eq(dim, "external_reach") {
        let p = rank_of(parent, "mode", 1);
        let c = rank_of(child, "mode", 1);
        Ok(
            match (p, c) {
                (Some(p), Some(c)) => c <= p,
                _ => false,
            },
        )
    } else if str_eq(dim, "budget.count") {
        let same_class = opt_json_eq(parent.get("action_class"), child.get("action_class"));
        let p = match parent.get("max") {
            Some(m) => m.as_u64(),
            None => None,
        };
        let c = match child.get("max") {
            Some(m) => m.as_u64(),
            None => None,
        };
        let window_ok = opt_json_eq(parent.get("window"), child.get("window"));
        Ok(
            same_class && window_ok && match (p, c) {
                (Some(p), Some(c)) => c <= p,
                _ => false,
            },
        )
    } else if str_eq(dim, "paths.write") {
        let p = as_str_set(parent, "globs");
        let cg = as_str_set(child, "globs");
        Ok(globs_covered(&p, &cg))
    } else if str_eq(dim, "time") {
        let a = time_bound_ok(parent, child, "not_before", true);
        let b = time_bound_ok(parent, child, "not_after", false);
        Ok(a && b)
    } else if str_eq(dim, "approval.min_auth") {
        let p = rank_of(parent, "min", 2);
        let c = rank_of(child, "min", 2);
        Ok(
            match (p, c) {
                (Some(p), Some(c)) => c >= p,
                _ => false,
            },
        )
    } else {
        let m = cat(&cat("unknown dimension ", dim), " cannot be subset-verified (fail closed)");
        Err(CapError::Attenuation(m))
    }
}

/// The child caveat that `key` selects: the last child caveat with that key.
pub open spec fn child_for_key(ccavs: Seq<JsonV>, key: Seq<char>) -> Option<JsonV>
    decreases ccavs.len(),
{
    if ccavs.len() == 0 {
        None
    } else {
        let last = ccavs[ccavs.len() - 1];
        if spec_caveat_key(last) == Some(key) {
            Some(last)
        } else {
            child_for_key(ccavs.drop_last(), key)
        }
    }
}

/// How an attenuation fails.
pub enum AttFail {
    NoExpiry,
    Attenuation,
    Malformed,
}

/// The caveats array of `v` (empty when absent or not an array).
pub open spec fn caveats_of(v: JsonV) -> Seq<JsonV> {
    match v.at("caveats"@).as_array() {
        Some(a) => a,
        None => Seq::empty(),
    }
}

/// First malformed (key-less) caveat among `cavs`, if any.
pub open spec fn all_keyed(cavs: Seq<JsonV>) -> bool {
    forall|i: int| 0 <= i < cavs.len() ==> (#[trigger] spec_caveat_key(cavs[i])) is Some
}

/// Walk the parent's caveats in order against the child's.
pub open spec fn parent_caveats_check(pcavs: Seq<JsonV>, ccavs: Seq<JsonV>) -> Option<AttFail>
    decreases pcavs.len(),
{
    if pcavs.len() == 0 {
        None
    } else {
        match spec_caveat_key(pcavs[0]) {
            None => Some(AttFail::Malformed),
            Some(key) => match child_for_key(ccavs, key) {
                None => Some(AttFail::Attenuation),
                Some(ccav) => match spec_dim_subset(pcavs[0].str_at("dim"@).unwrap(), pcavs[0], ccav) {
                    Some(true) => parent_caveats_check(pcavs.drop_first(), ccavs),
                    _ => Some(AttFail::Attenuation),
                },
            },
        }
    }
}

/// The outcome of §5.2 attenuation verification: `None` when `child` is a
/// valid attenuation of `parent`.
pub open spec fn spec_attenuation(parent: JsonV, child: JsonV) -> Option<AttFail> {
    if child.str_at("parent"@) != parent.str_at("id"@) {
        Some(AttFail::Attenuation)
    } else if parent.str_at("expires_at"@) is None || child.str_at("expires_at"@) is None {
        Some(AttFail::NoExpiry)
    } else if !(match (
        rfc3339_instant(child.str_at("expires_at"@).unwrap()),
        rfc3339_instant(parent.str_at("expires_at"@).unwrap()),
    ) {
        (Some(c), Some(p)) => c <= p,
        _ => false,
    }) {
        Some(AttFail::Attenuation)
    } else if child.get("bound_manifest"@) is None {
        Some(AttFail::Attenuation)
    } else if !all_keyed(caveats_of(child)) {
        Some(AttFail::Malformed)
    } else {
        parent_caveats_check(caveats_of(parent), caveats_of(child))
    }
}

/// The parent caveat `pc` is narrowed by the child's caveats: it names its
/// dimension, the child has a caveat of its key (the last one is judged),
/// and that caveat is a subset of `pc` in the dimension.
pub open spec fn caveat_narrowed(pc: JsonV, ccavs: Seq<JsonV>) -> bool {
    match spec_caveat_key(pc) {
        None => false,
        Some(key) => match child_for_key(ccavs, key) {
            None => false,
            Some(cc) => spec_dim_subset(pc.str_at("dim"@).unwrap(), pc, cc) == Some(true),
        },
    }
}

proof fn lemma_parent_caveats_narrowed(pcavs: Seq<JsonV>, ccavs: Seq<JsonV>)
    ensures
        parent_caveats_check(pcavs, ccavs) is None <==> forall|i: int|
            0 <= i < pcavs.len() ==> caveat_narrowed(#[trigger] pcavs[i], ccavs),
    decreases pcavs.len(),
{
    if pcavs.len() > 0 {
        let t = pcavs.drop_first();
        lemma_parent_caveats_narrowed(t, ccavs);
        assert(parent_caveats_check(pcavs, ccavs) is None <==> (caveat_narrowed(pcavs[0], ccavs) && parent_caveats_check(t, ccavs) is None));
        if forall|i: int| 0 <= i < pcavs.len() ==> caveat_narrowed(#[trigger] pcavs[i], ccavs) {
            assert(caveat_narrowed(pcavs[0], ccavs));
            assert forall|i: int| 0 <= i < t.len() implies caveat_narrowed(#[trigger] t[i], ccavs) by {
                assert(t[i] == pcavs[i + 1]);
            }
        }
        if parent_caveats_check(pcavs, ccavs) is None {
            assert forall|i: int| 0 <= i < pcavs.len() implies caveat_narrowed(#[trigger] pcavs[i], ccavs) by {
                if i > 0 {
                    assert(pcavs[i] == t[i - 1]);
                }
            }
        }
    }
}

/// A child is a valid attenuation of a parent exactly when it names the
/// parent, both expiries parse and the child's is no later, the child is
/// bound to a manifest, every child caveat names its dimension, and every
/// parent caveat is narrowed by the child's caveats.
pub proof fn law_attenuation_conditions(parent: JsonV, child: JsonV)
    ensures
        spec_attenuation(parent, child) is None <==> {
            &&& child.str_at("parent"@) == parent.str_at("id"@)
            &&& match (child.str_at("expires_at"@), parent.str_at("expires_at"@)) {
                (Some(ce), Some(pe)) => match (rfc3339_instant(ce), rfc3339_instant(pe)) {
                    (Some(c), Some(p)) => c <= p,
                    _ => false,
                },
                _ => false,
            }
            &&& child.get("bound_manifest"@) is Some
            &&& all_keyed(caveats_of(child))
            &&& forall|i: int| 0 <= i < caveats_of(parent).len() ==> caveat_narrowed(#[trigger] caveats_of(parent)[i], caveats_of(child))
        },
{
    lemma_parent_caveats_narrowed(caveats_of(parent), caveats_of(child));
}

/// The caveats array of `v`, or an empty one.
fn caveats_vec(v: &Json) -> (r: Vec<Json>)
    ensures
        elems_view(r@) == caveats_of(v@),
{
    match v.get("caveats") {
        Some(c) => match c.as_array() {
            Some(a) => {
                let out = clone_vec(a);
                out
            },
            None => Vec::new(),
        },
        None => Vec::new(),
    }
}

/// A copy of a vector of values.
pub fn clone_vec(a: &Vec<Json>) -> (r: Vec<Json>)
    ensures
        elems_view(r@) == elems_view(a@),
        r@.len() == a@.len(),
{
    let mut out: Vec<Json> = Vec::new();
    let mut i: usize = 0;
    while i < a.len()
        invariant
            i <= a.len(),
            out@.len() == i,
            elems_view(out@) == elems_view(a@.subrange(0, i as int)),
        decreases a.len() - i,
    {
        let e = a[i].deep_clone();
        proof {
            lemma_elems_view_push(out@, e);
            lemma_elems_view_push(a@.subrange(0, i as int), a@[i as int]);
        }
        out.push(e);
        i += 1;
        assert(a@.subrange(0, i as int) =~= a@.subrange(0, i - 1).push(a@[i - 1]));
    }
    assert(a@.subrange(0, a.len() as int) =~= a@);
    out
}

/// Verify §5.2: per dimension, child ⊆ parent; every parent dimension must
/// be present in the child (omitting one would widen); children may add
/// dimensions; expiry no later. Failure invalidates the capability outright.
pub fn verify_attenuation(parent: &Json, child: &Json) -> (r: Result<(), CapError>)
    ensures
        r is Ok <==> spec_attenuation(parent@, child@) is None,
        r matches Err(e) ==> match spec_attenuation(parent@, child@) {
            Some(AttFail::NoExpiry) => e is NoExpiry,
            Some(AttFail::Attenuation) => e is Attenuation,
            Some(AttFail::Malformed) => e is MalformedCaveat,
            None => false,
        },
{
    let cp = child.str_at("parent");
    let pid = parent.str_at("id");
    let same = match (cp, pid) {
        (None, None) => true,
        (Some(a), Some(b)) => str_eq(a, b),
        _ => false,
    };
    if !same {
        return Err(CapError::Attenuation(cat("child.parent must reference parent capability id", "")));
    }
    let pexp = match parent.str_at("expires_at") {
        Some(e) => e,
        None => return Err(CapError::NoExpiry),
    };
    let cexp = match child.str_at("expires_at") {
        Some(e) => e,
        None => return Err(CapError::NoExpiry),
    };
    match (parse_instant(cexp), parse_instant(pexp)) {
        (Some(c), Some(p)) => {
            if !(c <= p) {
                let m = cat(&cat(&cat("child expiry ", cexp), " later than parent "), pexp);
                return Err(CapError::Attenuation(m));
            }
        },
        _ => {
            return Err(CapError::Attenuation(cat("unparseable parent or child expiry (fail closed)", "")));
        },
    }
    if child.get("bound_manifest").is_none() {
        return Err(CapError::Attenuation(cat("child missing bound_manifest (M2)", "")));
    }
    let pcavs = caveats_vec(parent);
    let ccavs = caveats_vec(child);
    proof {
        lemma_elems_view_len(pcavs@);
        lemma_elems_view_len(ccavs@);
    }
    let ghost pc = elems_view(pcavs@);
    let ghost cc = elems_view(ccavs@);
    // Key every child caveat first: a malformed child caveat is an error.
    let mut child_keys: Vec<String> = Vec::new();
    let mut i: usize = 0;
    while i < ccavs.len()
        invariant
            i <= ccavs.len(),
            cc == elems_view(ccavs@),
            cc.len() == ccavs.len(),
            forall|j: int| 0 <= j < ccavs.len() ==> #[trigger] cc[j] == json_view(ccavs@[j]),
            child_keys@.len() == i,
            forall|j: int| 0 <= j < i ==> #[trigger] spec_caveat_key(cc[j]) == Some(child_keys@[j]@),
        decreases ccavs.len() - i,
    {
        match caveat_key(&ccavs[i]) {
            Ok(k) => child_keys.push(k),
            Err(e) => {
                assert(!all_keyed(cc)) by {
                    assert(spec_caveat_key(cc[i as int]) is None);
                }
                return Err(e);
            },
        }
        i += 1;
    }
    assert(all_keyed(cc));
    assert(pc.skip(0) =~= pc);
    let mut k: usize = 0;
    while k < pcavs.len()
        invariant
            k <= pcavs.len(),
            pc == elems_view(pcavs@),
            pc.len() == pcavs.len(),
            forall|j: int| 0 <= j < pcavs.len() ==> #[trigger] pc[j] == json_view(pcavs@[j]),
            cc == elems_view(ccavs@),
            cc.len() == ccavs.len(),
            forall|j: int| 0 <= j < ccavs.len() ==> #[trigger] cc[j] == json_view(ccavs@[j]),
            child_keys@.len() == ccavs.len(),
            forall|j: int| 0 <= j < ccavs.len() ==> #[trigger] spec_caveat_key(cc[j]) == Some(child_keys@[j]@),
            spec_attenuation(parent@, child@) == parent_caveats_check(pc.skip(k as int), cc),
        decreases pcavs.len() - k,
    {
        let ghost rest = pc.skip(k as int);
        assert(rest[0] == pc[k as int]);
        assert(rest.drop_first() =~= pc.skip(k + 1));
        let key = match caveat_key(&pcavs[k]) {
            Ok(key) => key,
            Err(e) => return Err(e),
        };
        let dim = match pcavs[k].str_at("dim") {
            Some(d) => d,
            None => {
                assert(false);
                return Err(CapError::Missing(cat("dim", "")));
            },
        };
        // The last child caveat with this key.
        let mut found: Option<usize> = None;
        let mut j: usize = ccavs.len();
        assert(cc.take(ccavs.len() as int) =~= cc);
        while j > 0
            invariant
                j <= ccavs.len(),
                cc.len() == ccavs.len(),
                child_keys@.len() == ccavs.len(),
                forall|q: int| 0 <= q < ccavs.len() ==> #[trigger] spec_caveat_key(cc[q]) == Some(child_keys@[q]@),
                found is None ==> child_for_key(cc, key@) == child_for_key(cc.take(j as int), key@),
                found matches Some(f) ==> f < ccavs.len() && child_for_key(cc, key@) == Some(cc[f as int]),
            decreases j,
        {
            if found.is_none() {
                let ghost t = cc.take(j as int);
                assert(t[t.len() - 1] == cc[j - 1]);
                assert(t.drop_last() =~= cc.take(j - 1));
                if str_eq(child_keys[j - 1].as_str(), key.as_str()) {
                    found = Some(j - 1);
                }
            }
            j -= 1;
        }
        let f = match found {
            Some(f) => f,
            None => {
                assert(cc.take(0) =~= Seq::<JsonV>::empty());
                let m = cat(&cat("parent dimension ", key.as_str()), " absent in child — omission widens");
                return Err(CapError::Attenuation(m));
            },
        };
        match dim_subset(dim, &pcavs[k], &ccavs[f]) {
            Ok(true) => {},
            Ok(false) => {
                let m = cat(&cat("dimension ", key.as_str()), ": child is not a subset of parent");
                return Err(CapError::Attenuation(m));
            },
            Err(e) => return Err(e),
        }
        k += 1;
    }
    Ok(())
}

/// The unsealed capability body `build` produces (fields in key order).
pub open spec fn spec_build_body(
    holder: Seq<char>,
    bound_manifest: Seq<char>,
    parent: Option<Seq<char>>,
    issued_at: Seq<char>,
    expires_at: Seq<char>,
    caveats: Seq<JsonV>,
    escalatable: Seq<Seq<char>>,
) -> JsonV {
    JsonV::Object(
        seq![
            ("bound_manifest"@, JsonV::Str(bound_manifest)),
            ("caveats"@, JsonV::Array(caveats)),
            ("expires_at"@, JsonV::Str(expires_at)),
            ("holder"@, JsonV::Str(holder)),
            ("issued_at"@, JsonV::Str(issued_at)),
            (
                "on_violation"@,
                JsonV::Object(
                    seq![
                        ("default"@, JsonV::Str("deny"@)),
                        ("escalatable"@, JsonV::Array(escalatable.map_values(|s: Seq<char>| JsonV::Str(s)))),
                    ],
                ),
            ),
            (
                "parent"@,
                match parent {
                    Some(p) => JsonV::Str(p),
                    None => JsonV::Null,
                },
            ),
        ],
    )
}

/// Build an (unsealed) capability body. The broker seals it.
pub fn build(
    holder: &str,
    bound_manifest: &str,
    parent: Option<&str>,
    issued_at: &str,
    expires_at: &str,
    caveats: Vec<Json>,
    escalatable: Vec<&str>,
) -> (r: Result<Json, CapError>)
    ensures
        expires_at@.len() == 0 ==> r matches Err(CapError::NoExpiry),
        expires_at@.len() > 0 ==> (r matches Ok(body) && body@ == spec_build_body(
            holder@,
            bound_manifest@,
            match parent {
                Some(p) => Some(p@),
                None => None,
            },
            issued_at@,
            expires_at@,
            elems_view(caveats@),
            escalatable@.map_values(|s: &str| s@),
        )),
{
    if expires_at.is_empty() {
        return Err(CapError::NoExpiry);
    }
    let mut esc: Vec<Json> = Vec::new();
    let mut i: usize = 0;
    while i < escalatable.len()
        invariant
            i <= escalatable.len(),
            esc@.len() == i,
            elems_view(esc@) == escalatable@.map_values(|s: &str| s@).take(i as int).map_values(
                |s: Seq<char>| JsonV::Str(s),
            ),
        decreases escalatable.len() - i,
    {
        let e = Json::from_str(escalatable[i]);
        proof { lemma_elems_view_push(esc@, e); }
        esc.push(e);
        i += 1;
        assert(elems_view(esc@) =~= escalatable@.map_values(|s: &str| s@).take(i as int).map_values(
            |s: Seq<char>| JsonV::Str(s),
        ));
    }
    assert(escalatable@.map_values(|s: &str| s@).take(escalatable.len() as int) =~= escalatable@.map_values(|s: &str| s@));
    let ov_fields = vec![("default".to_owned(), Json::from_str("deny")), ("escalatable".to_owned(), Json::Array(esc))];
    proof {
        lemma_fields_view_len(ov_fields@);
    }
    let ghost ov_spec = seq![
        ("default"@, JsonV::Str("deny"@)),
        ("escalatable"@, JsonV::Array(escalatable@.map_values(|s: &str| s@).map_values(|s: Seq<char>| JsonV::Str(s)))),
    ];
    assert(fields_view(ov_fields@) =~= ov_spec);
    let on_violation = Json::Object(ov_fields);
    let parent_v = match parent {
        Some(p) => Json::from_str(p),
        None => Json::Null,
    };
    let fields = vec![
        ("bound_manifest".to_owned(), Json::from_str(bound_manifest)),
        ("caveats".to_owned(), Json::Array(caveats)),
        ("expires_at".to_owned(), Json::from_str(expires_at)),
        ("holder".to_owned(), Json::from_str(holder)),
        ("issued_at".to_owned(), Json::from_str(issued_at)),
        ("on_violation".to_owned(), on_violation),
        ("parent".to_owned(), parent_v),
    ];
    proof {
        lemma_fields_view_len(fields@);
    }
    let body = Json::Object(fields);
    let ghost expect = spec_build_body(
        holder@,
        bound_manifest@,
        match parent {
            Some(p) => Some(p@),
            None => None,
        },
        issued_at@,
        expires_at@,
        elems_view(caveats@),
        escalatable@.map_values(|s: &str| s@),
    );
    assert(fields_view(fields@) =~= expect->Object_0);
    Ok(body)
}

} // verus!
