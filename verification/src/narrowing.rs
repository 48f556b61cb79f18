//! Attenuation narrows authority.
//!
//! A capability that passes §5.2 attenuation verification against its
//! parent can never allow a call that the parent would refuse: per
//! dimension the child's check implies the parent's, and the parent's
//! structural gates (expiry, manifest binding) are no stricter than the
//! child's.

use vstd::prelude::*;
use crate::json::{strings_of, JsonV};
use crate::capability::{
    caveats_of, child_for_key, glob_covered_by, globs_cover_all, law_glob_cover_sound,
    parent_caveats_check, spec_attenuation, spec_caveat_key, spec_dim_subset,
};
use crate::evaluate::{
    cap_caveats, caveat_check, caveat_checks, consumed, dim_check, escalatable_of, exempted,
    exempted_checks, exemption_for, failed_keys, matched_by_any, out_of_scope, spec_evaluate,
    CheckV, CtxV, OutcomeV,
};

verus! {

/// One of the dimensions the evaluator checks mechanically.
pub open spec fn known_dim(d: Seq<char>) -> bool {
    ||| d == "action.allow"@
    ||| d == "reversibility.max"@
    ||| d == "external_reach"@
    ||| d == "budget.count"@
    ||| d == "paths.write"@
    ||| d == "time"@
    ||| d == "approval.min_auth"@
}

/// With no exemptions on offer, the exemption pass changes nothing.
proof fn lemma_no_exemptions(cs: Seq<CheckV>, esc: Seq<Seq<char>>)
    ensures
        exempted_checks(cs, esc, Seq::empty()) == cs,
{
    let ex = Seq::<(Seq<char>, Seq<char>)>::empty();
    assert forall|i: int| 0 <= i < cs.len() implies #[trigger] exempted(cs[i], esc, ex).0 == cs[i] by {
        assert(exemption_for(ex, cs[i].caveat) is None);
    }
    assert(exempted_checks(cs, esc, ex) =~= cs);
}

/// No check failed exactly when every check is ok.
proof fn lemma_failed_keys_empty(cs: Seq<CheckV>)
    ensures
        (failed_keys(cs).len() == 0) == (forall|i: int| 0 <= i < cs.len() ==> (#[trigger] cs[i]).ok),
    decreases cs.len(),
{
    if cs.len() > 0 {
        lemma_failed_keys_empty(cs.drop_first());
        if failed_keys(cs).len() == 0 {
            assert forall|i: int| 0 <= i < cs.len() implies (#[trigger] cs[i]).ok by {
                if i > 0 {
                    assert(cs[i] == cs.drop_first()[i - 1]);
                }
            }
        }
        if forall|i: int| 0 <= i < cs.len() ==> (#[trigger] cs[i]).ok {
            assert(cs[0].ok);
            assert forall|i: int| 0 <= i < cs.drop_first().len() implies (#[trigger] cs.drop_first()[i]).ok by {
                assert(cs.drop_first()[i] == cs[i + 1]);
            }
        }
    }
}

/// An array holds the string `t` exactly when its strings include `t`.
proof fn lemma_contains_str(a: Seq<JsonV>, t: Seq<char>)
    ensures
        a.contains(JsonV::Str(t)) == strings_of(a).contains(t),
    decreases a.len(),
{
    if a.len() > 0 {
        lemma_contains_str(a.drop_first(), t);
        let rest = strings_of(a.drop_first());
        if a.contains(JsonV::Str(t)) {
            let i = choose|i: int| 0 <= i < a.len() && a[i] == JsonV::Str(t);
            if i > 0 {
                assert(a.drop_first()[i - 1] == JsonV::Str(t));
                let j = choose|j: int| 0 <= j < rest.len() && rest[j] == t;
                match a[0] {
                    JsonV::Str(s) => {
                        assert((seq![s] + rest)[j + 1] == t);
                    },
                    _ => {},
                }
            } else {
                match a[0] {
                    JsonV::Str(s) => {
                        assert((seq![s] + rest)[0] == t);
                    },
                    _ => {},
                }
            }
        }
        if strings_of(a).contains(t) {
            let j = choose|j: int| 0 <= j < strings_of(a).len() && strings_of(a)[j] == t;
            match a[0] {
                JsonV::Str(s) => {
                    if j == 0 {
                        assert(a[0] == JsonV::Str(t));
                    } else {
                        assert(rest[j - 1] == t);
                        let i = choose|i: int| 0 <= i < a.drop_first().len() && a.drop_first()[i] == JsonV::Str(t);
                        assert(a[i + 1] == JsonV::Str(t));
                    }
                },
                _ => {
                    let i = choose|i: int| 0 <= i < a.drop_first().len() && a.drop_first()[i] == JsonV::Str(t);
                    assert(a[i + 1] == JsonV::Str(t));
                },
            }
        }
    }
}

/// No path is out of scope exactly when some glob matches every path.
proof fn lemma_out_of_scope_empty(paths: Seq<Seq<char>>, globs: Seq<Seq<char>>)
    ensures
        (out_of_scope(paths, globs).len() == 0) == (forall|i: int|
            0 <= i < paths.len() ==> matched_by_any(globs, #[trigger] paths[i])),
    decreases paths.len(),
{
    if paths.len() > 0 {
        let init = paths.drop_last();
        lemma_out_of_scope_empty(init, globs);
        if out_of_scope(paths, globs).len() == 0 {
            assert(matched_by_any(globs, paths.last()));
            assert forall|i: int| 0 <= i < paths.len() implies matched_by_any(globs, #[trigger] paths[i]) by {
                if i < paths.len() - 1 {
                    assert(paths[i] == init[i]);
                }
            }
        }
        if forall|i: int| 0 <= i < paths.len() ==> matched_by_any(globs, #[trigger] paths[i]) {
            assert(matched_by_any(globs, paths[paths.len() - 1]));
            assert forall|i: int| 0 <= i < init.len() implies matched_by_any(globs, #[trigger] init[i]) by {
                assert(init[i] == paths[i]);
            }
        }
    }
}

/// Every parent caveat that the walk accepted has a key, a matching child
/// caveat, and a verified subset relation with it.
proof fn lemma_parent_walk(pcavs: Seq<JsonV>, ccavs: Seq<JsonV>)
    requires
        parent_caveats_check(pcavs, ccavs) is None,
    ensures
        forall|i: int| #![trigger pcavs[i]] 0 <= i < pcavs.len() ==> {
            &&& spec_caveat_key(pcavs[i]) is Some
            &&& child_for_key(ccavs, spec_caveat_key(pcavs[i])->0) is Some
            &&& spec_dim_subset(
                pcavs[i].str_at("dim"@)->0,
                pcavs[i],
                child_for_key(ccavs, spec_caveat_key(pcavs[i])->0)->0,
            ) == Some(true)
        },
    decreases pcavs.len(),
{
    if pcavs.len() > 0 {
        lemma_parent_walk(pcavs.drop_first(), ccavs);
        assert forall|i: int| #![trigger pcavs[i]] 0 <= i < pcavs.len() implies {
            &&& spec_caveat_key(pcavs[i]) is Some
            &&& child_for_key(ccavs, spec_caveat_key(pcavs[i])->0) is Some
            &&& spec_dim_subset(
                pcavs[i].str_at("dim"@)->0,
                pcavs[i],
                child_for_key(ccavs, spec_caveat_key(pcavs[i])->0)->0,
            ) == Some(true)
        } by {
            if i > 0 {
                assert(pcavs[i] == pcavs.drop_first()[i - 1]);
            }
        }
    }
}

/// The child caveat that a key selects is one of the child's caveats, and
/// carries that key.
proof fn lemma_child_for_key(ccavs: Seq<JsonV>, key: Seq<char>)
    requires
        child_for_key(ccavs, key) is Some,
    ensures
        exists|j: int| 0 <= j < ccavs.len() && ccavs[j] == child_for_key(ccavs, key)->0,
        spec_caveat_key(child_for_key(ccavs, key)->0) == Some(key),
    decreases ccavs.len(),
{
    let last = ccavs[ccavs.len() - 1];
    if spec_caveat_key(last) == Some(key) {
        assert(ccavs[ccavs.len() - 1] == child_for_key(ccavs, key)->0);
    } else {
        lemma_child_for_key(ccavs.drop_last(), key);
        let j = choose|j: int| 0 <= j < ccavs.drop_last().len() && ccavs.drop_last()[j] == child_for_key(ccavs.drop_last(), key)->0;
        assert(ccavs[j] == ccavs.drop_last()[j]);
    }
}

/// Two caveats of known dimensions with the same key have the same
/// dimension.
proof fn lemma_key_fixes_dim(p: JsonV, c: JsonV)
    requires
        spec_caveat_key(p) is Some,
        spec_caveat_key(p) == spec_caveat_key(c),
        known_dim(p.str_at("dim"@)->0),
        known_dim(c.str_at("dim"@)->0),
    ensures
        p.str_at("dim"@)->0 == c.str_at("dim"@)->0,
{
    let pd = p.str_at("dim"@)->0;
    let cd = c.str_at("dim"@)->0;
    reveal_strlit("action.allow");
    reveal_strlit("reversibility.max");
    reveal_strlit("external_reach");
    reveal_strlit("budget.count");
    reveal_strlit("paths.write");
    reveal_strlit("time");
    reveal_strlit("approval.min_auth");
    reveal_strlit(":");
    if pd == "budget.count"@ && cd != "budget.count"@ {
        let k = spec_caveat_key(p)->0;
        assert(k.len() >= 13 && k[12] == ':');
        assert(cd == k);
    }
    if cd == "budget.count"@ && pd != "budget.count"@ {
        let k = spec_caveat_key(c)->0;
        assert(k.len() >= 13 && k[12] == ':');
        assert(pd == k);
    }
}

/// Per dimension: a verified subset relation carries the child's passing
/// check over to the parent.
proof fn lemma_dim_narrowing(d: Seq<char>, key: Seq<char>, p: JsonV, c: JsonV, ctx: CtxV, meters: Seq<(Seq<char>, u64)>)
    requires
        spec_dim_subset(d, p, c) == Some(true),
        dim_check(d, key, c, ctx, meters).0.ok,
    ensures
        dim_check(d, key, p, ctx, meters).0.ok,
{
    if d == "action.allow"@ {
        let ct = c.at("tools"@).as_array()->0;
        let ca = c.at("actions"@).as_array()->0;
        lemma_contains_str(ct, ctx.tool);
        lemma_contains_str(ca, ctx.action);
        let ci = choose|i: int| 0 <= i < strings_of(ct).len() && strings_of(ct)[i] == ctx.tool;
        assert(p.str_list_at("tools"@).contains(strings_of(ct)[ci]));
        let cj = choose|i: int| 0 <= i < strings_of(ca).len() && strings_of(ca)[i] == ctx.action;
        assert(p.str_list_at("actions"@).contains(strings_of(ca)[cj]));
        lemma_contains_str(p.at("tools"@).as_array()->0, ctx.tool);
        lemma_contains_str(p.at("actions"@).as_array()->0, ctx.action);
        assert(dim_check(d, key, p, ctx, meters).0.ok);
    } else if d == "reversibility.max"@ {
        assert(dim_check(d, key, p, ctx, meters).0.ok);
    } else if d == "external_reach"@ {
        reveal_strlit("none");
        reveal_strlit("mocks");
        reveal_strlit("live");
        assert("live"@ != "none"@) by {
            assert("live"@[0] != "none"@[0]);
        }
        assert("live"@ != "mocks"@);
        assert(crate::capability::spec_reach_rank("live"@) == Some(2u8));
        let pr = crate::capability::reach_rank_at(p, "mode"@);
        let cr = crate::capability::reach_rank_at(c, "mode"@);
        if ctx.side_effect == "external"@ {
            assert(cr == Some(2u8));
            assert(pr is Some && pr->0 <= 2);
            assert(pr == Some(2u8));
        }
        assert(dim_check(d, key, p, ctx, meters).0.ok);
    } else if d == "budget.count"@ {
        assert(p.str_at("action_class"@) == c.str_at("action_class"@));
        assert(p.str_at("window"@) == c.str_at("window"@));
        assert(dim_check(d, key, p, ctx, meters).0.ok);
    } else if d == "paths.write"@ {
        match ctx.write_paths {
            None => {},
            Some(paths) => {
                let pg = p.str_list_at("globs"@);
                let cg = c.str_list_at("globs"@);
                lemma_out_of_scope_empty(paths, cg);
                assert forall|i: int| 0 <= i < paths.len() implies matched_by_any(pg, #[trigger] paths[i]) by {
                    assert(matched_by_any(cg, paths[i]));
                    let g = choose|g: int| 0 <= g < cg.len() && crate::capability::spec_glob_matches(#[trigger] cg[g], paths[i]);
                    assert(glob_covered_by(pg, cg[g]));
                    let q = choose|q: int| 0 <= q < pg.len() && crate::capability::spec_glob_covers(#[trigger] pg[q], cg[g]);
                    law_glob_cover_sound(pg[q], cg[g], paths[i]);
                }
                lemma_out_of_scope_empty(paths, pg);
            },
        }
        assert(dim_check(d, key, p, ctx, meters).0.ok);
    } else if d == "time"@ {
        assert(dim_check(d, key, p, ctx, meters).0.ok);
    } else {
        assert(dim_check(d, key, p, ctx, meters).0.ok);
    }
}

/// Attenuation is a semantic subset: when §5.2 verification accepts `child`
/// as an attenuation of `parent`, and both are bound to the same manifest,
/// then every call that `child` allows (with no approval exemptions on
/// offer) `parent` allows too, under the same recorded budget consumption.
/// A counterexample would be a privilege escalation through delegation.
pub proof fn law_attenuation_narrows(parent: JsonV, child: JsonV, ctx: CtxV, meters: Seq<(Seq<char>, u64)>)
    requires
        spec_attenuation(parent, child) is None,
        parent.str_at("bound_manifest"@) == child.str_at("bound_manifest"@),
        spec_evaluate(child, ctx, meters, Seq::empty()).outcome is Allow,
    ensures
        spec_evaluate(parent, ctx, meters, Seq::empty()).outcome is Allow,
{
    let ex = Seq::<(Seq<char>, Seq<char>)>::empty();
    let ccavs = cap_caveats(child);
    let pcavs = cap_caveats(parent);
    assert(ccavs == caveats_of(child));
    assert(pcavs == caveats_of(parent));
    let craw = caveat_checks(ccavs, ctx, meters);
    lemma_no_exemptions(craw, escalatable_of(child));
    lemma_failed_keys_empty(craw);
    lemma_parent_walk(pcavs, ccavs);
    let praw = caveat_checks(pcavs, ctx, meters);
    assert forall|i: int| 0 <= i < praw.len() implies (#[trigger] praw[i]).ok by {
        let pc = pcavs[i];
        let key = spec_caveat_key(pc)->0;
        let cc = child_for_key(ccavs, key)->0;
        lemma_child_for_key(ccavs, key);
        let j = choose|j: int| 0 <= j < ccavs.len() && ccavs[j] == cc;
        assert(craw[j].ok);
        assert(caveat_check(cc, ctx, meters).0.ok);
        let pd = pc.str_at("dim"@)->0;
        let cd = cc.str_at("dim"@)->0;
        assert(known_dim(pd));
        assert(known_dim(cd));
        lemma_key_fixes_dim(pc, cc);
        lemma_dim_narrowing(pd, key, pc, cc, ctx, meters);
        assert(praw[i] == caveat_check(pc, ctx, meters).0);
    }
    lemma_no_exemptions(praw, escalatable_of(parent));
    lemma_failed_keys_empty(praw);
}

} // verus!
