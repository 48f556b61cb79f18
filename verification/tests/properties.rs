//! Property tests: a seeded xorshift generator (fully reproducible) and
//! one exhaustive enumeration.

use asf_kernel::capability::{glob_covers, glob_matches, known_dims, verify_attenuation};
use asf_kernel::evaluate::{evaluate, CallCtx, Outcome};
use asf_kernel::json::{Json, JsonNumber};
use asf_kernel::promote::{three_way, Tree};
use serde_json::Value;
use time::format_description::well_known::Rfc3339;
use time::{Duration, OffsetDateTime};

struct Rng(u64);

impl Rng {
    fn next(&mut self) -> u64 {
        let mut x = self.0;
        x ^= x >> 12;
        x ^= x << 25;
        x ^= x >> 27;
        self.0 = x;
        x.wrapping_mul(0x2545F4914F6CDD1D)
    }
    fn pick<'a, T>(&mut self, xs: &'a [T]) -> &'a T {
        &xs[(self.next() % xs.len() as u64) as usize]
    }
    fn chance(&mut self, percent: u64) -> bool {
        self.next() % 100 < percent
    }
}

fn conv(v: &Value) -> Json {
    match v {
        Value::Null => Json::Null,
        Value::Bool(b) => Json::Bool(*b),
        Value::Number(n) => match n.as_i64() {
            Some(i) => Json::Number(JsonNumber::Int(i as i128)),
            None => Json::Number(JsonNumber::Float(n.to_string())),
        },
        Value::String(s) => Json::Str(s.clone()),
        Value::Array(a) => Json::Array(a.iter().map(conv).collect()),
        Value::Object(m) => Json::Object(m.iter().map(|(k, v)| (k.clone(), conv(v))).collect()),
    }
}

fn obj(pairs: Vec<(&str, Value)>) -> Value {
    let mut m = serde_json::Map::new();
    for (k, v) in pairs {
        m.insert(k.to_string(), v);
    }
    Value::Object(m)
}

fn strs(xs: &[&str]) -> Value {
    Value::Array(xs.iter().map(|s| Value::String(s.to_string())).collect())
}

fn s(x: &str) -> Value {
    Value::String(x.to_string())
}

const PATHS: &[&str] = &["inbox/a.md", "inbox/b.md", "inbox/sub/c.md", "MOCs/m.md", "root.md", "notes/x.md"];
const HASHES: &[&str] = &["h1", "h2", "h3", "h4"];

fn random_tree(rng: &mut Rng) -> Tree {
    let mut t = Tree::new();
    for p in PATHS {
        if rng.chance(60) {
            t.insert(p.to_string(), rng.pick(HASHES).to_string());
        }
    }
    t
}

fn mutate(rng: &mut Rng, base: &Tree) -> Tree {
    let mut t = Tree::new();
    for (p, h) in base.entries() {
        if rng.chance(75) {
            let h = if rng.chance(30) { rng.pick(HASHES).to_string() } else { h.clone() };
            t.insert(p.clone(), h);
        }
    }
    for p in PATHS {
        if !base.contains_key(p) && rng.chance(25) {
            t.insert(p.to_string(), rng.pick(HASHES).to_string());
        }
    }
    t
}

fn keys(t: &Tree) -> Vec<String> {
    t.entries().iter().map(|(k, _)| k.clone()).collect()
}

#[test]
fn p1_p2_p3_merge_properties() {
    let mut rng = Rng(0x5EED_0001);
    for case in 0..2000 {
        let base = random_tree(&mut rng);
        let branch = mutate(&mut rng, &base);
        let trunk = mutate(&mut rng, &base);

        // P1a: agent did nothing → trunk state is the merge.
        let r = three_way(&base, &base, &trunk);
        assert_eq!(r.merged.entries(), trunk.entries(), "P1a case {case}");
        assert!(r.conflicts.is_empty(), "P1a case {case}");

        // P1b: human did nothing → agent's branch is the merge.
        let r = three_way(&base, &branch, &base);
        assert_eq!(r.merged.entries(), branch.entries(), "P1b case {case}");
        assert!(r.conflicts.is_empty(), "P1b case {case}");

        // General merge: P2 + P3, path by path.
        let r = three_way(&base, &branch, &trunk);
        let mut all: Vec<String> = keys(&base).into_iter().chain(keys(&branch)).chain(keys(&trunk)).collect();
        all.sort();
        all.dedup();
        for p in &all {
            let (b, br, tr) = (base.get(p), branch.get(p), trunk.get(p));
            let both_changed_differently = br != b && tr != b && br != tr;
            let has_conflict = r.conflicts.iter().any(|c| &c.path == p);
            assert_eq!(both_changed_differently, has_conflict, "P2 conflict iff divergent double-change: case {case} path {p}");
            if both_changed_differently {
                assert_eq!(r.merged.get(p), tr, "P2 trunk-wins: case {case} path {p}");
            }
            if br != b && tr == b {
                assert_eq!(r.merged.get(p), br, "P3 agent change lands: case {case} path {p}");
            }
        }
    }
}

#[test]
fn p4_glob_cover_soundness_exhaustive() {
    let segs = ["a", "b", "ab", "*", "**", "a*"];
    let path_segs = ["a", "b", "ab", "ba"];
    let mut globs: Vec<String> = Vec::new();
    let mut paths: Vec<String> = Vec::new();
    for d1 in segs {
        globs.push(d1.to_string());
        for d2 in segs {
            globs.push(format!("{d1}/{d2}"));
            for d3 in segs {
                globs.push(format!("{d1}/{d2}/{d3}"));
            }
        }
    }
    for d1 in path_segs {
        paths.push(d1.to_string());
        for d2 in path_segs {
            paths.push(format!("{d1}/{d2}"));
            for d3 in path_segs {
                paths.push(format!("{d1}/{d2}/{d3}"));
            }
        }
    }
    let mut covered_pairs = 0;
    for parent in &globs {
        for child in &globs {
            if !glob_covers(parent, child) {
                continue;
            }
            covered_pairs += 1;
            for path in &paths {
                if glob_matches(child, path) {
                    assert!(glob_matches(parent, path), "SOUNDNESS HOLE: glob_covers({parent}, {child}) but {path} matches child only");
                }
            }
        }
    }
    assert!(covered_pairs > 100, "the conservative rule should accept some real coverage");
}

const ACTIONS: &[&str] = &["note.read", "note.write", "note.move", "note.delete"];
const GLOBSETS: &[&[&str]] = &[&["**"], &["inbox/**"], &["inbox/**", "MOCs/**"], &["inbox/drafts/**"]];
const REVS: &[&str] = &["reversible", "compensable", "irreversible"];

fn random_cap(rng: &mut Rng, id: &str, parent: Option<&str>) -> Json {
    let n_actions = 1 + (rng.next() % ACTIONS.len() as u64) as usize;
    let mut actions: Vec<&str> = Vec::new();
    while actions.len() < n_actions {
        let a = rng.pick(ACTIONS);
        if !actions.contains(a) {
            actions.push(a);
        }
    }
    let rev = *rng.pick(REVS);
    let globs = *rng.pick(GLOBSETS);
    let max = rng.next() % 5;
    conv(&obj(vec![
        ("id", s(id)),
        ("parent", parent.map(s).unwrap_or(Value::Null)),
        ("holder", s("prin:agent")),
        ("bound_manifest", s("man:x")),
        ("issued_at", s("2026-07-08T00:00:00Z")),
        ("expires_at", s("2027-01-01T00:00:00Z")),
        ("caveats", Value::Array(vec![
            obj(vec![("dim", s("action.allow")), ("tools", strs(&["tool:vault@1.0"])), ("actions", strs(&actions))]),
            obj(vec![("dim", s("reversibility.max")), ("max", s(rev))]),
            obj(vec![("dim", s("paths.write")), ("globs", strs(globs))]),
            obj(vec![("dim", s("budget.count")), ("action_class", s("write")), ("max", Value::from(max)), ("window", s("run"))]),
        ])),
        ("on_violation", obj(vec![("default", s("deny")), ("escalatable", strs(&[]))])),
    ]))
}

fn class_of(action: &str) -> &'static str {
    match action {
        "note.delete" => "delete",
        "note.move" => "move",
        "note.read" => "read",
        _ => "write",
    }
}

fn meters(used: u64) -> Vec<(String, u64)> {
    vec![("budget.count:write".to_string(), used)]
}

#[test]
fn p5_attenuation_implies_semantic_subset() {
    let mut rng = Rng(0x5EED_0002);
    let write_path_pool: &[&[&str]] = &[
        &["inbox/a.md"],
        &["inbox/drafts/d.md"],
        &["MOCs/m.md"],
        &["inbox/a.md", "MOCs/m.md"],
        &["elsewhere/x.md"],
    ];
    let mut verified_pairs = 0;
    let mut allows_checked = 0;
    for _ in 0..4000 {
        let parent = random_cap(&mut rng, "cap:parent", None);
        let child = random_cap(&mut rng, "cap:child", Some("cap:parent"));
        if verify_attenuation(&parent, &child).is_err() {
            continue;
        }
        verified_pairs += 1;
        for _ in 0..40 {
            let action = *rng.pick(ACTIONS);
            let class = class_of(action);
            let rev = *rng.pick(REVS);
            let paths: Option<Vec<String>> =
                if class == "read" { None } else { Some(rng.pick(write_path_pool).iter().map(|s| s.to_string()).collect()) };
            let ctx = CallCtx {
                tool: "tool:vault@1.0",
                action,
                reversibility: rev,
                side_effect: "local",
                action_class: class,
                write_paths: paths,
                now: "2026-07-08T06:00:00Z",
                current_manifest: "man:x",
            };
            let used = rng.next() % 5;
            let child_eval = evaluate(&child, &ctx, &meters(used), &vec![]);
            if child_eval.outcome == Outcome::Allow {
                allows_checked += 1;
                let parent_eval = evaluate(&parent, &ctx, &meters(used), &vec![]);
                assert_eq!(parent_eval.outcome, Outcome::Allow, "PRIVILEGE ESCALATION: child allows {action} (rev={rev}, used={used})");
            }
        }
    }
    assert!(verified_pairs > 50, "generator should produce valid attenuations ({verified_pairs})");
    assert!(allows_checked > 500, "and child-allowed calls to check ({allows_checked})");
}

#[test]
fn p6_instant_compare_agrees_with_chronology_strings_do_not() {
    let base = OffsetDateTime::from_unix_timestamp(1_800_000_000).unwrap();
    let fmt = |t: OffsetDateTime| t.format(&Rfc3339).unwrap();

    let crafted = [
        (base, base + Duration::milliseconds(500)),
        (base + Duration::milliseconds(1), base + Duration::milliseconds(999)),
        (base, base + Duration::nanoseconds(1)),
    ];
    let mut string_disagreements = 0;
    for (ti, tj) in crafted {
        let (si, sj) = (fmt(ti), fmt(tj));
        assert_eq!(
            asf_kernel::parse_instant(&si).unwrap() <= asf_kernel::parse_instant(&sj).unwrap(),
            ti <= tj,
            "instant compare wrong: {si} vs {sj}"
        );
        if (si <= sj) != (ti <= tj) {
            string_disagreements += 1;
        }
    }
    assert!(string_disagreements > 0, "crafted same-second pairs should expose the lexical hazard");

    let mut rng = Rng(0x5EED_0006);
    let mk = |rng: &mut Rng| -> OffsetDateTime {
        let secs = (rng.next() % 200_000_000) as i64;
        let nanos = if rng.chance(50) { 0 } else { (rng.next() % 1_000_000_000) as i64 };
        base + Duration::seconds(secs) + Duration::nanoseconds(nanos)
    };
    for _ in 0..4000 {
        let (ti, tj) = (mk(&mut rng), mk(&mut rng));
        let (si, sj) = (fmt(ti), fmt(tj));
        assert_eq!(
            asf_kernel::parse_instant(&si).unwrap() <= asf_kernel::parse_instant(&sj).unwrap(),
            ti <= tj,
            "instant compare disagreed with chronology: {si} vs {sj}"
        );
    }
}

fn actions_from_mask(mask: u8) -> Vec<&'static str> {
    ACTIONS.iter().enumerate().filter_map(|(i, action)| (mask & (1 << i) != 0).then_some(*action)).collect()
}

fn ranked<'a>(rank: u8, values: &'a [&'a str]) -> &'a str {
    values[usize::from(rank)]
}

#[allow(clippy::too_many_arguments)]
fn full_cap(id: &str, parent: Option<&str>, actions: u8, rev: u8, reach: u8, budget: u8, scope: u8,
    not_before_hour: u8, not_after_hour: u8, auth: u8) -> Value {
    let revs = ["reversible", "compensable", "irreversible"];
    let reaches = ["none", "mocks", "live"];
    let scopes = ["**", "inbox/**", "inbox/drafts/**"];
    let strengths = ["unverified", "platform_oauth", "passkey"];
    obj(vec![
        ("id", s(id)),
        ("parent", parent.map(s).unwrap_or(Value::Null)),
        ("holder", s("prin:agent")),
        ("bound_manifest", s("man:x")),
        ("issued_at", s("2026-07-08T00:00:00Z")),
        ("expires_at", s("2027-01-01T00:00:00Z")),
        ("caveats", Value::Array(vec![
            obj(vec![("dim", s("action.allow")), ("tools", strs(&["tool:vault@1.0"])), ("actions", strs(&actions_from_mask(actions)))]),
            obj(vec![("dim", s("reversibility.max")), ("max", s(ranked(rev, &revs)))]),
            obj(vec![("dim", s("external_reach")), ("mode", s(ranked(reach, &reaches)))]),
            obj(vec![("dim", s("budget.count")), ("action_class", s("write")), ("max", Value::from(budget)), ("window", s("run"))]),
            obj(vec![("dim", s("paths.write")), ("globs", strs(&[ranked(scope, &scopes)]))]),
            obj(vec![
                ("dim", s("time")),
                ("not_before", s(&format!("2026-07-08T{not_before_hour:02}:00:00Z"))),
                ("not_after", s(&format!("2026-07-08T{not_after_hour:02}:00:00Z"))),
            ]),
            obj(vec![("dim", s("approval.min_auth")), ("min", s(ranked(auth, &strengths)))]),
        ])),
        ("on_violation", obj(vec![("default", s("deny")), ("escalatable", strs(&[]))])),
    ])
}

#[test]
fn p7_generator_tracks_the_evaluator_vocabulary() {
    let cap = full_cap("cap:coverage", None, 1, 0, 0, 0, 0, 0, 13, 0);
    let mut generated: Vec<&str> = cap["caveats"]
        .as_array()
        .expect("generated capability has caveats")
        .iter()
        .map(|caveat| caveat["dim"].as_str().expect("generated caveat has a dimension"))
        .collect();
    generated.sort_unstable();
    generated.dedup();

    let mut evaluated = known_dims();
    evaluated.sort_unstable();
    evaluated.dedup();

    assert_eq!(generated, evaluated, "P7 must generate every mechanically evaluated caveat dimension");
}

#[test]
fn p7_full_vocabulary_attenuation_is_semantic_subset() {
    let mut rng = Rng(0x5EED_0007);
    let paths = ["inbox/drafts/d.md", "inbox/a.md", "MOCs/m.md", "elsewhere/x.md"];
    for _ in 0..512 {
        let pick = |rng: &mut Rng, n: u64| (rng.next() % n) as u8;
        let parent_action_mask = 1 + pick(&mut rng, 15);
        let child_action_seed = 1 + pick(&mut rng, 15);
        let (rev_a, rev_b) = (pick(&mut rng, 3), pick(&mut rng, 3));
        let (reach_a, reach_b) = (pick(&mut rng, 3), pick(&mut rng, 3));
        let (budget_a, budget_b) = (pick(&mut rng, 8), pick(&mut rng, 8));
        let (scope_a, scope_b) = (pick(&mut rng, 3), pick(&mut rng, 3));
        let (auth_a, auth_b) = (pick(&mut rng, 3), pick(&mut rng, 3));
        let child_start = pick(&mut rng, 7);
        let child_end = 7 + pick(&mut rng, 6);
        let call_action = pick(&mut rng, ACTIONS.len() as u64) as usize;
        let call_rev = pick(&mut rng, 3);
        let call_external = rng.chance(50);
        let call_path = pick(&mut rng, 4);
        let used = rng.next() % 9;
        let now_hour = pick(&mut rng, 14);

        let mut child_action_mask = parent_action_mask & child_action_seed;
        if child_action_mask == 0 {
            child_action_mask = parent_action_mask & parent_action_mask.wrapping_neg();
        }
        let parent = conv(&full_cap("cap:parent", None, parent_action_mask, rev_a.max(rev_b), reach_a.max(reach_b),
            budget_a.max(budget_b), scope_a.min(scope_b), 0, 13, auth_a.min(auth_b)));
        let child = conv(&full_cap("cap:child", Some("cap:parent"), child_action_mask, rev_a.min(rev_b), reach_a.min(reach_b),
            budget_a.min(budget_b), scope_a.max(scope_b), child_start, child_end, auth_a.max(auth_b)));
        assert!(verify_attenuation(&parent, &child).is_ok(), "constructed attenuation rejected");

        let action = ACTIONS[call_action];
        let class = class_of(action);
        let write_paths = (class != "read").then(|| vec![paths[usize::from(call_path)].to_string()]);
        let now = format!("2026-07-08T{now_hour:02}:00:00Z");
        let ctx = CallCtx {
            tool: "tool:vault@1.0",
            action,
            reversibility: ranked(call_rev, &["reversible", "compensable", "irreversible"]),
            side_effect: if call_external { "external" } else { "local" },
            action_class: class,
            write_paths,
            now: &now,
            current_manifest: "man:x",
        };
        let child_eval = evaluate(&child, &ctx, &meters(used), &vec![]);
        if child_eval.outcome == Outcome::Allow {
            let parent_eval = evaluate(&parent, &ctx, &meters(used), &vec![]);
            assert_eq!(parent_eval.outcome, Outcome::Allow, "PRIVILEGE ESCALATION: action={action} used={used} now={now}");
        }
    }
}
