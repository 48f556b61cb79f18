use asf_kernel::json::{Json, JsonNumber};
use asf_kernel::promote::{default_policy_allows, diff, three_way, tree_from_object, Op, Tree};

fn tree(entries: &[(&str, &str)]) -> Tree {
    let mut t = Tree::new();
    for (p, h) in entries {
        t.insert(p.to_string(), h.to_string());
    }
    t
}

fn at<'a>(t: &'a Tree, p: &str) -> &'a str {
    t.get(p).unwrap().as_str()
}

#[test]
fn rename_never_renders_as_mass_deletion() {
    let base = tree(&[("a.md", "h1"), ("b.md", "h2"), ("c.md", "h3")]);
    let side = tree(&[("notes/a.md", "h1"), ("notes/b.md", "h2"), ("notes/c.md", "h3")]);
    let ops = diff(&base, &side);
    assert_eq!(ops.len(), 3);
    assert!(ops.iter().all(|o| o.class() == "move"), "{ops:?}");
}

#[test]
fn rename_vs_move_distinction() {
    let base = tree(&[("dir/a.md", "h1"), ("dir/b.md", "h2")]);
    let side = tree(&[("dir/a2.md", "h1"), ("other/b.md", "h2")]);
    let ops = diff(&base, &side);
    assert!(ops.contains(&Op::Rename { from: "dir/a.md".into(), to: "dir/a2.md".into() }));
    assert!(ops.contains(&Op::Move { from: "dir/b.md".into(), to: "other/b.md".into() }));
}

#[test]
fn ambiguous_duplicate_content_stays_add_delete() {
    let base = tree(&[("x.md", "same"), ("y.md", "same")]);
    let side = tree(&[("z.md", "same")]);
    let ops = diff(&base, &side);
    let classes: Vec<&str> = ops.iter().map(Op::class).collect();
    assert!(classes.contains(&"add") && classes.contains(&"delete"));
    assert!(!classes.contains(&"rename") && !classes.contains(&"move"));
}

#[test]
fn non_conflicting_changes_from_both_sides_land() {
    let base = tree(&[("keep.md", "h0"), ("agent.md", "h0"), ("human.md", "h0")]);
    let branch = tree(&[("keep.md", "h0"), ("agent.md", "AGENT"), ("human.md", "h0"), ("new.md", "N")]);
    let trunk = tree(&[("keep.md", "h0"), ("agent.md", "h0"), ("human.md", "HUMAN")]);
    let r = three_way(&base, &branch, &trunk);
    assert!(r.conflicts.is_empty());
    assert_eq!(at(&r.merged, "agent.md"), "AGENT");
    assert_eq!(at(&r.merged, "human.md"), "HUMAN");
    assert_eq!(at(&r.merged, "new.md"), "N");
    assert_eq!(at(&r.merged, "keep.md"), "h0");
}

#[test]
fn conflicts_trunk_wins_and_branch_version_recorded() {
    let base = tree(&[("both.md", "h0"), ("del-vs-mod.md", "h0"), ("mod-vs-del.md", "h0")]);
    let branch = tree(&[("both.md", "AGENT"), ("mod-vs-del.md", "AGENT")]);
    let trunk = tree(&[("both.md", "HUMAN"), ("del-vs-mod.md", "HUMAN")]);
    let r = three_way(&base, &branch, &trunk);
    assert_eq!(r.conflicts.len(), 3);
    assert_eq!(at(&r.merged, "both.md"), "HUMAN");
    assert_eq!(at(&r.merged, "del-vs-mod.md"), "HUMAN");
    assert!(!r.merged.contains_key("mod-vs-del.md"));
    for c in &r.conflicts {
        assert_eq!(c.resolution, "trunk_wins");
    }
}

#[test]
fn identical_changes_do_not_conflict() {
    let base = tree(&[("f.md", "h0")]);
    let branch = tree(&[("f.md", "SAME")]);
    let trunk = tree(&[("f.md", "SAME")]);
    let r = three_way(&base, &branch, &trunk);
    assert!(r.conflicts.is_empty());
    assert_eq!(at(&r.merged, "f.md"), "SAME");
}

#[test]
fn default_policy_gates_destructive_classes() {
    let base = tree(&[("a.md", "h1")]);
    let adds = three_way(&base, &tree(&[("a.md", "h1"), ("b.md", "h2")]), &base);
    assert!(default_policy_allows(&adds.ops, &adds.conflicts));

    let deletes = three_way(&base, &tree(&[]), &base);
    assert!(!default_policy_allows(&deletes.ops, &deletes.conflicts));

    let conflicted = three_way(&base, &tree(&[("a.md", "X")]), &tree(&[("a.md", "Y")]));
    assert!(!default_policy_allows(&conflicted.ops, &conflicted.conflicts));
}

#[test]
fn diff_is_sorted_by_operation_text() {
    let base = tree(&[("a.md", "h1"), ("m.md", "old"), ("z.md", "gone")]);
    let side = tree(&[("a.md", "h1"), ("m.md", "new"), ("b.md", "fresh")]);
    let ops = diff(&base, &side);
    assert_eq!(
        ops,
        vec![
            Op::Add { path: "b.md".into() },
            Op::Delete { path: "z.md".into() },
            Op::Modify { path: "m.md".into() },
        ]
    );
    let texts: Vec<String> = ops.iter().map(|o| asf_kernel::json_text::to_json_text(&o.to_json())).collect();
    assert_eq!(texts[0], r#"{"op":"add","path":"b.md"}"#);
}

#[test]
fn merge_identities() {
    let base = tree(&[("a.md", "h1"), ("b.md", "h2")]);
    let trunk = tree(&[("a.md", "H"), ("c.md", "h3")]);
    let r = three_way(&base, &base, &trunk);
    assert_eq!(r.merged.entries(), trunk.entries());
    assert!(r.conflicts.is_empty());
    let branch = tree(&[("b.md", "B")]);
    let r = three_way(&base, &branch, &base);
    assert_eq!(r.merged.entries(), branch.entries());
    assert!(r.conflicts.is_empty());
}

#[test]
fn conflict_card_renders_all_versions() {
    let base = tree(&[("f.md", "h0")]);
    let r = three_way(&base, &tree(&[]), &tree(&[("f.md", "H")]));
    let card = r.conflicts[0].to_json();
    assert_eq!(card.get("base"), Some(&Json::Str("h0".into())));
    assert_eq!(card.get("branch"), Some(&Json::Null));
    assert_eq!(card.get("trunk"), Some(&Json::Str("H".into())));
    assert_eq!(card.get("resolution"), Some(&Json::Str("trunk_wins".into())));
    assert_eq!(card.get("path"), Some(&Json::Str("f.md".into())));
}

#[test]
fn tree_from_object_reads_entries() {
    let entry = |p: &str, h: &str| {
        Json::Object(vec![("hash".to_string(), Json::Str(h.into())), ("path".to_string(), Json::Str(p.into()))])
    };
    let obj = Json::Object(vec![(
        "entries".to_string(),
        Json::Array(vec![
            entry("b.md", "h2"),
            entry("a.md", "h1"),
            Json::Object(vec![("path".to_string(), Json::Number(JsonNumber::Int(3)))]),
        ]),
    )]);
    let t = tree_from_object(&obj);
    assert_eq!(t.len(), 2);
    assert_eq!(at(&t, "a.md"), "h1");
    assert_eq!(at(&t, "b.md"), "h2");
    assert_eq!(t.entries()[0].0, "a.md");
}

fn target(o: &Op) -> Option<&str> {
    match o {
        Op::Add { path } => Some(path.as_str()),
        Op::Rename { to, .. } | Op::Move { to, .. } => Some(to.as_str()),
        _ => None,
    }
}

fn source(o: &Op) -> Option<&str> {
    match o {
        Op::Delete { path } => Some(path.as_str()),
        Op::Rename { from, .. } | Op::Move { from, .. } => Some(from.as_str()),
        _ => None,
    }
}

#[test]
fn diff_accounts_for_each_added_and_deleted_path_once() {
    let base = tree(&[("a.md", "h1"), ("dir/b.md", "h2"), ("c.md", "h3"), ("x.md", "same"), ("y.md", "same")]);
    let side = tree(&[("a.md", "h1x"), ("dir/b2.md", "h2"), ("other/c.md", "h3"), ("d.md", "h4"), ("z.md", "same")]);
    let ops = diff(&base, &side);
    assert_eq!(ops.len(), 7, "{ops:?}");
    for p in ["dir/b2.md", "other/c.md", "d.md", "z.md"] {
        assert_eq!(ops.iter().filter(|o| target(o) == Some(p)).count(), 1, "{p}");
    }
    for p in ["dir/b.md", "c.md", "x.md", "y.md"] {
        assert_eq!(ops.iter().filter(|o| source(o) == Some(p)).count(), 1, "{p}");
    }
    assert!(ops.contains(&Op::Modify { path: "a.md".into() }));
    assert!(ops.contains(&Op::Rename { from: "dir/b.md".into(), to: "dir/b2.md".into() }));
    assert!(ops.contains(&Op::Move { from: "c.md".into(), to: "other/c.md".into() }));
}

#[test]
fn three_way_ops_are_the_branch_diff() {
    let base = tree(&[("a.md", "h1"), ("dir/b.md", "h2"), ("c.md", "h3")]);
    let branch = tree(&[("a.md", "h1x"), ("dir/b2.md", "h2"), ("d.md", "h4")]);
    let trunk = tree(&[("a.md", "h1"), ("c.md", "h3"), ("e.md", "h5")]);
    let r = three_way(&base, &branch, &trunk);
    assert_eq!(r.ops, diff(&base, &branch));
}
