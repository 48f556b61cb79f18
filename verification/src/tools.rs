//! Tool registration.
//!
//! Tools declare their shape once; the broker countersigns. Everything here
//! is declared, trusted-mechanical metadata, and the conservative defaults
//! are applied at registration so the stored object is explicit about what
//! will be enforced: undeclared actions cannot be called; missing
//! reversibility is `irreversible`; an external action on an open surface
//! without an egress declaration is treated as egress.
//!
//! Each action declares `store` (which registered store it operates on),
//! `class` (the budget class it meters under) and `path_args` (which call
//! arguments carry write paths).

use vstd::prelude::*;
use crate::json::{
    elems_view, field_of, fields_insert, fields_view, json_view, lemma_elems_view_len,
    lemma_elems_view_push, lemma_fields_view_len, str_eq, Json, JsonV,
};
use crate::json_text::{json_text, to_json_text};
use crate::canon::{insert_field, CanonError};
use crate::capability::{cat, str_list_contains};
use crate::trace::TraceError;

verus! {

/// Why a registration or a lookup was refused.
#[derive(Debug)]
pub enum ToolError {
    Malformed(String),
    Canon(CanonError),
    Trace(TraceError),
    UndeclaredAction { tool: String, action: String },
}

/// The fields every action must declare as strings, in checking order.
pub open spec fn required_fields() -> Seq<Seq<char>> {
    seq!["name"@, "side_effect"@, "domain"@, "class"@, "store"@]
}

/// The first required field an action lacks (as a string), if any.
pub open spec fn missing_field(f: Seq<(Seq<char>, JsonV)>) -> Option<Seq<char>> {
    if !(JsonV::Object(f).str_at("name"@) is Some) {
        Some("name"@)
    } else if !(JsonV::Object(f).str_at("side_effect"@) is Some) {
        Some("side_effect"@)
    } else if !(JsonV::Object(f).str_at("domain"@) is Some) {
        Some("domain"@)
    } else if !(JsonV::Object(f).str_at("class"@) is Some) {
        Some("class"@)
    } else if !(JsonV::Object(f).str_at("store"@) is Some) {
        Some("store"@)
    } else {
        None
    }
}

/// Set `key` to `v` unless the action already declares it.
pub open spec fn or_insert(f: Seq<(Seq<char>, JsonV)>, key: Seq<char>, v: JsonV) -> Seq<(Seq<char>, JsonV)> {
    if field_of(f, key) is Some {
        f
    } else {
        fields_insert(f, key, v)
    }
}

/// The declared surface, `open` when absent or not a string.
pub open spec fn surface_of(f: Seq<(Seq<char>, JsonV)>) -> Seq<char> {
    match field_of(f, "surface"@) {
        Some(JsonV::Str(s)) => s,
        _ => "open"@,
    }
}

/// An action with the conservative defaults applied: reversibility
/// `irreversible`, compensator `null`, surface `open`, egress `true` for an
/// external action on an open surface, and no path arguments — each only
/// where the action declares nothing.
pub open spec fn normalized(f: Seq<(Seq<char>, JsonV)>) -> Seq<(Seq<char>, JsonV)> {
    let f1 = or_insert(f, "reversibility"@, JsonV::Str("irreversible"@));
    let f2 = or_insert(f1, "compensator"@, JsonV::Null);
    let external = JsonV::Object(f2).at("side_effect"@) == JsonV::Str("external"@);
    let surface = surface_of(f2);
    let f3 = or_insert(f2, "surface"@, JsonV::Str(surface));
    let f4 = if external && surface == "open"@ && field_of(f3, "egress"@) is None {
        fields_insert(f3, "egress"@, JsonV::Bool(true))
    } else {
        f3
    };
    or_insert(f4, "path_args"@, JsonV::Array(Seq::empty()))
}

/// How registration-time normalization fails, if it does: the first action
/// that is not an object or lacks a required field.
pub open spec fn actions_fault(a: Seq<JsonV>) -> Option<(int, Option<Seq<char>>)>
    decreases a.len(),
{
    if a.len() == 0 {
        None
    } else {
        match a[0] {
            JsonV::Object(f) => match missing_field(f) {
                Some(k) => Some((0, Some(k))),
                None => match actions_fault(a.drop_first()) {
                    Some((i, k)) => Some((i + 1, k)),
                    None => None,
                },
            },
            _ => Some((0, None)),
        }
    }
}

pub open spec fn normalized_all(a: Seq<JsonV>) -> Seq<JsonV> {
    Seq::new(a.len(), |i: int| match a[i] {
        JsonV::Object(f) => JsonV::Object(normalized(f)),
        other => other,
    })
}

pub(crate) fn copy_fields(f: &Vec<(String, Json)>) -> (r: Vec<(String, Json)>)
    ensures
        fields_view(r@) == fields_view(f@),
{
    proof { lemma_fields_view_len(f@); }
    let mut g: Vec<(String, Json)> = Vec::new();
    let mut m: usize = 0;
    while m < f.len()
        invariant
            m <= f.len(),
            fields_view(f@).len() == f.len(),
            forall|j: int| 0 <= j < f.len() ==> #[trigger] fields_view(f@)[j] == (f@[j].0@, json_view(f@[j].1)),
            fields_view(g@) == fields_view(f@).take(m as int),
        decreases f.len() - m,
    {
        let item = (f[m].0.clone(), f[m].1.deep_clone());
        proof { crate::json::lemma_fields_view_push(g@, item); }
        g.push(item);
        m += 1;
        assert(fields_view(g@) =~= fields_view(f@).take(m as int));
    }
    assert(fields_view(f@).take(m as int) =~= fields_view(f@));
    g
}

fn has_field(f: &Vec<(String, Json)>, k: &str) -> (r: bool)
    ensures
        r == field_of(fields_view(f@), k@) is Some,
{
    let o = Json::Object(copy_fields(f));
    o.get(k).is_some()
}

fn normalize_one(f: &Vec<(String, Json)>) -> (r: Vec<(String, Json)>)
    ensures
        fields_view(r@) == normalized(fields_view(f@)),
{
    let mut m = copy_fields(f);
    if !has_field(&m, "reversibility") {
        insert_field(&mut m, "reversibility".to_owned(), Json::from_str("irreversible"));
    }
    if !has_field(&m, "compensator") {
        insert_field(&mut m, "compensator".to_owned(), Json::Null);
    }
    let o = Json::Object(copy_fields(&m));
    let external = match o.get("side_effect") {
        Some(v) => crate::json::json_is_str(v, "external"),
        None => false,
    };
    let surface = match o.get("surface") {
        Some(Json::Str(s)) => s.clone(),
        _ => "open".to_owned(),
    };
    let declared_surface = has_field(&m, "surface");
    if !declared_surface {
        insert_field(&mut m, "surface".to_owned(), Json::Str(surface.clone()));
    }
    if external && str_eq(surface.as_str(), "open") && !has_field(&m, "egress") {
        insert_field(&mut m, "egress".to_owned(), Json::Bool(true));
    }
    if !has_field(&m, "path_args") {
        let none: Vec<Json> = Vec::new();
        assert(elems_view(none@) =~= Seq::<JsonV>::empty());
        insert_field(&mut m, "path_args".to_owned(), Json::Array(none));
    }
    m
}

/// Registration-time normalization: apply the conservative defaults and
/// validate. Returns the normalized actions array.
pub fn normalize_actions(actions: &Json) -> (r: Result<Json, ToolError>)
    ensures
        match actions@ {
            JsonV::Array(a) => if a.len() == 0 {
                r matches Err(ToolError::Malformed(m)) && m@ == "a tool with no actions registers nothing"@
            } else {
                match actions_fault(a) {
                    None => r matches Ok(v) && v@ == JsonV::Array(normalized_all(a)),
                    Some((i, None)) => r matches Err(ToolError::Malformed(m)) && m@ == "action must be an object"@,
                    Some((i, Some(k))) => r matches Err(ToolError::Malformed(m)) && m@ == "action missing required field '"@
                        + k + "': "@ + json_text(a[i]),
                }
            },
            _ => r matches Err(ToolError::Malformed(m)) && m@ == "actions must be an array"@,
        },
{
    let list = match actions.as_array() {
        Some(l) => l,
        None => return Err(ToolError::Malformed("actions must be an array".to_owned())),
    };
    if list.len() == 0 {
        return Err(ToolError::Malformed("a tool with no actions registers nothing".to_owned()));
    }
    proof { lemma_elems_view_len(list@); }
    let ghost a = elems_view(list@);
    let mut out: Vec<Json> = Vec::new();
    let mut i: usize = 0;
    assert(a.skip(0) =~= a);
    while i < list.len()
        invariant
            i <= list.len(),
            a == elems_view(list@),
            a.len() == list.len(),
            forall|j: int| 0 <= j < list.len() ==> #[trigger] a[j] == json_view(list@[j]),
            elems_view(out@) == normalized_all(a).take(i as int),
            actions_fault(a) == match actions_fault(a.skip(i as int)) {
                Some((k, m)) => Some((k + i, m)),
                None => None,
            },
        decreases list.len() - i,
    {
        assert(a.skip(i as int)[0] == a[i as int]);
        assert(a.skip(i as int).drop_first() =~= a.skip(i + 1));
        let f = match &list[i] {
            Json::Object(f) => f,
            _ => return Err(ToolError::Malformed("action must be an object".to_owned())),
        };
        proof { lemma_fields_view_len(f@); }
        let o = &list[i];
        let missing: Option<&str> = if o.str_at("name").is_none() {
            Some("name")
        } else if o.str_at("side_effect").is_none() {
            Some("side_effect")
        } else if o.str_at("domain").is_none() {
            Some("domain")
        } else if o.str_at("class").is_none() {
            Some("class")
        } else if o.str_at("store").is_none() {
            Some("store")
        } else {
            None
        };
        match missing {
            Some(k) => {
                let msg = cat(&cat(&cat("action missing required field '", k), "': "), to_json_text(o).as_str());
                return Err(ToolError::Malformed(msg));
            },
            None => {},
        }
        let g = normalize_one(f);
        let v = Json::Object(g);
        proof { lemma_elems_view_push(out@, v); }
        out.push(v);
        i += 1;
        assert(elems_view(out@) =~= normalized_all(a).take(i as int));
    }
    assert(normalized_all(a).take(i as int) =~= normalized_all(a));
    Ok(Json::Array(out))
}


/// The first tool object registered under `tool`.
pub open spec fn first_tool(objs: Seq<JsonV>, tool: Seq<char>) -> Option<JsonV>
    decreases objs.len(),
{
    if objs.len() == 0 {
        None
    } else if objs[0].at("tool"@) == JsonV::Str(tool) {
        Some(objs[0])
    } else {
        first_tool(objs.drop_first(), tool)
    }
}

/// The first action named `name`.
pub open spec fn action_named(acts: Seq<JsonV>, name: Seq<char>) -> Option<JsonV>
    decreases acts.len(),
{
    if acts.len() == 0 {
        None
    } else if acts[0].at("name"@) == JsonV::Str(name) {
        Some(acts[0])
    } else {
        action_named(acts.drop_first(), name)
    }
}

/// The registered action `action` of tool `tool_ref`, among the stored
/// tool objects: the first object registered under that name decides.
pub open spec fn registered_action(objs: Seq<JsonV>, tool_ref: Seq<char>, action: Seq<char>) -> Option<JsonV> {
    match first_tool(objs, tool_ref) {
        Some(o) => match o.at("actions"@).as_array() {
            Some(a) => action_named(a, action),
            None => None,
        },
        None => None,
    }
}

fn first_with(items: &Vec<Json>, key: &str, value: &str) -> (r: Option<usize>)
    ensures
        match r {
            Some(k) => k < items.len() && elems_view(items@)[k as int].at(key@) == JsonV::Str(value@)
                && forall|j: int| 0 <= j < k ==> #[trigger] elems_view(items@)[j].at(key@) != JsonV::Str(value@),
            None => forall|j: int| 0 <= j < items.len() ==> #[trigger] elems_view(items@)[j].at(key@) != JsonV::Str(value@),
        },
{
    proof { lemma_elems_view_len(items@); }
    let mut i: usize = 0;
    while i < items.len()
        invariant
            i <= items.len(),
            elems_view(items@).len() == items.len(),
            forall|j: int| 0 <= j < items.len() ==> #[trigger] elems_view(items@)[j] == json_view(items@[j]),
            forall|j: int| 0 <= j < i ==> #[trigger] elems_view(items@)[j].at(key@) != JsonV::Str(value@),
        decreases items.len() - i,
    {
        let hit = match items[i].get(key) {
            Some(v) => crate::json::json_is_str(v, value),
            None => false,
        };
        if hit {
            return Some(i);
        }
        i += 1;
    }
    None
}

proof fn lemma_first_tool(objs: Seq<JsonV>, tool: Seq<char>, k: int)
    requires
        0 <= k <= objs.len(),
        forall|j: int| 0 <= j < k ==> #[trigger] objs[j].at("tool"@) != JsonV::Str(tool),
    ensures
        first_tool(objs, tool) == first_tool(objs.skip(k), tool),
    decreases k,
{
    if k > 0 {
        assert(objs.drop_first().skip(k - 1) =~= objs.skip(k));
        assert forall|j: int| 0 <= j < k - 1 implies #[trigger] objs.drop_first()[j].at("tool"@) != JsonV::Str(tool) by {
            assert(objs.drop_first()[j] == objs[j + 1]);
        }
        lemma_first_tool(objs.drop_first(), tool, k - 1);
    } else {
        assert(objs.skip(0) =~= objs);
    }
}

proof fn lemma_action_named(acts: Seq<JsonV>, name: Seq<char>, k: int)
    requires
        0 <= k <= acts.len(),
        forall|j: int| 0 <= j < k ==> #[trigger] acts[j].at("name"@) != JsonV::Str(name),
    ensures
        action_named(acts, name) == action_named(acts.skip(k), name),
    decreases k,
{
    if k > 0 {
        assert(acts.drop_first().skip(k - 1) =~= acts.skip(k));
        assert forall|j: int| 0 <= j < k - 1 implies #[trigger] acts.drop_first()[j].at("name"@) != JsonV::Str(name) by {
            assert(acts.drop_first()[j] == acts[j + 1]);
        }
        lemma_action_named(acts.drop_first(), name, k - 1);
    } else {
        assert(acts.skip(0) =~= acts);
    }
}

/// Look up a registered action among the stored tool objects. `tool_ref`
/// is the registered tool name (e.g. `tool:vault@1.0`). An absent tool or
/// action is an error: undeclared actions cannot be called.
pub fn find_action(tool_objects: &Vec<Json>, tool_ref: &str, action: &str) -> (r: Result<Json, ToolError>)
    ensures
        match registered_action(elems_view(tool_objects@), tool_ref@, action@) {
            Some(a) => r matches Ok(x) && x@ == a,
            None => r matches Err(ToolError::UndeclaredAction { tool: t, action: n }) && t@ == tool_ref@ && n@ == action@,
        },
{
    let undeclared = ToolError::UndeclaredAction { tool: tool_ref.to_owned(), action: action.to_owned() };
    proof { lemma_elems_view_len(tool_objects@); }
    let ghost objs = elems_view(tool_objects@);
    match first_with(tool_objects, "tool", tool_ref) {
        None => {
            proof {
                lemma_first_tool(objs, tool_ref@, objs.len() as int);
            }
            Err(undeclared)
        },
        Some(k) => {
            proof {
                lemma_first_tool(objs, tool_ref@, k as int);
                assert(objs.skip(k as int)[0] == objs[k as int]);
            }
            match tool_objects[k].get("actions") {
                Some(acts) => match acts.as_array() {
                    Some(a) => {
                        proof { lemma_elems_view_len(a@); }
                        let ghost av = elems_view(a@);
                        match first_with(a, "name", action) {
                            Some(j) => {
                                proof {
                                    lemma_action_named(av, action@, j as int);
                                    assert(av.skip(j as int)[0] == av[j as int]);
                                    lemma_elems_view_len(a@);
                                }
                                Ok(a[j].deep_clone())
                            },
                            None => {
                                proof { lemma_action_named(av, action@, av.len() as int); }
                                Err(undeclared)
                            },
                        }
                    },
                    None => Err(undeclared),
                },
                None => Err(undeclared),
            }
        },
    }
}

/// `acc` with `s` appended unless already present.
pub open spec fn add_unique(acc: Seq<Seq<char>>, s: Seq<char>) -> Seq<Seq<char>> {
    if acc.contains(s) {
        acc
    } else {
        acc.push(s)
    }
}

/// The stores of a run of actions, each once, in first-declared order.
pub open spec fn stores_of_actions(acc: Seq<Seq<char>>, acts: Seq<JsonV>) -> Seq<Seq<char>>
    decreases acts.len(),
{
    if acts.len() == 0 {
        acc
    } else {
        let acc1 = match acts[0].at("store"@).as_str() {
            Some(s) => add_unique(acc, s),
            None => acc,
        };
        stores_of_actions(acc1, acts.drop_first())
    }
}

/// All stores any action of `tool` operates on, across every stored object
/// registered under that name.
pub open spec fn stores_of_tool(acc: Seq<Seq<char>>, objs: Seq<JsonV>, tool: Seq<char>) -> Seq<Seq<char>>
    decreases objs.len(),
{
    if objs.len() == 0 {
        acc
    } else {
        let acc1 = if objs[0].at("tool"@) == JsonV::Str(tool) {
            match objs[0].at("actions"@).as_array() {
                Some(a) => stores_of_actions(acc, a),
                None => acc,
            }
        } else {
            acc
        };
        stores_of_tool(acc1, objs.drop_first(), tool)
    }
}

fn add_action_stores(stores: &mut Vec<String>, a: &Vec<Json>)
    ensures
        crate::json::string_views(final(stores)@) == stores_of_actions(crate::json::string_views(old(stores)@), elems_view(a@)),
{
    proof { lemma_elems_view_len(a@); }
    let ghost av = elems_view(a@);
    let ghost acc0 = crate::json::string_views(stores@);
    let mut k: usize = 0;
    assert(av.skip(0) =~= av);
    while k < a.len()
        invariant
            k <= a.len(),
            av == elems_view(a@),
            av.len() == a.len(),
            forall|j: int| 0 <= j < a.len() ==> #[trigger] av[j] == json_view(a@[j]),
            stores_of_actions(acc0, av) == stores_of_actions(crate::json::string_views(stores@), av.skip(k as int)),
        decreases a.len() - k,
    {
        assert(av.skip(k as int)[0] == av[k as int]);
        assert(av.skip(k as int).drop_first() =~= av.skip(k + 1));
        match a[k].str_at("store") {
            Some(st) => {
                if !str_list_contains(stores, st) {
                    let ghost before = crate::json::string_views(stores@);
                    stores.push(st.to_owned());
                    assert(crate::json::string_views(stores@) =~= before.push(st@));
                }
            },
            None => {},
        }
        k += 1;
    }
    assert(av.skip(k as int).len() == 0);
}

/// All stores any declared action of `tool_ref` operates on — the input to
/// the check that a capability only reaches coordinated stores.
pub fn stores_for_tool(tool_objects: &Vec<Json>, tool_ref: &str) -> (r: Vec<String>)
    ensures
        crate::json::string_views(r@) == stores_of_tool(Seq::empty(), elems_view(tool_objects@), tool_ref@),
{
    proof { lemma_elems_view_len(tool_objects@); }
    let ghost objs = elems_view(tool_objects@);
    let mut stores: Vec<String> = Vec::new();
    let mut i: usize = 0;
    assert(objs.skip(0) =~= objs);
    assert(crate::json::string_views(stores@) =~= Seq::<Seq<char>>::empty());
    while i < tool_objects.len()
        invariant
            i <= tool_objects.len(),
            objs == elems_view(tool_objects@),
            objs.len() == tool_objects.len(),
            forall|j: int| 0 <= j < tool_objects.len() ==> #[trigger] objs[j] == json_view(tool_objects@[j]),
            stores_of_tool(Seq::empty(), objs, tool_ref@) == stores_of_tool(crate::json::string_views(stores@), objs.skip(i as int), tool_ref@),
        decreases tool_objects.len() - i,
    {
        assert(objs.skip(i as int)[0] == objs[i as int]);
        assert(objs.skip(i as int).drop_first() =~= objs.skip(i + 1));
        let o = &tool_objects[i];
        let matches = match o.get("tool") {
            Some(t) => crate::json::json_is_str(t, tool_ref),
            None => false,
        };
        if matches {
            match o.get("actions") {
                Some(acts) => match acts.as_array() {
                    Some(a) => add_action_stores(&mut stores, a),
                    None => {},
                },
                None => {},
            }
        }
        i += 1;
    }
    assert(objs.skip(i as int).len() == 0);
    stores
}

/// The body of a tool registration, before it is sealed: the tool's name,
/// its normalized actions and the registration time.
pub fn registration_body(tool_name: &str, actions: &Json, now: &str) -> (r: Result<Vec<(String, Json)>, ToolError>)
    ensures
        match actions@ {
            JsonV::Array(a) => a.len() > 0 && actions_fault(a) is None ==> (r matches Ok(b) && fields_view(b@) == seq![
                ("actions"@, JsonV::Array(normalized_all(a))),
                ("registered_at"@, JsonV::Str(now@)),
                ("tool"@, JsonV::Str(tool_name@)),
            ]),
            _ => true,
        },
        r is Err ==> r matches Err(ToolError::Malformed(_)),
{
    let normalized = match normalize_actions(actions) {
        Ok(n) => n,
        Err(e) => return Err(e),
    };
    let body = vec![
        ("actions".to_owned(), normalized),
        ("registered_at".to_owned(), Json::from_str(now)),
        ("tool".to_owned(), Json::from_str(tool_name)),
    ];
    proof { lemma_fields_view_len(body@); }
    assert(fields_view(body@) =~= seq![
        ("actions"@, body@[0].1@),
        ("registered_at"@, JsonV::Str(now@)),
        ("tool"@, JsonV::Str(tool_name@)),
    ]);
    Ok(body)
}

impl ToolError {
    /// The error's message.
    pub fn text(&self) -> (r: String)
        ensures
            self matches ToolError::Malformed(m) ==> r@ == "tool registration malformed: "@ + m@,
            self matches ToolError::UndeclaredAction { tool, action } ==> r@ == "tool "@ + tool@ + " has no declared action "@
                + action@ + " — undeclared actions cannot be called"@,
    {
        match self {
            ToolError::Malformed(m) => crate::capability::cat("tool registration malformed: ", m.as_str()),
            ToolError::Canon(e) => e.text(),
            ToolError::Trace(e) => e.text(),
            ToolError::UndeclaredAction { tool, action } => crate::capability::cat(
                &crate::capability::cat(&crate::capability::cat(&crate::capability::cat("tool ", tool.as_str()),
                    " has no declared action "), action.as_str()),
                " — undeclared actions cannot be called",
            ),
        }
    }
}

} // verus!
