//! GitHub issues as the API returns them, checked field by field before they
//! become register nodes.

use vstd::prelude::*;

use crate::adapter::{adapter_edges_view, adapter_nodes_view, finding, findings_view, Document, Edge, EdgeView, IssueView, Node, NodeView, Pathway, PathwayView, Provenance, ProvenanceView};
use crate::assoc::{assoc, assoc_get};
use crate::gitlabissues::{issue_edge, issue_error, issue_id_of, out_edge, u64_field};
use crate::json::{deep_items, get, json_put, lemma_items, lemma_members, lookup, members_view, object_put, Json, JsonValue};
use crate::pattern::{regex_all_group_one, regex_compiles, regex_first_groups};
use crate::tomladapter::{extends, lemma_adds_extends, lemma_extends_cat, lemma_extends_none, out_cat, out_finding, out_none, Out};
use crate::text::{msg2, msg3, msg4, msg5, nat_text, texts, u64_text, usize_text};

verus! {

/// A milestone an issue is filed under.
pub struct Milestone {
    pub number: u64,
    pub title: String,
    pub state: String,
}

/// An issue, in the fields the adapter reads.
pub struct GithubIssue {
    pub number: u64,
    pub title: String,
    pub body: String,
    pub state: String,
    pub labels: Vec<String>,
    /// The first assignee's login.
    pub assignee: Option<String>,
    pub milestone: Option<Milestone>,
}

/// An issue by value.
pub struct GithubIssueView {
    pub number: nat,
    pub title: Seq<char>,
    pub body: Seq<char>,
    pub state: Seq<char>,
    pub labels: Seq<Seq<char>>,
    pub assignee: Option<Seq<char>>,
    pub milestone: Option<(nat, Seq<char>, Seq<char>)>,
}

impl View for GithubIssue {
    type V = GithubIssueView;

    open spec fn view(&self) -> GithubIssueView {
        GithubIssueView {
            number: self.number as nat,
            title: self.title@,
            body: self.body@,
            state: self.state@,
            labels: texts(self.labels@),
            assignee: crate::types::opt_view(self.assignee),
            milestone: match self.milestone {
                Some(m) => Some((m.number as nat, m.title@, m.state@)),
                None => None,
            },
        }
    }
}

/// How the API's JSON types are named in messages.
pub open spec fn value_type_of(j: Json) -> Seq<char> {
    match j {
        Json::Null => "null"@,
        Json::Bool(_) => "boolean"@,
        Json::Int(_) => "number"@,
        Json::Float(_) => "number"@,
        Json::Str(_) => "string"@,
        Json::Array(_) => "array"@,
        Json::Object(_) => "object"@,
    }
}

pub fn value_type(v: &JsonValue) -> (r: &'static str)
    ensures
        r@ == value_type_of(v.deep()),
{
    match v {
        JsonValue::Null => "null",
        JsonValue::Bool(_) => "boolean",
        JsonValue::Int(_) => "number",
        JsonValue::Float(_) => "number",
        JsonValue::Str(_) => "string",
        JsonValue::Array(_) => "array",
        JsonValue::Object(_) => "object",
    }
}

/// A field that must hold a positive integer.
pub open spec fn required_u64_of(m: Seq<(Seq<char>, Json)>, f: Seq<char>) -> Result<nat, Seq<char>> {
    match lookup(m, f) {
        Some(Json::Int(n)) if 0 < n <= u64::MAX => Ok(n as nat),
        _ => Err("field '"@ + f + "' must be a positive integer"@),
    }
}

/// A field that must hold a string.
pub open spec fn required_string_of(m: Seq<(Seq<char>, Json)>, f: Seq<char>) -> Result<Seq<char>, Seq<char>> {
    match lookup(m, f) {
        Some(Json::Str(s)) => Ok(s),
        _ => Err("field '"@ + f + "' must be a string"@),
    }
}

/// A field that may be absent or null, else must hold a string.
pub open spec fn optional_string_of(m: Seq<(Seq<char>, Json)>, f: Seq<char>) -> Result<Option<Seq<char>>, Seq<char>> {
    match lookup(m, f) {
        None => Ok(None),
        Some(Json::Null) => Ok(None),
        Some(Json::Str(s)) => Ok(Some(s)),
        Some(_) => Err("field '"@ + f + "' must be a string or null"@),
    }
}

/// The name of one item of a named array: its `name`, or its `login` where
/// it has no `name`.
pub open spec fn item_name(item: Json) -> Option<Seq<char>> {
    match item {
        Json::Object(o) => {
            let v = if lookup(o, "name"@) is Some {
                lookup(o, "name"@)
            } else {
                lookup(o, "login"@)
            };
            match v {
                Some(Json::Str(s)) => Some(s),
                _ => None,
            }
        },
        _ => None,
    }
}

/// The names of the first `k` items, or the first item without one.
pub open spec fn names_walk(items: Seq<Json>, k: nat, f: Seq<char>) -> Result<Seq<Seq<char>>, Seq<char>>
    decreases k,
{
    if k == 0 || k > items.len() {
        Ok(Seq::empty())
    } else {
        match names_walk(items, (k - 1) as nat, f) {
            Err(e) => Err(e),
            Ok(ns) => match item_name(items[k - 1]) {
                Some(n) => Ok(ns.push(n)),
                None => Err("field '"@ + f + "' item "@ + nat_text(k) + " has no string name"@),
            },
        }
    }
}

/// A refusal among the first items stands for all of them.
proof fn lemma_names_err(items: Seq<Json>, k: nat, n: nat, f: Seq<char>)
    requires
        names_walk(items, k, f) is Err,
        1 <= k <= n <= items.len(),
    ensures
        names_walk(items, n, f) == names_walk(items, k, f),
    decreases n - k,
{
    if n > k {
        lemma_names_err(items, k, (n - 1) as nat, f);
    }
}

/// An array field of named items.
pub open spec fn named_array_of(m: Seq<(Seq<char>, Json)>, f: Seq<char>) -> Result<Seq<Seq<char>>, Seq<char>> {
    match lookup(m, f) {
        Some(Json::Array(items)) => names_walk(items, items.len(), f),
        _ => Err("field '"@ + f + "' must be an array"@),
    }
}

/// The milestone field: absent or null, else an object with a number, a title
/// and a state.
pub open spec fn milestone_of(m: Seq<(Seq<char>, Json)>) -> Result<Option<(nat, Seq<char>, Seq<char>)>, Seq<char>> {
    match lookup(m, "milestone"@) {
        None => Ok(None),
        Some(Json::Null) => Ok(None),
        Some(Json::Object(o)) => match required_u64_of(o, "number"@) {
            Err(e) => Err(e),
            Ok(n) => match required_string_of(o, "title"@) {
                Err(e) => Err(e),
                Ok(t) => match required_string_of(o, "state"@) {
                    Err(e) => Err(e),
                    Ok(s) => Ok(Some((n, t, s))),
                },
            },
        },
        Some(_) => Err("field 'milestone' must be an object or null"@),
    }
}

/// An API issue read field by field; the first field that does not fit is
/// the error.
pub open spec fn issue_of(j: Json) -> Result<GithubIssueView, Seq<char>> {
    match j {
        Json::Object(m) => match required_u64_of(m, "number"@) {
            Err(e) => Err(e),
            Ok(number) => match required_string_of(m, "title"@) {
                Err(e) => Err(e),
                Ok(title) => match required_string_of(m, "state"@) {
                    Err(e) => Err(e),
                    Ok(state) => match optional_string_of(m, "body"@) {
                        Err(e) => Err(e),
                        Ok(body) => match named_array_of(m, "labels"@) {
                            Err(e) => Err(e),
                            Ok(labels) => match named_array_of(m, "assignees"@) {
                                Err(e) => Err(e),
                                Ok(assignees) => match milestone_of(m) {
                                    Err(e) => Err(e),
                                    Ok(milestone) => Ok(
                                        GithubIssueView {
                                            number,
                                            title,
                                            body: match body {
                                                Some(b) => b,
                                                None => Seq::empty(),
                                            },
                                            state,
                                            labels,
                                            assignee: if assignees.len() > 0 {
                                                Some(assignees[0])
                                            } else {
                                                None
                                            },
                                            milestone,
                                        },
                                    ),
                                },
                            },
                        },
                    },
                },
            },
        },
        _ => Err("expected an object, got "@ + value_type_of(j)),
    }
}

pub fn required_u64(object: &Vec<(String, JsonValue)>, field: &str) -> (r: Result<u64, String>)
    ensures
        match required_u64_of(members_view(object@), field@) {
            Ok(n) => r matches Ok(x) && x as nat == n,
            Err(e) => r matches Err(x) && x@ == e,
        },
{
    match get(object, field) {
        Some(JsonValue::Int(n)) => {
            if 0 < *n && *n <= u64::MAX as i128 {
                return Ok(*n as u64);
            }
        },
        _ => {},
    }
    Err(msg3("field '", field, "' must be a positive integer"))
}

pub fn required_string(object: &Vec<(String, JsonValue)>, field: &str) -> (r: Result<String, String>)
    ensures
        match required_string_of(members_view(object@), field@) {
            Ok(s) => r matches Ok(x) && x@ == s,
            Err(e) => r matches Err(x) && x@ == e,
        },
{
    match get(object, field) {
        Some(JsonValue::Str(s)) => Ok(s.clone()),
        _ => Err(msg3("field '", field, "' must be a string")),
    }
}

pub fn optional_string(object: &Vec<(String, JsonValue)>, field: &str) -> (r: Result<Option<String>, String>)
    ensures
        match optional_string_of(members_view(object@), field@) {
            Ok(s) => r matches Ok(x) && crate::types::opt_view(x) == s,
            Err(e) => r matches Err(x) && x@ == e,
        },
{
    match get(object, field) {
        None => Ok(None),
        Some(JsonValue::Null) => Ok(None),
        Some(JsonValue::Str(s)) => Ok(Some(s.clone())),
        Some(_) => Err(msg3("field '", field, "' must be a string or null")),
    }
}

fn name_of(item: &JsonValue) -> (r: Option<String>)
    ensures
        crate::types::opt_view(r) == item_name(item.deep()),
{
    match item {
        JsonValue::Object(o) => {
            proof {
                lemma_members(o@, o@.len());
            }
            let v = match get(o, "name") {
                Some(v) => Some(v),
                None => get(o, "login"),
            };
            match v {
                Some(JsonValue::Str(s)) => Some(s.clone()),
                _ => None,
            }
        },
        _ => None,
    }
}

pub fn parse_named_array(object: &Vec<(String, JsonValue)>, field: &str) -> (r: Result<Vec<String>, String>)
    ensures
        match named_array_of(members_view(object@), field@) {
            Ok(ns) => r matches Ok(x) && texts(x@) == ns,
            Err(e) => r matches Err(x) && x@ == e,
        },
{
    let found = get(object, field);
    let items = match found {
        Some(JsonValue::Array(items)) => items,
        _ => {
            return Err(msg3("field '", field, "' must be an array"));
        },
    };
    proof {
        lemma_items(items@, items@.len());
    }
    let ghost iv = deep_items(items@, items@.len());
    assert(lookup(members_view(object@), field@) == Some(Json::Array(iv)));
    assert(named_array_of(members_view(object@), field@) == names_walk(iv, iv.len(), field@));
    let mut names: Vec<String> = Vec::new();
    let mut i: usize = 0;
    assert(texts(names@) =~= Seq::<Seq<char>>::empty());
    while i < items.len()
        invariant
            i <= items.len(),
            iv == deep_items(items@, items@.len()),
            iv.len() == items.len(),
            forall|k: int| 0 <= k < items.len() ==> #[trigger] iv[k] == items@[k].deep(),
            names_walk(iv, i as nat, field@) == Ok::<Seq<Seq<char>>, Seq<char>>(texts(names@)),
            named_array_of(members_view(object@), field@) == names_walk(iv, iv.len(), field@),
        decreases items.len() - i,
    {
        match name_of(&items[i]) {
            Some(n) => {
                let ghost before = texts(names@);
                names.push(n);
                assert(texts(names@) =~= before.push(names@.last()@));
            },
            None => {
                proof {
                    assert(item_name(iv[i as int]) is None);
                    assert(names_walk(iv, (i + 1) as nat, field@) == Err::<Seq<Seq<char>>, Seq<char>>(
                        "field '"@ + field@ + "' item "@ + nat_text((i + 1) as nat) + " has no string name"@,
                    ));
                    lemma_names_err(iv, (i + 1) as nat, iv.len(), field@);
                }
                let count = usize_text(i + 1);
                let message = crate::text::msg5("field '", field, "' item ", count.as_str(), " has no string name");
                assert(message@ == "field '"@ + field@ + "' item "@ + nat_text((i + 1) as nat) + " has no string name"@);
                assert(named_array_of(members_view(object@), field@) == Err::<Seq<Seq<char>>, Seq<char>>(message@));
                return Err(message);
            },
        }
        i += 1;
    }
    Ok(names)
}

pub fn parse_milestone(object: &Vec<(String, JsonValue)>) -> (r: Result<Option<Milestone>, String>)
    ensures
        match milestone_of(members_view(object@)) {
            Ok(m) => r matches Ok(x) && match x {
                Some(ms) => m == Some((ms.number as nat, ms.title@, ms.state@)),
                None => m is None,
            },
            Err(e) => r matches Err(x) && x@ == e,
        },
{
    match get(object, "milestone") {
        None => Ok(None),
        Some(JsonValue::Null) => Ok(None),
        Some(JsonValue::Object(o)) => {
            proof {
                lemma_members(o@, o@.len());
            }
            let number = required_u64(o, "number")?;
            let title = required_string(o, "title")?;
            let state = required_string(o, "state")?;
            Ok(Some(Milestone { number, title, state }))
        },
        Some(_) => Err(crate::text::copy_str("field 'milestone' must be an object or null")),
    }
}

/// Read one API issue, field by field.
pub fn parse_issue(value: &JsonValue) -> (r: Result<GithubIssue, String>)
    ensures
        match issue_of(value.deep()) {
            Ok(v) => r matches Ok(x) && x@ == v,
            Err(e) => r matches Err(x) && x@ == e,
        },
{
    let object = match value {
        JsonValue::Object(o) => o,
        other => {
            return Err(msg2("expected an object, got ", value_type(other)));
        },
    };
    proof {
        lemma_members(object@, object@.len());
    }
    let number = required_u64(object, "number")?;
    let title = required_string(object, "title")?;
    let state = required_string(object, "state")?;
    let body = match optional_string(object, "body")? {
        Some(b) => b,
        None => String::new(),
    };
    let labels = parse_named_array(object, "labels")?;
    let assignees = parse_named_array(object, "assignees")?;
    let assignee = if assignees.len() > 0 {
        Some(assignees[0].clone())
    } else {
        None
    };
    let milestone = parse_milestone(object)?;
    Ok(GithubIssue { number, title, body, state, labels, assignee, milestone })
}

// ---------------------------------------------------------------- mapping

/// What the GitHub adapter reads of its profile.
pub struct GithubConfig {
    pub repo: Option<String>,
    /// Label to node kind, in label order.
    pub label_map: Vec<(String, String)>,
    pub default_kind: Option<String>,
    /// Pattern and edge kind, in pattern order; each pattern compiles.
    pub edge_patterns: Vec<(String, String)>,
    /// Each node kind's declared attrs, in kind order.
    pub attrs_by_kind: Vec<(String, Vec<String>)>,
    /// The pathways milestones order, by name.
    pub pathways: Vec<String>,
}

/// The kind of the first mapped label, else the default kind, if any.
pub open spec fn github_kind(labels: Seq<Seq<char>>, m: Seq<(String, String)>, default: Option<String>) -> Option<Seq<char>>
    decreases labels.len(),
{
    if labels.len() == 0 {
        crate::types::opt_view(default)
    } else {
        match assoc(m, labels[0]) {
            Some(k) => Some(k@),
            None => github_kind(labels.drop_first(), m, default),
        }
    }
}

/// Every kind a label or the default can pick declares its attrs.
pub open spec fn github_kinds_declared(c: GithubConfig) -> bool {
    &&& (c.default_kind matches Some(d) ==> assoc(c.attrs_by_kind@, d@) is Some)
    &&& forall|i: int| 0 <= i < c.label_map@.len() ==> #[trigger] assoc(c.attrs_by_kind@, c.label_map@[i].1@) is Some
}

proof fn lemma_github_kind_declared(labels: Seq<Seq<char>>, c: GithubConfig)
    requires
        github_kinds_declared(c),
    ensures
        github_kind(labels, c.label_map@, c.default_kind) matches Some(k) ==> assoc(c.attrs_by_kind@, k) is Some,
    decreases labels.len(),
{
    if labels.len() > 0 {
        let m = c.label_map@;
        crate::seqs::lemma_first_index(crate::assoc::keys_of(m), crate::graph::same_text(labels[0]));
        match crate::seqs::first_index(crate::assoc::keys_of(m), crate::graph::same_text(labels[0])) {
            Some(i) => {
                assert(assoc(c.attrs_by_kind@, m[i].1@) is Some);
            },
            None => {
                lemma_github_kind_declared(labels.drop_first(), c);
            },
        }
    }
}

fn github_node_kind(issue: &GithubIssue, config: &GithubConfig) -> (r: Option<String>)
    ensures
        crate::types::opt_view(r) == github_kind(texts(issue.labels@), config.label_map@, config.default_kind),
{
    let ghost all = texts(issue.labels@);
    let mut i: usize = 0;
    assert(all.skip(0) =~= all);
    while i < issue.labels.len()
        invariant
            i <= issue.labels.len(),
            all == texts(issue.labels@),
            github_kind(all, config.label_map@, config.default_kind) == github_kind(
                all.skip(i as int),
                config.label_map@,
                config.default_kind,
            ),
        decreases issue.labels.len() - i,
    {
        proof {
            assert(all.skip(i as int)[0] == issue.labels@[i as int]@);
            assert(all.skip(i as int).drop_first() =~= all.skip(i + 1));
        }
        match assoc_get(&config.label_map, issue.labels[i].as_str()) {
            Some(k) => {
                return Some(k.clone());
            },
            None => {},
        }
        i += 1;
    }
    assert(all.skip(i as int) =~= Seq::<Seq<char>>::empty());
    match &config.default_kind {
        Some(d) => Some(d.clone()),
        None => None,
    }
}

/// `name` put into the attrs when the kind declares it.
pub open spec fn put_declared(a: Seq<(Seq<char>, Json)>, declared: Seq<Seq<char>>, name: Seq<char>, v: Json) -> Seq<(Seq<char>, Json)> {
    if declared.contains(name) {
        json_put(a, name, v)
    } else {
        a
    }
}

/// The milestone's title put under each of the first `k` pathway names.
pub open spec fn pathway_attrs(a: Seq<(Seq<char>, Json)>, declared: Seq<Seq<char>>, names: Seq<String>, k: nat, title: Seq<char>) -> Seq<(Seq<char>, Json)>
    decreases k,
{
    if k == 0 || k > names.len() {
        a
    } else {
        put_declared(pathway_attrs(a, declared, names, (k - 1) as nat, title), declared, names[k - 1]@, Json::Str(title))
    }
}

/// A GitHub issue's attrs: summary, state, labels, assignee and each
/// pathway's milestone, those its kind declares, in key order.
pub open spec fn github_attrs(i: GithubIssueView, declared: Seq<Seq<char>>, names: Seq<String>) -> Seq<(Seq<char>, Json)> {
    let a1 = put_declared(Seq::empty(), declared, "summary"@, Json::Str(i.title));
    let a2 = put_declared(a1, declared, "state"@, Json::Str(i.state));
    let a3 = put_declared(a2, declared, "labels"@, Json::Array(i.labels.map_values(|l: Seq<char>| Json::Str(l))));
    let a4 = match i.assignee {
        Some(u) => put_declared(a3, declared, "assignee"@, Json::Str(u)),
        None => a3,
    };
    match i.milestone {
        Some(m) => pathway_attrs(a4, declared, names, names.len(), m.1),
        None => a4,
    }
}

fn put_if_declared(a: &mut Vec<(String, JsonValue)>, declared: &Vec<String>, name: &str, v: JsonValue)
    ensures
        members_view(final(a)@) == put_declared(members_view(old(a)@), texts(declared@), name@, v.deep()),
{
    if crate::assoc::contains_text(declared, name) {
        object_put(a, crate::text::copy_str(name), v);
    }
}

fn github_attrs_of(issue: &GithubIssue, declared: &Vec<String>, names: &Vec<String>) -> (r: Vec<(String, JsonValue)>)
    ensures
        members_view(r@) == github_attrs(issue@, texts(declared@), names@),
{
    let mut a: Vec<(String, JsonValue)> = Vec::new();
    proof {
        lemma_members(a@, 0);
        assert(members_view(a@) =~= Seq::<(Seq<char>, Json)>::empty());
    }
    put_if_declared(&mut a, declared, "summary", JsonValue::Str(issue.title.clone()));
    put_if_declared(&mut a, declared, "state", JsonValue::Str(issue.state.clone()));
    let mut items: Vec<JsonValue> = Vec::new();
    let mut i: usize = 0;
    while i < issue.labels.len()
        invariant
            i <= issue.labels.len(),
            items@.len() == i,
            forall|j: int| 0 <= j < i ==> #[trigger] items@[j].deep() == Json::Str(issue.labels@[j]@),
        decreases issue.labels.len() - i,
    {
        items.push(JsonValue::Str(issue.labels[i].clone()));
        i += 1;
    }
    let ghost iv = items@;
    let labels = JsonValue::Array(items);
    proof {
        lemma_items(iv, iv.len());
        assert(deep_items(iv, iv.len()) =~= texts(issue.labels@).map_values(|l: Seq<char>| Json::Str(l)));
    }
    put_if_declared(&mut a, declared, "labels", labels);
    match &issue.assignee {
        Some(u) => put_if_declared(&mut a, declared, "assignee", JsonValue::Str(u.clone())),
        None => {},
    }
    match &issue.milestone {
        Some(m) => {
            let ghost a4 = members_view(a@);
            let mut k: usize = 0;
            while k < names.len()
                invariant
                    k <= names.len(),
                    members_view(a@) == pathway_attrs(a4, texts(declared@), names@, k as nat, m.title@),
                decreases names.len() - k,
            {
                put_if_declared(&mut a, declared, names[k].as_str(), JsonValue::Str(m.title.clone()));
                k += 1;
            }
        },
        None => {},
    }
    a
}

/// Milestones by number, in number order; a later issue's copy of a number
/// replaces an earlier one's.
pub open spec fn milestone_put(
    s: Seq<(nat, Seq<char>, Seq<char>)>,
    e: (nat, Seq<char>, Seq<char>),
) -> Seq<(nat, Seq<char>, Seq<char>)> {
    let i = match crate::seqs::first_index(s, |x: (nat, Seq<char>, Seq<char>)| x.0 >= e.0) {
        Some(i) => i,
        None => s.len() as int,
    };
    if 0 <= i < s.len() && s[i].0 == e.0 {
        s.update(i, e)
    } else {
        s.insert(i, e)
    }
}

pub open spec fn milestones_view(s: Seq<(u64, String, String)>) -> Seq<(nat, Seq<char>, Seq<char>)> {
    s.map_values(|x: (u64, String, String)| (x.0 as nat, x.1@, x.2@))
}

fn put_milestone(s: &mut Vec<(u64, String, String)>, e: (u64, String, String))
    ensures
        milestones_view(final(s)@) == milestone_put(milestones_view(old(s)@), (e.0 as nat, e.1@, e.2@)),
{
    let ghost before = milestones_view(s@);
    let ghost ev = (e.0 as nat, e.1@, e.2@);
    let mut i: usize = 0;
    while i < s.len() && s[i].0 < e.0
        invariant
            i <= s.len(),
            before == milestones_view(s@),
            ev == (e.0 as nat, e.1@, e.2@),
            forall|k: int| 0 <= k < i ==> !((|x: (nat, Seq<char>, Seq<char>)| x.0 >= ev.0)(#[trigger] before[k])),
        decreases s.len() - i,
    {
        assert(before[i as int].0 == s@[i as int].0);
        i += 1;
    }
    proof {
        if i < s.len() {
            assert(before[i as int].0 == s@[i as int].0);
        }
        crate::seqs::lemma_first_index_at(before, |x: (nat, Seq<char>, Seq<char>)| x.0 >= ev.0, i as int);
    }
    if i < s.len() && s[i].0 == e.0 {
        s.set(i, e);
        assert(milestones_view(s@) =~= before.update(i as int, ev));
    } else {
        s.insert(i, e);
        assert(milestones_view(s@) =~= before.insert(i as int, ev));
    }
}

/// The titles of milestones in order, each once, first place kept.
pub open spec fn milestone_order(s: Seq<(nat, Seq<char>, Seq<char>)>, k: nat) -> Seq<Seq<char>>
    decreases k,
{
    if k == 0 || k > s.len() {
        Seq::empty()
    } else {
        let prev = milestone_order(s, (k - 1) as nat);
        if prev.contains(s[k - 1].1) {
            prev
        } else {
            prev.push(s[k - 1].1)
        }
    }
}

/// The current milestone: the first open one, else the last.
pub open spec fn milestone_current(s: Seq<(nat, Seq<char>, Seq<char>)>) -> Seq<char> {
    match crate::seqs::first_index(s, |x: (nat, Seq<char>, Seq<char>)| x.2 == "open"@) {
        Some(i) => s[i].1,
        None => s.last().1,
    }
}

/// One pathway per configured name, ordered by the milestones; none where
/// no issue has a milestone.
pub fn add_pathways(document: &mut Document, names: &Vec<String>, milestones: &Vec<(u64, String, String)>)
    ensures
        final(document).interface_version == old(document).interface_version,
        final(document).nodes == old(document).nodes,
        final(document).edges == old(document).edges,
        final(document).findings == old(document).findings,
        final(document).pathways@.map_values(|p: Pathway| p@) == old(document).pathways@.map_values(|p: Pathway| p@) + if milestones@.len() == 0 {
            Seq::<PathwayView>::empty()
        } else {
            texts(names@).map_values(
                |n: Seq<char>|
                    PathwayView {
                        name: n,
                        order: milestone_order(milestones_view(milestones@), milestones@.len()),
                        current: milestone_current(milestones_view(milestones@)),
                    },
            )
        },
{
    let ghost p0 = document.pathways@.map_values(|p: Pathway| p@);
    if milestones.len() == 0 {
        assert(p0 + Seq::<PathwayView>::empty() =~= p0);
        return;
    }
    let mut order: Vec<String> = Vec::new();
    let mut i: usize = 0;
    while i < milestones.len()
        invariant
            i <= milestones.len(),
            texts(order@) == milestone_order(milestones_view(milestones@), i as nat),
        decreases milestones.len() - i,
    {
        let t = &milestones[i].1;
        assert(milestones_view(milestones@)[i as int].1 == t@);
        if !crate::assoc::contains_text(&order, t.as_str()) {
            let ghost before = texts(order@);
            order.push(t.clone());
            assert(texts(order@) =~= before.push(t@));
        }
        i += 1;
    }
    let ghost mv = milestones_view(milestones@);
    let mut j: usize = 0;
    while j < milestones.len() && !crate::text::str_eq(milestones[j].2.as_str(), "open")
        invariant
            j <= milestones.len(),
            mv == milestones_view(milestones@),
            forall|k: int| 0 <= k < j ==> !((|x: (nat, Seq<char>, Seq<char>)| x.2 == "open"@)(#[trigger] mv[k])),
        decreases milestones.len() - j,
    {
        assert(mv[j as int].2 == milestones@[j as int].2@);
        j += 1;
    }
    proof {
        if j < milestones.len() {
            assert(mv[j as int].2 == milestones@[j as int].2@);
        }
        crate::seqs::lemma_first_index_at(mv, |x: (nat, Seq<char>, Seq<char>)| x.2 == "open"@, j as int);
    }
    let cur = if j < milestones.len() {
        milestones[j].1.clone()
    } else {
        milestones[milestones.len() - 1].1.clone()
    };
    assert(cur@ == milestone_current(milestones_view(milestones@)));
    let ghost want = texts(names@).map_values(
        |n: Seq<char>|
            PathwayView { name: n, order: milestone_order(milestones_view(milestones@), milestones@.len()), current: milestone_current(milestones_view(milestones@)) },
    );
    let mut k: usize = 0;
    while k < names.len()
        invariant
            k <= names.len(),
            texts(order@) == milestone_order(milestones_view(milestones@), milestones@.len()),
            cur@ == milestone_current(milestones_view(milestones@)),
            want == texts(names@).map_values(
                |n: Seq<char>|
                    PathwayView { name: n, order: milestone_order(milestones_view(milestones@), milestones@.len()), current: milestone_current(milestones_view(milestones@)) },
            ),
            document.interface_version == old(document).interface_version,
            document.nodes == old(document).nodes,
            document.edges == old(document).edges,
            document.findings == old(document).findings,
            document.pathways@.map_values(|p: Pathway| p@) == p0 + want.take(k as int),
        decreases names.len() - k,
    {
        let ghost before = document.pathways@.map_values(|p: Pathway| p@);
        document.pathways.push(Pathway { name: names[k].clone(), order: order.clone(), current: cur.clone() });
        proof {
            assert(want[k as int] == PathwayView { name: names@[k as int]@, order: texts(order@), current: cur@ });
            assert(want.take(k + 1) =~= want.take(k as int).push(want[k as int]));
            assert(document.pathways@.map_values(|p: Pathway| p@) =~= before.push(want[k as int]));
        }
        k += 1;
    }
    assert(want.take(k as int) =~= want);
}

/// What reading the issues has found so far: what it appended, and the
/// milestones by number.
pub struct GhState {
    pub out: Out,
    pub ms: Seq<(nat, Seq<char>, Seq<char>)>,
}

pub open spec fn is_pull_request(j: Json) -> bool {
    match j {
        Json::Object(m) => lookup(m, "pull_request"@) is Some,
        _ => false,
    }
}

/// `github:owner/repo#n`.
pub open spec fn gh_file(repo: Seq<char>, n: nat) -> Seq<char> {
    "github:"@ + repo + "#"@ + nat_text(n)
}

pub open spec fn out_node(n: NodeView) -> Out {
    Out { nodes: seq![n], edges: Seq::empty(), findings: Seq::empty() }
}

/// The first `k` matches of a pattern in an issue body: a match without a
/// group is passed over.
pub open spec fn gh_groups_out(gs: Seq<Option<Seq<char>>>, k: nat, kind: Seq<char>, n: nat, file: Seq<char>) -> Out
    decreases k,
{
    if k == 0 || k > gs.len() {
        out_none()
    } else {
        let here = match gs[k - 1] {
            None => out_none(),
            Some(t) => match u64_field(t) {
                None => out_finding(
                    issue_error("issue #"@ + nat_text(n) + ": edge pattern captured invalid issue number '"@ + t + "'"@, file),
                ),
                Some(tn) => out_edge(issue_edge(issue_id_of(n), issue_id_of(tn), kind, file)),
            },
        };
        out_cat(gh_groups_out(gs, (k - 1) as nat, kind, n, file), here)
    }
}

/// The edges the first `k` patterns find in an issue body.
pub open spec fn gh_body_out(c: GithubConfig, k: nat, body: Seq<char>, n: nat, file: Seq<char>) -> Out
    decreases k,
{
    if k == 0 || k > c.edge_patterns@.len() {
        out_none()
    } else {
        let p = c.edge_patterns@[k - 1];
        let here = if regex_compiles(p.0@) {
            let gs = regex_first_groups(p.0@, body);
            gh_groups_out(gs, gs.len(), p.1@, n, file)
        } else {
            out_none()
        };
        out_cat(gh_body_out(c, (k - 1) as nat, body, n, file), here)
    }
}

/// One API value: a pull request is passed over; an issue that does not
/// read, or has no kind, is a finding; any other becomes its node and the
/// edges its body names, its milestone noted.
pub open spec fn gh_step(c: GithubConfig, repo: Seq<char>, st: GhState, v: Json, index: nat) -> GhState {
    if is_pull_request(v) {
        st
    } else {
        match issue_of(v) {
            Err(e) => GhState {
                out: out_cat(st.out, out_finding(issue_error("issue response "@ + nat_text(index + 1) + ": "@ + e, "github:"@ + repo))),
                ms: st.ms,
            },
            Ok(iv) => {
                let file = gh_file(repo, iv.number);
                match github_kind(iv.labels, c.label_map@, c.default_kind) {
                    None => GhState {
                        out: out_cat(
                            st.out,
                            out_finding(
                                issue_error(
                                    "issue #"@ + nat_text(iv.number) + " has no label mapped to a node kind and no default_kind"@,
                                    file,
                                ),
                            ),
                        ),
                        ms: st.ms,
                    },
                    Some(k) => {
                        let declared = match assoc(c.attrs_by_kind@, k) {
                            Some(d) => texts(d@),
                            None => Seq::empty(),
                        };
                        let node = NodeView {
                            id: issue_id_of(iv.number),
                            kind: k,
                            attrs: github_attrs(iv, declared, c.pathways@),
                            provenance: ProvenanceView { file, line: 0 },
                        };
                        GhState {
                            out: out_cat(
                                out_cat(st.out, out_node(node)),
                                gh_body_out(c, c.edge_patterns@.len(), iv.body, iv.number, file),
                            ),
                            ms: match iv.milestone {
                                Some(m) => milestone_put(st.ms, m),
                                None => st.ms,
                            },
                        }
                    },
                }
            },
        }
    }
}

/// The first `k` API values read.
pub open spec fn gh_walk(c: GithubConfig, repo: Seq<char>, vals: Seq<Json>, k: nat) -> GhState
    decreases k,
{
    if k == 0 || k > vals.len() {
        GhState { out: out_none(), ms: Seq::empty() }
    } else {
        gh_step(c, repo, gh_walk(c, repo, vals, (k - 1) as nat), vals[k - 1], (k - 1) as nat)
    }
}

pub open spec fn values_view(v: Seq<JsonValue>) -> Seq<Json> {
    v.map_values(|j: JsonValue| j.deep())
}

fn pull_request(v: &JsonValue) -> (r: bool)
    ensures
        r == is_pull_request(v.deep()),
{
    match v {
        JsonValue::Object(m) => {
            proof {
                lemma_members(m@, m@.len());
            }
            get(m, "pull_request").is_some()
        },
        _ => false,
    }
}

/// The edges the configured patterns find in an issue body.
fn add_body_edges(document: &mut Document, config: &GithubConfig, body: &str, n: u64, file: &str)
    ensures
        extends(*final(document), *old(document), gh_body_out(*config, config.edge_patterns@.len(), body@, n as nat, file@)),
{
    let ghost start = *document;
    proof {
        lemma_extends_none(*document);
    }
    let id = crate::text::msg2("#", u64_text(n).as_str());
    let mut k: usize = 0;
    while k < config.edge_patterns.len()
        invariant
            k <= config.edge_patterns.len(),
            id@ == issue_id_of(n as nat),
            extends(*document, start, gh_body_out(*config, k as nat, body@, n as nat, file@)),
        decreases config.edge_patterns.len() - k,
    {
        let p = &config.edge_patterns[k];
        let ghost before = *document;
        let ghost prev = gh_body_out(*config, k as nat, body@, n as nat, file@);
        match regex_all_group_one(p.0.as_str(), body) {
            None => {
                proof {
                    lemma_extends_none(*document);
                    lemma_extends_cat(start, before, *document, prev, out_none());
                    assert(out_cat(prev, out_none()) =~= prev) by {
                        assert(prev.nodes + Seq::<NodeView>::empty() =~= prev.nodes);
                        assert(prev.edges + Seq::<EdgeView>::empty() =~= prev.edges);
                        assert(prev.findings + Seq::<IssueView>::empty() =~= prev.findings);
                    }
                }
            },
            Some(groups) => {
                let ghost gs = regex_first_groups(p.0@, body@);
                proof {
                    lemma_extends_none(*document);
                }
                let mut j: usize = 0;
                while j < groups.len()
                    invariant
                        j <= groups.len(),
                        gs == groups@.map_values(|g: Option<String>| crate::types::opt_view(g)),
                        id@ == issue_id_of(n as nat),
                        extends(*document, before, gh_groups_out(gs, j as nat, p.1@, n as nat, file@)),
                    decreases groups.len() - j,
                {
                    let ghost b2 = *document;
                    let ghost cp = gh_groups_out(gs, j as nat, p.1@, n as nat, file@);
                    assert(gs[j as int] == crate::types::opt_view(groups@[j as int]));
                    match &groups[j] {
                        None => {
                            proof {
                                lemma_extends_none(*document);
                                lemma_extends_cat(before, b2, *document, cp, out_none());
                                assert(out_cat(cp, out_none()) =~= cp) by {
                                    assert(cp.nodes + Seq::<NodeView>::empty() =~= cp.nodes);
                                    assert(cp.edges + Seq::<EdgeView>::empty() =~= cp.edges);
                                    assert(cp.findings + Seq::<IssueView>::empty() =~= cp.findings);
                                }
                            }
                        },
                        Some(t) => match crate::gitlabissues::parse_u64_text(t.as_str()) {
                            None => {
                                let nt = u64_text(n);
                                let message = msg5("issue #", nt.as_str(), ": edge pattern captured invalid issue number '", t.as_str(), "'");
                                document.parse_error(message, crate::text::copy_str(file), 0);
                                proof {
                                    let f = issue_error(
                                        "issue #"@ + nat_text(n as nat) + ": edge pattern captured invalid issue number '"@ + t@ + "'"@,
                                        file@,
                                    );
                                    lemma_adds_extends(*document, b2, f);
                                    lemma_extends_cat(before, b2, *document, cp, out_finding(f));
                                }
                            },
                            Some(tn) => {
                                let tgt = crate::text::msg2("#", u64_text(tn).as_str());
                                crate::gitlabissues::push_issue_edge(document, id.clone(), tgt, p.1.clone(), crate::text::copy_str(file));
                                proof {
                                    lemma_extends_cat(
                                        before,
                                        b2,
                                        *document,
                                        cp,
                                        out_edge(issue_edge(issue_id_of(n as nat), issue_id_of(tn as nat), p.1@, file@)),
                                    );
                                }
                            },
                        },
                    }
                    j += 1;
                }
                proof {
                    lemma_extends_cat(start, before, *document, prev, gh_groups_out(gs, gs.len(), p.1@, n as nat, file@));
                }
            },
        }
        k += 1;
    }
}

/// Map GitHub API issues into the document, in response order, then one
/// pathway per configured name from the milestones seen.
pub fn map_github_issues(document: &mut Document, config: &GithubConfig, repo: &str, values: &Vec<JsonValue>)
    requires
        github_kinds_declared(*config),
    ensures
        ({
            let st = gh_walk(*config, repo@, values_view(values@), values@.len());
            &&& final(document).interface_version == old(document).interface_version
            &&& adapter_nodes_view(final(document).nodes@) == adapter_nodes_view(old(document).nodes@) + st.out.nodes
            &&& adapter_edges_view(final(document).edges@) == adapter_edges_view(old(document).edges@) + st.out.edges
            &&& findings_view(final(document).findings@) == findings_view(old(document).findings@) + st.out.findings
            &&& final(document).pathways@.map_values(|p: Pathway| p@) == old(document).pathways@.map_values(|p: Pathway| p@)
                + if st.ms.len() == 0 {
                Seq::<PathwayView>::empty()
            } else {
                texts(config.pathways@).map_values(
                    |n: Seq<char>|
                        PathwayView { name: n, order: milestone_order(st.ms, st.ms.len()), current: milestone_current(st.ms) },
                )
            }
        }),
{
    let ghost start = *document;
    let ghost vv = values_view(values@);
    let mut ms: Vec<(u64, String, String)> = Vec::new();
    proof {
        lemma_extends_none(*document);
    }
    let mut k: usize = 0;
    while k < values.len()
        invariant
            k <= values.len(),
            vv == values_view(values@),
            github_kinds_declared(*config),
            extends(*document, start, gh_walk(*config, repo@, vv, k as nat).out),
            milestones_view(ms@) == gh_walk(*config, repo@, vv, k as nat).ms,
        decreases values.len() - k,
    {
        let v = &values[k];
        assert(vv[k as int] == v.deep());
        let ghost before = *document;
        let ghost st = gh_walk(*config, repo@, vv, k as nat);
        if !pull_request(v) {
            match parse_issue(v) {
                Err(e) => {
                    let idx = usize_text(k + 1);
                    let message = msg4("issue response ", idx.as_str(), ": ", e.as_str());
                    document.parse_error(message, crate::text::msg2("github:", repo), 0);
                    proof {
                        let f = issue_error("issue response "@ + nat_text((k + 1) as nat) + ": "@ + e@, "github:"@ + repo@);
                        lemma_adds_extends(*document, before, f);
                        lemma_extends_cat(start, before, *document, st.out, out_finding(f));
                    }
                },
                Ok(issue) => {
                    let nt = u64_text(issue.number);
                    let file = msg4("github:", repo, "#", nt.as_str());
                    match github_node_kind(&issue, config) {
                        None => {
                            let message = msg3("issue #", nt.as_str(), " has no label mapped to a node kind and no default_kind");
                            document.parse_error(message, file, 0);
                            proof {
                                let f = issue_error(
                                    "issue #"@ + nat_text(issue.number as nat) + " has no label mapped to a node kind and no default_kind"@,
                                    gh_file(repo@, issue.number as nat),
                                );
                                lemma_adds_extends(*document, before, f);
                                lemma_extends_cat(start, before, *document, st.out, out_finding(f));
                            }
                        },
                        Some(kind) => {
                            proof {
                                lemma_github_kind_declared(texts(issue.labels@), *config);
                            }
                            let declared = match assoc_get(&config.attrs_by_kind, kind.as_str()) {
                                Some(d) => d,
                                None => {
                                    return;
                                },
                            };
                            let attrs = github_attrs_of(&issue, declared, &config.pathways);
                            let node = Node {
                                id: crate::text::msg2("#", nt.as_str()),
                                kind,
                                attrs,
                                provenance: Provenance::new(file.clone(), 0),
                            };
                            let ghost nv = node@;
                            document.nodes.push(node);
                            let ghost after_node = *document;
                            proof {
                                assert(adapter_nodes_view(document.nodes@) =~= adapter_nodes_view(before.nodes@) + seq![nv]);
                                assert(adapter_edges_view(document.edges@) =~= adapter_edges_view(before.edges@) + Seq::<EdgeView>::empty());
                                assert(findings_view(document.findings@) =~= findings_view(before.findings@) + Seq::<IssueView>::empty());
                                lemma_extends_cat(start, before, *document, st.out, out_node(nv));
                            }
                            add_body_edges(document, config, issue.body.as_str(), issue.number, file.as_str());
                            proof {
                                lemma_extends_cat(
                                    start,
                                    after_node,
                                    *document,
                                    out_cat(st.out, out_node(nv)),
                                    gh_body_out(*config, config.edge_patterns@.len(), issue@.body, issue.number as nat, file@),
                                );
                            }
                            match issue.milestone {
                                Some(m) => {
                                    put_milestone(&mut ms, (m.number, m.title, m.state));
                                },
                                None => {},
                            }
                        },
                    }
                },
            }
        }
        k += 1;
    }
    let ghost before = *document;
    add_pathways(document, &config.pathways, &ms);
}

} // verus!
