//! The structural checks of validation: per node, per edge, per CONSTRAINT,
//! and the pre-pass over the profile's severity overrides.

use vstd::prelude::*;

use crate::assoc::{assoc, assoc_get};
use crate::graph::{declares, edges_view, node_lookup, nodes_view, Edge, EdgeView, LatticeGraph, Node, NodeView};
use crate::json::{json_text, lookup, members_view, spec_type_name, Json, JsonValue};
use crate::profile::{allowed_pairs, AttrSchema, AttrSchemaView, AttrType, ConstraintConfig, ConstraintView, NodeKind, Profile};
use crate::rules::{
    code_of_text, code_text, cond_ok, issue, spec_check_type, spec_default_severity, spec_eval_all,
    spec_expected_type_name, spec_first_failing, spec_severity_for, FindingCode,
};
use crate::text::{msg2, msg3, msg4, msg5, msg6, msg7, msg8, msg9, nat_text};
use crate::types::{issues_view, new_issue, opt_view, Issue, IssueView, Provenance, ProvenanceView, Severity};

verus! {

/// Where profile-level findings are reported.
pub open spec fn profile_provenance() -> ProvenanceView {
    ProvenanceView { file: "<profile>"@, line: 0 }
}

/// A core finding about a node, at the severity the overrides give its code.
pub open spec fn node_issue(code: FindingCode, message: Seq<char>, n: NodeView, ov: Seq<(String, Severity)>) -> IssueView {
    new_issue(spec_severity_for(code, ov), code_text(code), message, n.provenance, Some(n.id))
}

/// The pre-pass finding for one override: a core code shipped as hint cannot
/// be promoted, and saying so once per code is the whole report.
pub open spec fn override_findings(code: Seq<char>, sev: Severity, ov: Seq<(String, Severity)>) -> Seq<IssueView> {
    if code_of_text(code) matches Some(c) && spec_default_severity(c) == Severity::Hint && sev != Severity::Hint {
        seq![
            new_issue(
                spec_severity_for(FindingCode::ConfigError, ov),
                code_text(FindingCode::ConfigError),
                "severity override for '"@ + code + "': cannot promote from hint; the override is ignored"@,
                profile_provenance(),
                None,
            ),
        ]
    } else {
        Seq::empty()
    }
}

/// The pre-pass findings for the first `n` overrides, in code order.
pub open spec fn pre_findings(s: Seq<(String, Severity)>, n: nat, ov: Seq<(String, Severity)>) -> Seq<IssueView>
    decreases n,
{
    if n == 0 || n > s.len() {
        Seq::empty()
    } else {
        pre_findings(s, (n - 1) as nat, ov) + override_findings(s[n - 1].0@, s[n - 1].1, ov)
    }
}

/// Report every override that tries to promote a core hint code.
pub fn check_overrides(profile: &Profile, out: &mut Vec<Issue>)
    ensures
        issues_view(final(out)@) == issues_view(old(out)@) + pre_findings(
            profile.spec_overrides(),
            profile.spec_overrides().len(),
            profile.spec_overrides(),
        ),
{
    let ov = profile.validation_overrides();
    let ghost ovs = profile.spec_overrides();
    let ghost start = issues_view(out@);
    let mut i: usize = 0;
    while i < ov.len()
        invariant
            i <= ov.len(),
            ov@ == ovs,
            ovs == profile.spec_overrides(),
            issues_view(out@) == start + pre_findings(ovs, i as nat, ovs),
        decreases ov.len() - i,
    {
        let code = ov[i].0.as_str();
        let sev = ov[i].1;
        let ghost before = issues_view(out@);
        match FindingCode::from_str(code) {
            Some(c) => {
                if crate::rules::default_severity(c) == Severity::Hint && sev != Severity::Hint {
                    let m = msg3("severity override for '", code, "': cannot promote from hint; the override is ignored");
                    out.push(issue(FindingCode::ConfigError, m, Provenance::new("<profile>", 0), profile, None));
                }
            },
            None => {},
        }
        proof {
            reveal_strlit("<profile>");
            assert(issues_view(out@) =~= before + override_findings(ovs[i as int].0@, ovs[i as int].1, ovs));
            assert(issues_view(out@) =~= start + pre_findings(ovs, (i + 1) as nat, ovs));
        }
        i += 1;
    }
}

/// Whether some edge has `id` as an endpoint, declared or not: an edge is
/// evidence the node is referred to.
pub open spec fn connected(es: Seq<EdgeView>, id: Seq<char>) -> bool {
    exists|i: int| 0 <= i < es.len() && (es[i].src == id || es[i].tgt == id)
}

fn is_connected(edges: &Vec<Edge>, id: &str) -> (r: bool)
    ensures
        r == connected(edges_view(edges@), id@),
{
    let ghost es = edges_view(edges@);
    let mut i: usize = 0;
    while i < edges.len()
        invariant
            i <= edges.len(),
            es == edges_view(edges@),
            forall|k: int| 0 <= k < i ==> !(#[trigger] es[k].src == id@ || es[k].tgt == id@),
        decreases edges.len() - i,
    {
        if crate::text::str_eq(edges[i].src.as_str(), id) || crate::text::str_eq(edges[i].tgt.as_str(), id) {
            assert(es[i as int].src == id@ || es[i as int].tgt == id@);
            return true;
        }
        i += 1;
    }
    proof {
        if connected(es, id@) {
            let k = choose|k: int| 0 <= k < es.len() && (es[k].src == id@ || es[k].tgt == id@);
            assert(!(es[k].src == id@ || es[k].tgt == id@));
        }
    }
    false
}

/// The text of a string value; empty for anything else.
pub open spec fn text_of(v: Json) -> Seq<char> {
    match v {
        Json::Str(s) => s,
        _ => Seq::empty(),
    }
}

/// The compact JSON of a list of strings.
pub open spec fn strings_json(vs: Seq<Seq<char>>) -> Seq<char> {
    json_text(Json::Array(Seq::new(vs.len(), |i: int| Json::Str(vs[i]))))
}

/// The findings for the first `k` items of a list attr: each item of the
/// wrong type, by index.
pub open spec fn list_item_findings(
    n: NodeView,
    name: Seq<char>,
    t: AttrType,
    items: Seq<Json>,
    k: nat,
    ov: Seq<(String, Severity)>,
) -> Seq<IssueView>
    decreases k,
{
    if k == 0 || k > items.len() {
        Seq::empty()
    } else {
        list_item_findings(n, name, t, items, (k - 1) as nat, ov) + if !spec_check_type(items[k - 1], t) {
            seq![
                node_issue(
                    FindingCode::AttrListItems,
                    "node '"@ + n.id + "': attr '"@ + name + "' element "@ + nat_text((k - 1) as nat)
                        + " expected type '"@ + spec_expected_type_name(t) + "', got "@ + spec_type_name(items[k - 1]),
                    n,
                    ov,
                ),
            ]
        } else {
            Seq::empty()
        }
    }
}

/// The finding for an enum value outside the declared values.
pub open spec fn enum_findings(n: NodeView, name: Seq<char>, schema: AttrSchemaView, v: Json, ov: Seq<(String, Severity)>) -> Seq<
    IssueView,
> {
    if schema.kind == AttrType::Enum {
        match schema.values {
            Some(allowed) => if !allowed.contains(text_of(v)) {
                seq![
                    node_issue(
                        FindingCode::AttrEnum,
                        "node '"@ + n.id + "': attr '"@ + name + "' value '"@ + text_of(v) + "' not in "@ + strings_json(
                            allowed,
                        ),
                        n,
                        ov,
                    ),
                ]
            } else {
                Seq::empty()
            },
            None => Seq::empty(),
        }
    } else {
        Seq::empty()
    }
}

/// The findings for the items of a list value.
pub open spec fn list_findings(n: NodeView, name: Seq<char>, schema: AttrSchemaView, v: Json, ov: Seq<(String, Severity)>) -> Seq<
    IssueView,
> {
    if schema.kind == AttrType::List {
        match (schema.items, v) {
            (Some(t), Json::Array(items)) => list_item_findings(n, name, t, items, items.len(), ov),
            _ => Seq::empty(),
        }
    } else {
        Seq::empty()
    }
}

/// The findings for one declared attr of a node.
pub open spec fn attr_findings(n: NodeView, name: Seq<char>, schema: AttrSchemaView, ov: Seq<(String, Severity)>) -> Seq<
    IssueView,
> {
    match lookup(n.attrs, name) {
        None => if schema.required {
            seq![node_issue(FindingCode::AttrRequired, "node '"@ + n.id + "': missing required attr '"@ + name + "'"@, n, ov)]
        } else {
            Seq::empty()
        },
        Some(v) => if !spec_check_type(v, schema.kind) {
            seq![
                node_issue(
                    FindingCode::AttrType,
                    "node '"@ + n.id + "': attr '"@ + name + "' expected type '"@ + spec_expected_type_name(schema.kind)
                        + "', got "@ + spec_type_name(v),
                    n,
                    ov,
                ),
            ]
        } else {
            enum_findings(n, name, schema, v, ov) + list_findings(n, name, schema, v, ov)
        },
    }
}

/// The findings for the first `k` declared attrs of a node's kind.
pub open spec fn attrs_findings(n: NodeView, s: Seq<(String, AttrSchema)>, k: nat, ov: Seq<(String, Severity)>) -> Seq<
    IssueView,
>
    decreases k,
{
    if k == 0 || k > s.len() {
        Seq::empty()
    } else {
        attrs_findings(n, s, (k - 1) as nat, ov) + attr_findings(n, s[k - 1].0@, s[k - 1].1@, ov)
    }
}

/// Every finding about one node: an unknown kind alone, or its ID, its attrs
/// and whether any edge refers to it.
pub open spec fn node_findings(n: NodeView, p: Profile, es: Seq<EdgeView>) -> Seq<IssueView> {
    let ov = p.spec_overrides();
    match assoc(p.spec_node_kinds(), n.kind) {
        None => seq![node_issue(FindingCode::UnknownKind, "node '"@ + n.id + "' has unknown kind '"@ + n.kind + "'"@, n, ov)],
        Some(nk) => (if !crate::pattern::regex_finds(crate::profile::anchored(nk.id_pattern_source@), n.id) {
            seq![
                node_issue(
                    FindingCode::IdFormat,
                    "node '"@ + n.id + "' does not match pattern '"@ + nk.id_pattern_source@ + "' for kind '"@ + n.kind
                        + "'"@,
                    n,
                    ov,
                ),
            ]
        } else {
            Seq::empty()
        }) + attrs_findings(n, nk.attrs@, nk.attrs@.len(), ov) + (if !connected(es, n.id) && !nk.orphan_ok {
            seq![node_issue(FindingCode::OrphanNode, "node '"@ + n.id + "' has no edges"@, n, ov)]
        } else {
            Seq::empty()
        }),
    }
}

/// The node findings for the first `k` nodes, in order.
pub open spec fn nodes_findings(ns: Seq<NodeView>, k: nat, p: Profile, es: Seq<EdgeView>) -> Seq<IssueView>
    decreases k,
{
    if k == 0 || k > ns.len() {
        Seq::empty()
    } else {
        nodes_findings(ns, (k - 1) as nat, p, es) + node_findings(ns[k - 1], p, es)
    }
}

fn strings_json_text(vs: &Vec<String>) -> (r: String)
    ensures
        r@ == strings_json(crate::text::texts(vs@)),
{
    let mut items: Vec<JsonValue> = Vec::new();
    let mut i: usize = 0;
    while i < vs.len()
        invariant
            i <= vs.len(),
            items.len() == i,
            forall|k: int| 0 <= k < i ==> #[trigger] items@[k].deep() == Json::Str(vs@[k]@),
        decreases vs.len() - i,
    {
        items.push(JsonValue::Str(vs[i].clone()));
        i += 1;
    }
    let arr = JsonValue::Array(items);
    proof {
        crate::json::lemma_items(items@, items@.len());
        let ts = crate::text::texts(vs@);
        assert(crate::json::deep_items(items@, items@.len()) =~= Seq::new(ts.len(), |i: int| Json::Str(ts[i])));
    }
    crate::json::to_json_text(&arr)
}

fn node_prov(n: &Node) -> (r: Provenance)
    ensures
        r@ == n.provenance@,
{
    n.provenance.copy()
}

/// Report every list item of the wrong type.
fn check_list_items(
    node: &Node,
    name: &str,
    t: AttrType,
    items: &Vec<JsonValue>,
    profile: &Profile,
    out: &mut Vec<Issue>,
)
    ensures
        issues_view(final(out)@) == issues_view(old(out)@) + list_item_findings(
            node@,
            name@,
            t,
            crate::json::deep_items(items@, items@.len()),
            items@.len(),
            profile.spec_overrides(),
        ),
{
    proof {
        crate::json::lemma_items(items@, items@.len());
    }
    let ghost js = crate::json::deep_items(items@, items@.len());
    let ghost start = issues_view(out@);
    let mut i: usize = 0;
    while i < items.len()
        invariant
            i <= items.len(),
            js == crate::json::deep_items(items@, items@.len()),
            js.len() == items.len(),
            forall|k: int| 0 <= k < items.len() ==> #[trigger] js[k] == items@[k].deep(),
            issues_view(out@) == start + list_item_findings(node@, name@, t, js, i as nat, profile.spec_overrides()),
        decreases items.len() - i,
    {
        let ghost before = issues_view(out@);
        proof {
            assert(js[i as int] == items@[i as int].deep());
        }
        if !crate::rules::check_type(&items[i], t) {
            let idx = crate::text::usize_text(i);
            let m = msg9("node '", node.id.as_str(), "': attr '", name, "' element ", idx.as_str(), " expected type '",
                crate::rules::expected_type_name(t), "', got ");
            let m = msg2(m.as_str(), crate::json::json_type_name(&items[i]));
            let f = issue(FindingCode::AttrListItems, m, node_prov(node), profile, Some(node.id.clone()));
            assert(f@ == node_issue(FindingCode::AttrListItems, m@, node@, profile.spec_overrides()));
            out.push(f);
            assert(issues_view(out@) =~= before.push(f@));
        } else {
            assert(issues_view(out@) =~= before);
        }
        proof {
            assert(issues_view(out@) =~= start + list_item_findings(node@, name@, t, js, (i + 1) as nat, profile.spec_overrides()));
        }
        i += 1;
    }
}

/// Report the findings for one declared attr of a node.
fn check_attr(node: &Node, name: &str, schema: &AttrSchema, profile: &Profile, out: &mut Vec<Issue>)
    ensures
        issues_view(final(out)@) == issues_view(old(out)@) + attr_findings(node@, name@, schema@, profile.spec_overrides()),
{
    let ghost start = issues_view(out@);
    let value = match crate::json::get(&node.attrs, name) {
        None => {
            if schema.required {
                let m = msg5("node '", node.id.as_str(), "': missing required attr '", name, "'");
                out.push(issue(FindingCode::AttrRequired, m, node_prov(node), profile, Some(node.id.clone())));
            }
            assert(issues_view(out@) =~= start + attr_findings(node@, name@, schema@, profile.spec_overrides()));
            return;
        },
        Some(v) => v,
    };
    if !crate::rules::check_type(value, schema.kind) {
        let m = msg7("node '", node.id.as_str(), "': attr '", name, "' expected type '",
            crate::rules::expected_type_name(schema.kind), "', got ");
        let m = msg2(m.as_str(), crate::json::json_type_name(value));
        out.push(issue(FindingCode::AttrType, m, node_prov(node), profile, Some(node.id.clone())));
        assert(issues_view(out@) =~= start + attr_findings(node@, name@, schema@, profile.spec_overrides()));
        return;
    }
    let ghost mid = issues_view(out@);
    let ghost ov = profile.spec_overrides();
    assert(mid == start);
    if schema.kind == AttrType::Enum {
        match &schema.values {
            Some(allowed) => {
                let text: &str = match value {
                    JsonValue::Str(s) => s.as_str(),
                    _ => "",
                };
                proof {
                    reveal_strlit("");
                    assert(text@ == text_of(value.deep()));
                }
                if !crate::assoc::contains_text(allowed, text) {
                    let list = strings_json_text(allowed);
                    let m = msg8("node '", node.id.as_str(), "': attr '", name, "' value '", text, "' not in ",
                        list.as_str());
                    out.push(issue(FindingCode::AttrEnum, m, node_prov(node), profile, Some(node.id.clone())));
                }
            },
            None => {},
        }
    }
    let ghost after_enum = issues_view(out@);
    assert(after_enum == mid + enum_findings(node@, name@, schema@, value.deep(), ov));
    if schema.kind == AttrType::List {
        match (&schema.items, value) {
            (Some(t), JsonValue::Array(items)) => {
                proof {
                    crate::json::lemma_items(items@, items@.len());
                }
                check_list_items(node, name, *t, items, profile, out);
            },
            _ => {},
        }
    }
    assert(issues_view(out@) == after_enum + list_findings(node@, name@, schema@, value.deep(), ov));
    proof {
        assert(issues_view(out@) =~= start + attr_findings(node@, name@, schema@, profile.spec_overrides()));
    }
}

/// Report every finding about one node.
pub fn check_node(node: &Node, profile: &Profile, edges: &Vec<Edge>, out: &mut Vec<Issue>)
    requires
        profile.wf(),
    ensures
        issues_view(final(out)@) == issues_view(old(out)@) + node_findings(node@, *profile, edges_view(edges@)),
{
    let ghost start = issues_view(out@);
    let kinds = profile.node_kinds();
    let nk: &NodeKind = match assoc_get(kinds, node.kind.as_str()) {
        None => {
            let m = msg5("node '", node.id.as_str(), "' has unknown kind '", node.kind.as_str(), "'");
            out.push(issue(FindingCode::UnknownKind, m, node_prov(node), profile, Some(node.id.clone())));
            assert(issues_view(out@) =~= start + node_findings(node@, *profile, edges_view(edges@)));
            return;
        },
        Some(nk) => nk,
    };
    proof {
        let d = crate::profile::decl_profile(profile.spec_raw())->0;
        assert(assoc(profile.spec_node_kinds(), node@.kind) == Some(*nk));
        assert(crate::profile::node_kinds_hold(profile.spec_node_kinds(), d.node_entries));
    }
    if !nk.id_matches(node.id.as_str()) {
        let m = msg7("node '", node.id.as_str(), "' does not match pattern '", nk.id_pattern_source.as_str(),
            "' for kind '", node.kind.as_str(), "'");
        out.push(issue(FindingCode::IdFormat, m, node_prov(node), profile, Some(node.id.clone())));
    }
    let ghost after_id = issues_view(out@);
    let ghost ov = profile.spec_overrides();
    let ghost idpart = if !crate::pattern::regex_finds(crate::profile::anchored(nk.id_pattern_source@), node@.id) {
        seq![
            node_issue(
                FindingCode::IdFormat,
                "node '"@ + node@.id + "' does not match pattern '"@ + nk.id_pattern_source@ + "' for kind '"@ + node@.kind
                    + "'"@,
                node@,
                ov,
            ),
        ]
    } else {
        Seq::empty()
    };
    assert(after_id =~= start + idpart);
    let mut i: usize = 0;
    while i < nk.attrs.len()
        invariant
            i <= nk.attrs.len(),
            issues_view(out@) == after_id + attrs_findings(node@, nk.attrs@, i as nat, profile.spec_overrides()),
        decreases nk.attrs.len() - i,
    {
        let ghost before = issues_view(out@);
        check_attr(node, nk.attrs[i].0.as_str(), &nk.attrs[i].1, profile, out);
        proof {
            assert(issues_view(out@) =~= after_id + attrs_findings(node@, nk.attrs@, (i + 1) as nat, profile.spec_overrides()));
        }
        i += 1;
    }
    let ghost after_attrs = issues_view(out@);
    assert(after_attrs == after_id + attrs_findings(node@, nk.attrs@, nk.attrs@.len(), ov));
    if !is_connected(edges, node.id.as_str()) && !nk.orphan_ok {
        let m = msg3("node '", node.id.as_str(), "' has no edges");
        out.push(issue(FindingCode::OrphanNode, m, node_prov(node), profile, Some(node.id.clone())));
    }
    proof {
        let orph = if !connected(edges_view(edges@), node@.id) && !nk.orphan_ok {
            seq![node_issue(FindingCode::OrphanNode, "node '"@ + node@.id + "' has no edges"@, node@, ov)]
        } else {
            Seq::empty()
        };
        assert(issues_view(out@) =~= after_attrs + orph);
        let att = attrs_findings(node@, nk.attrs@, nk.attrs@.len(), ov);
        assert(node_findings(node@, *profile, edges_view(edges@)) == idpart + att + orph);
        assert(issues_view(out@) =~= start + (idpart + att + orph));
    }
}

/// Report the findings for the first `k` nodes.
pub fn check_nodes(graph: &LatticeGraph, profile: &Profile, out: &mut Vec<Issue>)
    requires
        profile.wf(),
        graph.wf(),
    ensures
        issues_view(final(out)@) == issues_view(old(out)@) + nodes_findings(
            graph.spec_nodes(),
            graph.spec_nodes().len(),
            *profile,
            graph.spec_edges(),
        ),
{
    let nodes = graph.iter_nodes();
    let edges = graph.iter_edges();
    let ghost start = issues_view(out@);
    let ghost ns = graph.spec_nodes();
    let mut i: usize = 0;
    while i < nodes.len()
        invariant
            i <= nodes.len(),
            profile.wf(),
            nodes_view(nodes@) == ns,
            edges_view(edges@) == graph.spec_edges(),
            ns == graph.spec_nodes(),
            issues_view(out@) == start + nodes_findings(ns, i as nat, *profile, graph.spec_edges()),
        decreases nodes.len() - i,
    {
        check_node(&nodes[i], profile, edges, out);
        proof {
            assert(ns[i as int] == nodes@[i as int]@);
            assert(issues_view(out@) =~= start + nodes_findings(ns, (i + 1) as nat, *profile, graph.spec_edges()));
        }
        i += 1;
    }
}

/// Every finding about one edge: an unknown kind, missing endpoints, and a
/// pair of endpoint kinds the edge kind does not admit. A dangling target of
/// a cross-source edge kind is only a hint.
pub open spec fn edge_findings(e: EdgeView, p: Profile, ns: Seq<NodeView>) -> Seq<IssueView> {
    let ov = p.spec_overrides();
    let ek = assoc(p.spec_edge_kinds(), e.kind);
    let head = "edge '"@ + e.src + "'->'"@ + e.tgt + "'"@;
    (if ek is None {
        seq![
            new_issue(
                spec_severity_for(FindingCode::UnknownKind, ov),
                code_text(FindingCode::UnknownKind),
                head + " has unknown kind '"@ + e.kind + "'"@,
                e.provenance,
                None,
            ),
        ]
    } else {
        Seq::empty()
    }) + (if !declares(ns, e.tgt) {
        seq![
            new_issue(
                if ek matches Some(k) && k.cross_source {
                    Severity::Hint
                } else {
                    spec_severity_for(FindingCode::Vacancy, ov)
                },
                code_text(FindingCode::Vacancy),
                head + " (kind '"@ + e.kind + "'): target '"@ + e.tgt + "' does not exist"@,
                e.provenance,
                Some(e.src),
            ),
        ]
    } else {
        Seq::empty()
    }) + (if !declares(ns, e.src) {
        seq![
            new_issue(
                spec_severity_for(FindingCode::Vacancy, ov),
                code_text(FindingCode::Vacancy),
                head + " (kind '"@ + e.kind + "'): source '"@ + e.src + "' does not exist"@,
                e.provenance,
                Some(e.src),
            ),
        ]
    } else {
        Seq::empty()
    }) + pair_findings(e, p, ns)
}

/// The finding for an edge between declared nodes of declared kinds whose kind
/// pair the edge kind does not admit.
pub open spec fn pair_findings(e: EdgeView, p: Profile, ns: Seq<NodeView>) -> Seq<IssueView> {
    match (assoc(p.spec_edge_kinds(), e.kind), node_lookup(ns, e.src), node_lookup(ns, e.tgt)) {
        (Some(k), Some(sn), Some(tn)) => if assoc(p.spec_node_kinds(), sn.kind) is Some && assoc(
            p.spec_node_kinds(),
            tn.kind,
        ) is Some && !allowed_pairs(k).contains((sn.kind, tn.kind)) {
            seq![
                new_issue(
                    spec_severity_for(FindingCode::EdgeConstraint, p.spec_overrides()),
                    code_text(FindingCode::EdgeConstraint),
                    "edge '"@ + e.src + "'->'"@ + e.tgt + "' (kind '"@ + e.kind + "'): ["@ + sn.kind + ", "@ + tn.kind
                        + "] not in allowed pairs"@,
                    e.provenance,
                    Some(e.src),
                ),
            ]
        } else {
            Seq::empty()
        },
        _ => Seq::empty(),
    }
}

/// The edge findings for the first `k` edges, in order.
pub open spec fn edges_findings(es: Seq<EdgeView>, k: nat, p: Profile, ns: Seq<NodeView>) -> Seq<IssueView>
    decreases k,
{
    if k == 0 || k > es.len() {
        Seq::empty()
    } else {
        edges_findings(es, (k - 1) as nat, p, ns) + edge_findings(es[k - 1], p, ns)
    }
}

fn edge_prov(e: &Edge) -> (r: Provenance)
    ensures
        r@ == e.provenance@,
{
    e.provenance.copy()
}

/// Report every finding about one edge.
pub fn check_edge(edge: &Edge, graph: &LatticeGraph, profile: &Profile, out: &mut Vec<Issue>)
    ensures
        issues_view(final(out)@) == issues_view(old(out)@) + edge_findings(edge@, *profile, graph.spec_nodes()),
{
    let ghost start = issues_view(out@);
    let ghost ov = profile.spec_overrides();
    let src_node = graph.node(edge.src.as_str());
    let tgt_node = graph.node(edge.tgt.as_str());
    let edge_kind = assoc_get(profile.edge_kinds(), edge.kind.as_str());
    let head = msg5("edge '", edge.src.as_str(), "'->'", edge.tgt.as_str(), "'");
    if edge_kind.is_none() {
        let m = msg4(head.as_str(), " has unknown kind '", edge.kind.as_str(), "'");
        out.push(Issue::new(crate::rules::severity_for(FindingCode::UnknownKind, profile), FindingCode::UnknownKind.as_str(),
            m, edge_prov(edge), None));
    }
    let ghost a1 = issues_view(out@);
    if tgt_node.is_none() {
        let cross = match edge_kind {
            Some(k) => k.cross_source,
            None => false,
        };
        let severity = if cross {
            Severity::Hint
        } else {
            crate::rules::severity_for(FindingCode::Vacancy, profile)
        };
        let m = msg6(head.as_str(), " (kind '", edge.kind.as_str(), "'): target '", edge.tgt.as_str(), "' does not exist");
        out.push(Issue::new(severity, FindingCode::Vacancy.as_str(), m, edge_prov(edge), Some(edge.src.clone())));
    }
    let ghost a2 = issues_view(out@);
    if src_node.is_none() {
        let m = msg6(head.as_str(), " (kind '", edge.kind.as_str(), "'): source '", edge.src.as_str(), "' does not exist");
        out.push(Issue::new(crate::rules::severity_for(FindingCode::Vacancy, profile), FindingCode::Vacancy.as_str(), m,
            edge_prov(edge), Some(edge.src.clone())));
    }
    let ghost a3 = issues_view(out@);
    match (edge_kind, src_node, tgt_node) {
        (Some(k), Some(sn), Some(tn)) => {
            let src_known = crate::assoc::assoc_has(profile.node_kinds(), sn.kind.as_str());
            let tgt_known = crate::assoc::assoc_has(profile.node_kinds(), tn.kind.as_str());
            if src_known && tgt_known && !k.admits(sn.kind.as_str(), tn.kind.as_str()) {
                let m = msg9("edge '", edge.src.as_str(), "'->'", edge.tgt.as_str(), "' (kind '", edge.kind.as_str(),
                    "'): [", sn.kind.as_str(), ", ");
                let m = msg3(m.as_str(), tn.kind.as_str(), "] not in allowed pairs");
                out.push(Issue::new(crate::rules::severity_for(FindingCode::EdgeConstraint, profile),
                    FindingCode::EdgeConstraint.as_str(), m, edge_prov(edge), Some(edge.src.clone())));
            }
        },
        _ => {},
    }
    proof {
        assert(issues_view(out@) =~= a3 + pair_findings(edge@, *profile, graph.spec_nodes()));
        assert(issues_view(out@) =~= start + edge_findings(edge@, *profile, graph.spec_nodes()));
    }
}

/// Report the findings for every edge.
pub fn check_edges(graph: &LatticeGraph, profile: &Profile, out: &mut Vec<Issue>)
    ensures
        issues_view(final(out)@) == issues_view(old(out)@) + edges_findings(
            graph.spec_edges(),
            graph.spec_edges().len(),
            *profile,
            graph.spec_nodes(),
        ),
{
    let edges = graph.iter_edges();
    let ghost start = issues_view(out@);
    let ghost es = graph.spec_edges();
    let mut i: usize = 0;
    while i < edges.len()
        invariant
            i <= edges.len(),
            edges_view(edges@) == es,
            es == graph.spec_edges(),
            issues_view(out@) == start + edges_findings(es, i as nat, *profile, graph.spec_nodes()),
        decreases edges.len() - i,
    {
        check_edge(&edges[i], graph, profile, out);
        proof {
            assert(es[i as int] == edges@[i as int]@);
            assert(issues_view(out@) =~= start + edges_findings(es, (i + 1) as nat, *profile, graph.spec_nodes()));
        }
        i += 1;
    }
}

/// The finding a CONSTRAINT gives one node: for a node of its kind meeting
/// every `when`, the first `expect` that fails, else the first `reject` that
/// holds.
pub open spec fn constraint_node_findings(c: ConstraintView, n: NodeView, ov: Seq<(String, Severity)>) -> Seq<IssueView> {
    if n.kind == c.kind && spec_eval_all(c.when, n.attrs, true) {
        let failure = match spec_first_failing(c.expect, n.attrs, true) {
            Some(f) => Some(f),
            None => spec_first_failing(c.reject, n.attrs, false),
        };
        match failure {
            Some((a, d)) => seq![
                new_issue(
                    match c.severity {
                        Some(s) => s,
                        None => spec_severity_for(FindingCode::Constraint, ov),
                    },
                    code_text(FindingCode::Constraint),
                    match c.message {
                        Some(m) => m,
                        None => "constraint failed: '"@ + a + "' "@ + d,
                    },
                    n.provenance,
                    Some(n.id),
                ),
            ],
            None => Seq::empty(),
        }
    } else {
        Seq::empty()
    }
}

/// One CONSTRAINT's findings for the first `k` nodes.
pub open spec fn constraint_findings(c: ConstraintView, ns: Seq<NodeView>, k: nat, ov: Seq<(String, Severity)>) -> Seq<
    IssueView,
>
    decreases k,
{
    if k == 0 || k > ns.len() {
        Seq::empty()
    } else {
        constraint_findings(c, ns, (k - 1) as nat, ov) + constraint_node_findings(c, ns[k - 1], ov)
    }
}

/// The findings of the first `k` CONSTRAINT entries, each over every node.
pub open spec fn constraints_findings(cs: Seq<ConstraintView>, k: nat, ns: Seq<NodeView>, ov: Seq<(String, Severity)>) -> Seq<
    IssueView,
>
    decreases k,
{
    if k == 0 || k > cs.len() {
        Seq::empty()
    } else {
        constraints_findings(cs, (k - 1) as nat, ns, ov) + constraint_findings(cs[k - 1], ns, ns.len(), ov)
    }
}

fn check_constraint_node(c: &ConstraintConfig, node: &Node, profile: &Profile, out: &mut Vec<Issue>)
    requires
        forall|j: int| 0 <= j < c.when@.len() ==> crate::rules::cond_ok(#[trigger] c.when@[j]@),
        forall|j: int| 0 <= j < c.expect@.len() ==> crate::rules::cond_ok(#[trigger] c.expect@[j]@),
        forall|j: int| 0 <= j < c.reject@.len() ==> crate::rules::cond_ok(#[trigger] c.reject@[j]@),
    ensures
        issues_view(final(out)@) == issues_view(old(out)@) + constraint_node_findings(c@, node@, profile.spec_overrides()),
{
    let ghost start = issues_view(out@);
    if !crate::text::str_eq(node.kind.as_str(), c.kind.as_str()) {
        assert(issues_view(out@) =~= start + constraint_node_findings(c@, node@, profile.spec_overrides()));
        return;
    }
    if !crate::rules::eval_conditions(&c.when, &node.attrs, true) {
        assert(issues_view(out@) =~= start + constraint_node_findings(c@, node@, profile.spec_overrides()));
        return;
    }
    let failure = match crate::rules::first_failing_condition(&c.expect, &node.attrs, true) {
        Some(f) => Some(f),
        None => crate::rules::first_failing_condition(&c.reject, &node.attrs, false),
    };
    match failure {
        Some((attr, desc)) => {
            let severity = match c.severity {
                Some(s) => s,
                None => crate::rules::severity_for(FindingCode::Constraint, profile),
            };
            let message = match &c.message {
                Some(m) => m.clone(),
                None => msg4("constraint failed: '", attr.as_str(), "' ", desc.as_str()),
            };
            out.push(Issue::new(severity, FindingCode::Constraint.as_str(), message, node_prov(node), Some(node.id.clone())));
        },
        None => {},
    }
    assert(issues_view(out@) =~= start + constraint_node_findings(c@, node@, profile.spec_overrides()));
}

/// Report every CONSTRAINT entry's findings, entry by entry, node by node.
pub fn check_constraints(graph: &LatticeGraph, profile: &Profile, out: &mut Vec<Issue>)
    requires
        profile.wf(),
        graph.wf(),
    ensures
        issues_view(final(out)@) == issues_view(old(out)@) + constraints_findings(
            crate::profile::constraints_view(profile.spec_constraints()),
            profile.spec_constraints().len(),
            graph.spec_nodes(),
            profile.spec_overrides(),
        ),
{
    proof {
        crate::rules::lemma_constraints_ok(*profile);
    }
    let cs = profile.constraint_configs();
    let nodes = graph.iter_nodes();
    let ghost cv = crate::profile::constraints_view(profile.spec_constraints());
    let ghost ns = graph.spec_nodes();
    let ghost ov = profile.spec_overrides();
    let ghost start = issues_view(out@);
    let mut i: usize = 0;
    while i < cs.len()
        invariant
            i <= cs.len(),
            cs@ == profile.spec_constraints(),
            cv == crate::profile::constraints_view(profile.spec_constraints()),
            nodes_view(nodes@) == ns,
            ov == profile.spec_overrides(),
            forall|a: int, j: int|
                0 <= a < cs@.len() && 0 <= j < cs@[a].when@.len() ==> crate::rules::cond_ok(#[trigger] cs@[a].when@[j]@),
            forall|a: int, j: int|
                0 <= a < cs@.len() && 0 <= j < cs@[a].expect@.len() ==> crate::rules::cond_ok(#[trigger] cs@[a].expect@[j]@),
            forall|a: int, j: int|
                0 <= a < cs@.len() && 0 <= j < cs@[a].reject@.len() ==> crate::rules::cond_ok(#[trigger] cs@[a].reject@[j]@),
            issues_view(out@) == start + constraints_findings(cv, i as nat, ns, ov),
        decreases cs.len() - i,
    {
        let c = &cs[i];
        let ghost before = issues_view(out@);
        let mut j: usize = 0;
        while j < nodes.len()
            invariant
                j <= nodes.len(),
                nodes_view(nodes@) == ns,
                ov == profile.spec_overrides(),
                forall|x: int| 0 <= x < c.when@.len() ==> crate::rules::cond_ok(#[trigger] c.when@[x]@),
                forall|x: int| 0 <= x < c.expect@.len() ==> crate::rules::cond_ok(#[trigger] c.expect@[x]@),
                forall|x: int| 0 <= x < c.reject@.len() ==> crate::rules::cond_ok(#[trigger] c.reject@[x]@),
                issues_view(out@) == before + constraint_findings(c@, ns, j as nat, ov),
            decreases nodes.len() - j,
        {
            check_constraint_node(c, &nodes[j], profile, out);
            proof {
                assert(ns[j as int] == nodes@[j as int]@);
                assert(issues_view(out@) =~= before + constraint_findings(c@, ns, (j + 1) as nat, ov));
            }
            j += 1;
        }
        proof {
            assert(cv[i as int] == c@);
            assert(issues_view(out@) =~= start + constraints_findings(cv, (i + 1) as nat, ns, ov));
        }
        i += 1;
    }
}

} // verus!
