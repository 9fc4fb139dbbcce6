//! Ingest: an adapter's interface document becomes a `LatticeGraph`.
//!
//! A document off the schema is a `ContractError`, never a finding: an
//! adapter that wrote one gave the core no trustworthy view of the register.

use vstd::prelude::*;

use crate::graph::{
    declares, node_lookup, pathway_error_text, pathway_lookup, pathway_valid, EdgeSpec, EdgeView, LatticeGraph, NodeView,
    PathwayView,
};
use crate::json::{json_type_name, lookup, members_view, spec_type_name, Json, JsonValue};
use crate::text::{int_text, msg2, msg3, msg4, msg5, nat_text, str_eq, texts, usize_text};
use crate::types::{new_issue, provenance_text, severity_of_text, Issue, IssueView, Provenance, ProvenanceView, Severity};
use serde_json::Value;

verus! {

/// A document the core cannot ingest: unparseable, wrong version, or off-schema.
pub struct ContractError(pub String);

/// The interface version this core emits and prefers.
pub const INTERFACE_VERSION: &'static str = "1.2";

// ---------------------------------------------------------------- reading entries

/// A member of an object, if the value is one and holds it.
pub open spec fn member(j: Json, key: Seq<char>) -> Option<Json> {
    match j {
        Json::Object(ms) => lookup(ms, key),
        _ => None,
    }
}

/// `take`: the member `key` of an entry, or why there is none.
pub open spec fn spec_take(j: Json, key: Seq<char>, at: Seq<char>) -> Result<Json, Seq<char>> {
    match j {
        Json::Object(ms) => match lookup(ms, key) {
            Some(v) => Ok(v),
            None => Err(at + ": missing '"@ + key + "'"@),
        },
        other => Err(at + ": expected an object, got "@ + spec_type_name(other)),
    }
}

/// `take_string`: a string member.
pub open spec fn spec_take_string(j: Json, key: Seq<char>, at: Seq<char>) -> Result<Seq<char>, Seq<char>> {
    match spec_take(j, key, at) {
        Ok(Json::Str(s)) => Ok(s),
        Ok(other) => Err(at + ": '"@ + key + "' must be a string, got "@ + spec_type_name(other)),
        Err(e) => Err(e),
    }
}

/// `take_optional_string`: absent and `null` both read as `None`.
pub open spec fn spec_take_optional(j: Json, key: Seq<char>, at: Seq<char>) -> Result<Option<Seq<char>>, Seq<char>> {
    match j {
        Json::Object(ms) => match lookup(ms, key) {
            None => Ok(None),
            Some(Json::Null) => Ok(None),
            Some(Json::Str(s)) => Ok(Some(s)),
            Some(_) => Err(at + ": '"@ + key + "' must be a string or null"@),
        },
        other => Err(at + ": expected an object, got "@ + spec_type_name(other)),
    }
}

/// Whether an integer fits an `i64`.
pub open spec fn fits_i64(n: int) -> bool {
    i64::MIN <= n <= i64::MAX
}

/// `take_provenance`: a `{file, line}` member.
pub open spec fn spec_take_provenance(j: Json, at: Seq<char>) -> Result<ProvenanceView, Seq<char>> {
    let pat = at + " provenance"@;
    match spec_take(j, "provenance"@, at) {
        Err(e) => Err(e),
        Ok(raw) => match spec_take_string(raw, "file"@, pat) {
            Err(e) => Err(e),
            Ok(file) => match spec_take(raw, "line"@, pat) {
                Err(e) => Err(e),
                Ok(Json::Int(n)) => if fits_i64(n) {
                    Ok(ProvenanceView { file, line: n })
                } else {
                    Err(pat + ": 'line' must be an integer, got "@ + spec_type_name(Json::Int(n)))
                },
                Ok(other) => Err(pat + ": 'line' must be an integer, got "@ + spec_type_name(other)),
            },
        },
    }
}

/// One node entry.
pub open spec fn spec_node(j: Json, at: Seq<char>) -> Result<NodeView, Seq<char>> {
    match spec_take_string(j, "id"@, at) {
        Err(e) => Err(e),
        Ok(id) => match spec_take_string(j, "kind"@, at) {
            Err(e) => Err(e),
            Ok(kind) => match spec_take(j, "attrs"@, at) {
                Err(e) => Err(e),
                Ok(Json::Object(attrs)) => match spec_take_provenance(j, at) {
                    Err(e) => Err(e),
                    Ok(p) => Ok(NodeView { id, kind, attrs, provenance: p }),
                },
                Ok(other) => Err(at + ": 'attrs' must be an object, got "@ + spec_type_name(other)),
            },
        },
    }
}

/// One edge entry. Its attrs are optional.
pub open spec fn spec_edge(j: Json, at: Seq<char>) -> Result<EdgeView, Seq<char>> {
    match j {
        Json::Object(ms) => {
            let attrs: Result<Seq<(Seq<char>, Json)>, Seq<char>> = match lookup(ms, "attrs"@) {
                None => Ok(Seq::empty()),
                Some(Json::Object(a)) => Ok(a),
                Some(other) => Err(at + ": 'attrs' must be an object, got "@ + spec_type_name(other)),
            };
            match attrs {
                Err(e) => Err(e),
                Ok(a) => match spec_take_string(j, "src"@, at) {
                    Err(e) => Err(e),
                    Ok(src) => match spec_take_string(j, "tgt"@, at) {
                        Err(e) => Err(e),
                        Ok(tgt) => match spec_take_string(j, "kind"@, at) {
                            Err(e) => Err(e),
                            Ok(kind) => match spec_take_provenance(j, at) {
                                Err(e) => Err(e),
                                Ok(p) => Ok(EdgeView { src, tgt, kind, attrs: a, provenance: p }),
                            },
                        },
                    },
                },
            }
        },
        other => Err(at + ": expected an object, got "@ + spec_type_name(other)),
    }
}

/// Whether every item is a string.
pub open spec fn all_strings(items: Seq<Json>) -> bool {
    forall|i: int| 0 <= i < items.len() ==> (#[trigger] items[i]) is Str
}

pub open spec fn strings_of(items: Seq<Json>) -> Seq<Seq<char>> {
    items.map_values(|j: Json| j->Str_0)
}

/// One pathway entry, checked as the graph checks it.
pub open spec fn spec_pathway(j: Json, at: Seq<char>) -> Result<PathwayView, Seq<char>> {
    match spec_take_string(j, "name"@, at) {
        Err(e) => Err(e),
        Ok(name) => match spec_take(j, "order"@, at) {
            Err(e) => Err(e),
            Ok(raw) => if !(raw matches Json::Array(items) && all_strings(items)) {
                Err(at + " '"@ + name + "': 'order' must be a list of strings"@)
            } else {
                match spec_take_string(j, "current"@, at) {
                    Err(e) => Err(e),
                    Ok(current) => {
                        let p = PathwayView { name, order: strings_of(raw->Array_0), current };
                        if pathway_valid(p) {
                            Ok(p)
                        } else {
                            Err(at + ": "@ + pathway_error_text(p))
                        }
                    },
                }
            },
        },
    }
}

/// One finding entry.
pub open spec fn spec_finding(j: Json, at: Seq<char>) -> Result<IssueView, Seq<char>> {
    match spec_take_string(j, "severity"@, at) {
        Err(e) => Err(e),
        Ok(raw) => match severity_of_text(raw) {
            None => Err(at + ": unknown severity '"@ + raw + "'"@),
            Some(sev) => match spec_take_optional(j, "node_id"@, at) {
                Err(e) => Err(e),
                Ok(node_id) => match spec_take_optional(j, "state"@, at) {
                    Err(e) => Err(e),
                    Ok(state) => match spec_take_string(j, "code"@, at) {
                        Err(e) => Err(e),
                        Ok(code) => match spec_take_string(j, "message"@, at) {
                            Err(e) => Err(e),
                            Ok(message) => match spec_take_provenance(j, at) {
                                Err(e) => Err(e),
                                Ok(p) => Ok(IssueView { state, ..new_issue(sev, code, message, p, node_id) }),
                            },
                        },
                    },
                },
            },
        },
    }
}

// ---------------------------------------------------------------- lists

pub open spec fn node_at(i: int) -> Seq<char> {
    "node "@ + nat_text(i as nat)
}

pub open spec fn edge_at(i: int) -> Seq<char> {
    "edge "@ + nat_text(i as nat)
}

pub open spec fn pathway_at(i: int) -> Seq<char> {
    "pathway "@ + nat_text(i as nat)
}

pub open spec fn finding_at(i: int) -> Seq<char> {
    "finding "@ + nat_text(i as nat)
}

/// The first `k` node entries, or the first refusal among them.
pub open spec fn spec_nodes(items: Seq<Json>, k: nat) -> Result<Seq<NodeView>, Seq<char>>
    decreases k,
{
    if k == 0 || k > items.len() {
        Ok(Seq::empty())
    } else {
        match spec_nodes(items, (k - 1) as nat) {
            Err(e) => Err(e),
            Ok(prev) => match spec_node(items[k - 1], node_at(k - 1)) {
                Err(e) => Err(e),
                Ok(n) => Ok(prev.push(n)),
            },
        }
    }
}

pub open spec fn spec_edges(items: Seq<Json>, k: nat) -> Result<Seq<EdgeView>, Seq<char>>
    decreases k,
{
    if k == 0 || k > items.len() {
        Ok(Seq::empty())
    } else {
        match spec_edges(items, (k - 1) as nat) {
            Err(e) => Err(e),
            Ok(prev) => match spec_edge(items[k - 1], edge_at(k - 1)) {
                Err(e) => Err(e),
                Ok(x) => Ok(prev.push(x)),
            },
        }
    }
}

pub open spec fn spec_pathways(items: Seq<Json>, k: nat) -> Result<Seq<PathwayView>, Seq<char>>
    decreases k,
{
    if k == 0 || k > items.len() {
        Ok(Seq::empty())
    } else {
        match spec_pathways(items, (k - 1) as nat) {
            Err(e) => Err(e),
            Ok(prev) => match spec_pathway(items[k - 1], pathway_at(k - 1)) {
                Err(e) => Err(e),
                Ok(x) => Ok(prev.push(x)),
            },
        }
    }
}

pub open spec fn spec_findings(items: Seq<Json>, k: nat) -> Result<Seq<IssueView>, Seq<char>>
    decreases k,
{
    if k == 0 || k > items.len() {
        Ok(Seq::empty())
    } else {
        match spec_findings(items, (k - 1) as nat) {
            Err(e) => Err(e),
            Ok(prev) => match spec_finding(items[k - 1], finding_at(k - 1)) {
                Err(e) => Err(e),
                Ok(x) => Ok(prev.push(x)),
            },
        }
    }
}

/// The nodes the first `k` entries leave: the first of each ID.
pub open spec fn first_nodes(ns: Seq<NodeView>, k: nat) -> Seq<NodeView>
    decreases k,
{
    if k == 0 || k > ns.len() {
        Seq::empty()
    } else {
        let prev = first_nodes(ns, (k - 1) as nat);
        if declares(prev, ns[k - 1].id) {
            prev
        } else {
            prev.push(ns[k - 1])
        }
    }
}

/// The finding about a repeated ID.
pub open spec fn duplicate_issue(n: NodeView, first: ProvenanceView) -> IssueView {
    new_issue(
        Severity::Error,
        "PARSE_ERROR"@,
        "duplicate node '"@ + n.id + "': first at "@ + provenance_text(first),
        n.provenance,
        Some(n.id),
    )
}

/// The findings about repeated IDs among the first `k` entries.
pub open spec fn duplicates(ns: Seq<NodeView>, k: nat) -> Seq<IssueView>
    decreases k,
{
    if k == 0 || k > ns.len() {
        Seq::empty()
    } else {
        let prev = first_nodes(ns, (k - 1) as nat);
        let before = duplicates(ns, (k - 1) as nat);
        match node_lookup(prev, ns[k - 1].id) {
            Some(first) => before.push(duplicate_issue(ns[k - 1], first.provenance)),
            None => before,
        }
    }
}

/// The last pathway of a name among the first `k`.
pub open spec fn last_named(ps: Seq<PathwayView>, name: Seq<char>, k: nat) -> Option<PathwayView>
    decreases k,
{
    if k == 0 || k > ps.len() {
        None
    } else if ps[k - 1].name == name {
        Some(ps[k - 1])
    } else {
        last_named(ps, name, (k - 1) as nat)
    }
}

// ---------------------------------------------------------------- documents

/// A document-level string member.
pub open spec fn doc_string(ms: Seq<(Seq<char>, Json)>, key: Seq<char>) -> Result<Seq<char>, Seq<char>> {
    match lookup(ms, key) {
        None => Err("document: missing '"@ + key + "'"@),
        Some(Json::Str(s)) => Ok(s),
        Some(other) => Err("document: '"@ + key + "' must be a string, got "@ + spec_type_name(other)),
    }
}

/// The interface versions this core can ingest.
pub open spec fn supported(v: Seq<char>) -> bool {
    v == "1.0"@ || v == "1.1"@ || v == "1.2"@
}

/// Why a document's version is refused: `interface_version` where it is
/// present, the older `contract_version` where only that is.
pub open spec fn version_refusal(ms: Seq<(Seq<char>, Json)>) -> Option<Seq<char>> {
    let v = if lookup(ms, "interface_version"@) is Some {
        doc_string(ms, "interface_version"@)
    } else if lookup(ms, "contract_version"@) is Some {
        doc_string(ms, "contract_version"@)
    } else {
        doc_string(ms, "interface_version"@)
    };
    match v {
        Err(e) => Some(e),
        Ok(s) => if supported(s) {
            None
        } else {
            Some("unsupported interface version '"@ + s + "'; this lattice supports 1.0, 1.1, 1.2"@)
        },
    }
}

/// A document's list: absent is empty, anything but a list is refused.
pub open spec fn doc_entries(ms: Seq<(Seq<char>, Json)>, key: Seq<char>) -> Result<Seq<Json>, Seq<char>> {
    match lookup(ms, key) {
        None => Ok(Seq::empty()),
        Some(Json::Array(items)) => Ok(items),
        Some(other) => Err("document: '"@ + key + "' must be a list, got "@ + spec_type_name(other)),
    }
}

/// What a document holds, entry by entry, in document order.
pub struct Ingested {
    pub findings: Seq<IssueView>,
    pub pathways: Seq<PathwayView>,
    pub nodes: Seq<NodeView>,
    pub edges: Seq<EdgeView>,
}

/// A document read in the core's order: findings, pathways, nodes, edges; the
/// first refusal wins.
pub open spec fn spec_ingest(d: Json) -> Result<Ingested, Seq<char>> {
    match d {
        Json::Object(ms) => match version_refusal(ms) {
            Some(e) => Err(e),
            None => {
                let fkey = if lookup(ms, "findings"@) is Some {
                    "findings"@
                } else {
                    "issues"@
                };
                match doc_entries(ms, fkey) {
                    Err(e) => Err(e),
                    Ok(fi) => match spec_findings(fi, fi.len()) {
                        Err(e) => Err(e),
                        Ok(findings) => match doc_entries(ms, "pathways"@) {
                            Err(e) => Err(e),
                            Ok(pi) => match spec_pathways(pi, pi.len()) {
                                Err(e) => Err(e),
                                Ok(pathways) => match doc_entries(ms, "nodes"@) {
                                    Err(e) => Err(e),
                                    Ok(ni) => match spec_nodes(ni, ni.len()) {
                                        Err(e) => Err(e),
                                        Ok(nodes) => match doc_entries(ms, "edges"@) {
                                            Err(e) => Err(e),
                                            Ok(ei) => match spec_edges(ei, ei.len()) {
                                                Err(e) => Err(e),
                                                Ok(edges) => Ok(Ingested { findings, pathways, nodes, edges }),
                                            },
                                        },
                                    },
                                },
                            },
                        },
                    },
                }
            },
        },
        other => Err("document: expected an object, got "@ + spec_type_name(other)),
    }
}

/// The graph a document gives: its findings, then one for each repeated node
/// ID; the first node of each ID; every edge; the last pathway of each name.
pub open spec fn graph_holds(g: LatticeGraph, v: Ingested) -> bool {
    &&& g.wf()
    &&& g.spec_issues() == v.findings + duplicates(v.nodes, v.nodes.len())
    &&& g.spec_nodes() == first_nodes(v.nodes, v.nodes.len())
    &&& g.spec_edges() == v.edges
    &&& forall|name: Seq<char>| #[trigger] pathway_lookup(g.spec_pathways(), name) == last_named(v.pathways, name, v.pathways.len())
}

// ---------------------------------------------------------------- reading

fn take<'a>(j: &'a JsonValue, key: &str, at: &str) -> (r: Result<&'a JsonValue, ContractError>)
    ensures
        match spec_take(j.deep(), key@, at@) {
            Ok(v) => r matches Ok(x) && x.deep() == v,
            Err(m) => r matches Err(e) && e.0@ == m,
        },
{
    match j {
        JsonValue::Object(ms) => match crate::json::get(ms, key) {
            Some(v) => Ok(v),
            None => Err(ContractError(msg4(at, ": missing '", key, "'"))),
        },
        other => Err(ContractError(msg3(at, ": expected an object, got ", json_type_name(other)))),
    }
}

fn take_string(j: &JsonValue, key: &str, at: &str) -> (r: Result<String, ContractError>)
    ensures
        match spec_take_string(j.deep(), key@, at@) {
            Ok(v) => r matches Ok(x) && x@ == v,
            Err(m) => r matches Err(e) && e.0@ == m,
        },
{
    match take(j, key, at) {
        Err(e) => Err(e),
        Ok(JsonValue::Str(s)) => Ok(s.clone()),
        Ok(other) => Err(ContractError(msg5(at, ": '", key, "' must be a string, got ", json_type_name(other)))),
    }
}

fn take_optional(j: &JsonValue, key: &str, at: &str) -> (r: Result<Option<String>, ContractError>)
    ensures
        match spec_take_optional(j.deep(), key@, at@) {
            Ok(v) => r matches Ok(x) && crate::types::opt_view(x) == v,
            Err(m) => r matches Err(e) && e.0@ == m,
        },
{
    match j {
        JsonValue::Object(ms) => match crate::json::get(ms, key) {
            None => Ok(None),
            Some(JsonValue::Null) => Ok(None),
            Some(JsonValue::Str(s)) => Ok(Some(s.clone())),
            Some(_) => Err(ContractError(msg4(at, ": '", key, "' must be a string or null"))),
        },
        other => Err(ContractError(msg3(at, ": expected an object, got ", json_type_name(other)))),
    }
}

fn take_provenance(j: &JsonValue, at: &str) -> (r: Result<Provenance, ContractError>)
    ensures
        match spec_take_provenance(j.deep(), at@) {
            Ok(v) => r matches Ok(x) && x@ == v,
            Err(m) => r matches Err(e) && e.0@ == m,
        },
{
    let raw = match take(j, "provenance", at) {
        Ok(v) => v,
        Err(e) => return Err(e),
    };
    let pat = msg2(at, " provenance");
    let file = match take_string(raw, "file", pat.as_str()) {
        Ok(f) => f,
        Err(e) => return Err(e),
    };
    match take(raw, "line", pat.as_str()) {
        Err(e) => Err(e),
        Ok(JsonValue::Int(n)) => {
            if i64::MIN as i128 <= *n && *n <= i64::MAX as i128 {
                Ok(Provenance::new(file.as_str(), *n as i64))
            } else {
                Err(ContractError(msg3(pat.as_str(), ": 'line' must be an integer, got ", "int")))
            }
        },
        Ok(other) => Err(ContractError(msg3(pat.as_str(), ": 'line' must be an integer, got ", json_type_name(other)))),
    }
}

fn at_text(what: &str, i: usize) -> (s: String)
    ensures
        s@ == what@ + nat_text(i as nat),
{
    let n = usize_text(i);
    msg2(what, n.as_str())
}

fn read_node(j: &JsonValue, at: &str) -> (r: Result<(String, String, Vec<(String, JsonValue)>, Provenance), ContractError>)
    ensures
        match spec_node(j.deep(), at@) {
            Ok(n) => r matches Ok(t) && n == (NodeView { id: t.0@, kind: t.1@, attrs: members_view(t.2@), provenance: t.3@ }),
            Err(m) => r matches Err(e) && e.0@ == m,
        },
{
    let id = match take_string(j, "id", at) {
        Ok(v) => v,
        Err(e) => return Err(e),
    };
    let kind = match take_string(j, "kind", at) {
        Ok(v) => v,
        Err(e) => return Err(e),
    };
    let attrs = match take(j, "attrs", at) {
        Err(e) => return Err(e),
        Ok(JsonValue::Object(ms)) => crate::json::copy_members(ms),
        Ok(other) => return Err(ContractError(msg3(at, ": 'attrs' must be an object, got ", json_type_name(other)))),
    };
    let prov = match take_provenance(j, at) {
        Ok(p) => p,
        Err(e) => return Err(e),
    };
    Ok((id, kind, attrs, prov))
}

fn read_edge(j: &JsonValue, at: &str) -> (r: Result<(EdgeSpec, Provenance), ContractError>)
    ensures
        match spec_edge(j.deep(), at@) {
            Ok(x) => r matches Ok(t) && x == (EdgeView {
                src: t.0.src@,
                tgt: t.0.tgt@,
                kind: t.0.kind@,
                attrs: members_view(t.0.attrs@),
                provenance: t.1@,
            }),
            Err(m) => r matches Err(e) && e.0@ == m,
        },
{
    let attrs = match j {
        JsonValue::Object(ms) => match crate::json::get(ms, "attrs") {
            None => {
                let empty: Vec<(String, JsonValue)> = Vec::new();
                proof {
                    crate::json::lemma_members(empty@, 0);
                    assert(members_view(empty@) =~= Seq::<(Seq<char>, Json)>::empty());
                }
                empty
            },
            Some(JsonValue::Object(a)) => crate::json::copy_members(a),
            Some(other) => return Err(ContractError(msg3(at, ": 'attrs' must be an object, got ", json_type_name(other)))),
        },
        other => return Err(ContractError(msg3(at, ": expected an object, got ", json_type_name(other)))),
    };
    let src = match take_string(j, "src", at) {
        Ok(v) => v,
        Err(e) => return Err(e),
    };
    let tgt = match take_string(j, "tgt", at) {
        Ok(v) => v,
        Err(e) => return Err(e),
    };
    let kind = match take_string(j, "kind", at) {
        Ok(v) => v,
        Err(e) => return Err(e),
    };
    let prov = match take_provenance(j, at) {
        Ok(p) => p,
        Err(e) => return Err(e),
    };
    Ok((EdgeSpec { src, tgt, kind, attrs }, prov))
}

#[verifier::loop_isolation(false)]
fn read_pathway(j: &JsonValue, at: &str) -> (r: Result<(String, Vec<String>, String), ContractError>)
    ensures
        match spec_take_string(j.deep(), "name"@, at@) {
            Err(m) => r matches Err(e) && e.0@ == m,
            Ok(name) => match spec_take(j.deep(), "order"@, at@) {
                Err(m) => r matches Err(e) && e.0@ == m,
                Ok(raw) => if !(raw matches Json::Array(items) && all_strings(items)) {
                    r matches Err(e) && e.0@ == at@ + " '"@ + name + "': 'order' must be a list of strings"@
                } else {
                    match spec_take_string(j.deep(), "current"@, at@) {
                        Err(m) => r matches Err(e) && e.0@ == m,
                        Ok(current) => r matches Ok(t) && t.0@ == name && texts(t.1@) == strings_of(raw->Array_0)
                            && t.2@ == current,
                    }
                },
            },
        },
{
    let name = match take_string(j, "name", at) {
        Ok(v) => v,
        Err(e) => return Err(e),
    };
    let raw = match take(j, "order", at) {
        Ok(v) => v,
        Err(e) => return Err(e),
    };
    let items = match raw {
        JsonValue::Array(items) => items,
        _ => return Err(ContractError(msg4(at, " '", name.as_str(), "': 'order' must be a list of strings"))),
    };
    proof {
        crate::json::lemma_items(items@, items@.len());
    }
    let ghost iv = crate::json::deep_items(items@, items@.len());
    let mut order: Vec<String> = Vec::new();
    let mut i: usize = 0;
    while i < items.len()
        invariant
            i <= items.len(),
            iv == crate::json::deep_items(items@, items@.len()),
            iv.len() == items.len(),
            forall|k: int| 0 <= k < items.len() ==> #[trigger] iv[k] == items@[k].deep(),
            forall|k: int| 0 <= k < i ==> (#[trigger] iv[k]) is Str,
            texts(order@) == strings_of(iv.take(i as int)),
        decreases items.len() - i,
    {
        match &items[i] {
            JsonValue::Str(t) => {
                let ghost before = texts(order@);
                order.push(t.clone());
                proof {
                    assert(iv.take(i + 1) =~= iv.take(i as int).push(iv[i as int]));
                    assert(texts(order@) =~= before.push(t@));
                    assert(strings_of(iv.take(i + 1)) =~= strings_of(iv.take(i as int)).push(t@));
                }
            },
            _ => {
                assert(!(iv[i as int] is Str));
                return Err(ContractError(msg4(at, " '", name.as_str(), "': 'order' must be a list of strings")));
            },
        }
        i += 1;
    }
    assert(iv.take(i as int) =~= iv);
    let current = match take_string(j, "current", at) {
        Ok(v) => v,
        Err(e) => return Err(e),
    };
    Ok((name, order, current))
}

fn read_finding(j: &JsonValue, at: &str) -> (r: Result<Issue, ContractError>)
    ensures
        match spec_finding(j.deep(), at@) {
            Ok(x) => r matches Ok(t) && t@ == x,
            Err(m) => r matches Err(e) && e.0@ == m,
        },
{
    let raw = match take_string(j, "severity", at) {
        Ok(v) => v,
        Err(e) => return Err(e),
    };
    let severity = match Severity::parse(raw.as_str()) {
        Some(s) => s,
        None => return Err(ContractError(msg4(at, ": unknown severity '", raw.as_str(), "'"))),
    };
    let node_id = match take_optional(j, "node_id", at) {
        Ok(v) => v,
        Err(e) => return Err(e),
    };
    let state = match take_optional(j, "state", at) {
        Ok(v) => v,
        Err(e) => return Err(e),
    };
    let code = match take_string(j, "code", at) {
        Ok(v) => v,
        Err(e) => return Err(e),
    };
    let message = match take_string(j, "message", at) {
        Ok(v) => v,
        Err(e) => return Err(e),
    };
    let prov = match take_provenance(j, at) {
        Ok(p) => p,
        Err(e) => return Err(e),
    };
    let mut issue = Issue::new(severity, code.as_str(), message, prov, node_id);
    issue.state = state;
    Ok(issue)
}

// ---------------------------------------------------------------- lemmas

proof fn lemma_findings_stop(items: Seq<Json>, k: nat, m: nat)
    requires
        k <= m <= items.len(),
        spec_findings(items, k) is Err,
    ensures
        spec_findings(items, m) == spec_findings(items, k),
    decreases m - k,
{
    if m > k {
        lemma_findings_stop(items, k, (m - 1) as nat);
    }
}

proof fn lemma_pathways_stop(items: Seq<Json>, k: nat, m: nat)
    requires
        k <= m <= items.len(),
        spec_pathways(items, k) is Err,
    ensures
        spec_pathways(items, m) == spec_pathways(items, k),
    decreases m - k,
{
    if m > k {
        lemma_pathways_stop(items, k, (m - 1) as nat);
    }
}

proof fn lemma_nodes_stop(items: Seq<Json>, k: nat, m: nat)
    requires
        k <= m <= items.len(),
        spec_nodes(items, k) is Err,
    ensures
        spec_nodes(items, m) == spec_nodes(items, k),
    decreases m - k,
{
    if m > k {
        lemma_nodes_stop(items, k, (m - 1) as nat);
    }
}

proof fn lemma_edges_stop(items: Seq<Json>, k: nat, m: nat)
    requires
        k <= m <= items.len(),
        spec_edges(items, k) is Err,
    ensures
        spec_edges(items, m) == spec_edges(items, k),
    decreases m - k,
{
    if m > k {
        lemma_edges_stop(items, k, (m - 1) as nat);
    }
}

proof fn lemma_last_named_push(ps: Seq<PathwayView>, x: PathwayView, name: Seq<char>, k: nat)
    requires
        k <= ps.len(),
    ensures
        last_named(ps.push(x), name, k) == last_named(ps, name, k),
    decreases k,
{
    if k > 0 {
        assert(ps.push(x)[k - 1] == ps[k - 1]);
        lemma_last_named_push(ps, x, name, (k - 1) as nat);
    }
}

proof fn lemma_first_nodes_push(ns: Seq<NodeView>, x: NodeView, k: nat)
    requires
        k <= ns.len(),
    ensures
        first_nodes(ns.push(x), k) == first_nodes(ns, k),
        duplicates(ns.push(x), k) == duplicates(ns, k),
    decreases k,
{
    if k > 0 {
        assert(ns.push(x)[k - 1] == ns[k - 1]);
        lemma_first_nodes_push(ns, x, (k - 1) as nat);
    }
}

proof fn lemma_declares_lookup(s: Seq<NodeView>, id: Seq<char>)
    ensures
        declares(s, id) <==> node_lookup(s, id) is Some,
{
    crate::seqs::lemma_first_index(s, crate::graph::has_id(id));
    if declares(s, id) {
        let i = choose|i: int| 0 <= i < s.len() && s[i].id == id;
        assert(crate::graph::has_id(id)(s[i]));
    }
}

// ---------------------------------------------------------------- documents

/// A document-level string member.
fn document_string<'a>(ms: &'a Vec<(String, JsonValue)>, key: &str) -> (r: Result<&'a String, ContractError>)
    ensures
        match doc_string(members_view(ms@), key@) {
            Ok(v) => r matches Ok(x) && x@ == v,
            Err(m) => r matches Err(e) && e.0@ == m,
        },
{
    match crate::json::get(ms, key) {
        None => Err(ContractError(msg3("document: missing '", key, "'"))),
        Some(JsonValue::Str(s)) => Ok(s),
        Some(other) => Err(ContractError(msg4("document: '", key, "' must be a string, got ", json_type_name(other)))),
    }
}

fn check_version(ms: &Vec<(String, JsonValue)>) -> (r: Option<ContractError>)
    ensures
        match version_refusal(members_view(ms@)) {
            None => r is None,
            Some(m) => r matches Some(e) && e.0@ == m,
        },
{
    let key = if crate::json::get(ms, "interface_version").is_some() {
        "interface_version"
    } else if crate::json::get(ms, "contract_version").is_some() {
        "contract_version"
    } else {
        "interface_version"
    };
    let v = match document_string(ms, key) {
        Ok(v) => v,
        Err(e) => return Some(e),
    };
    proof {
        reveal_strlit("1.0");
        reveal_strlit("1.1");
        reveal_strlit("1.2");
    }
    if str_eq(v.as_str(), "1.0") || str_eq(v.as_str(), "1.1") || str_eq(v.as_str(), "1.2") {
        None
    } else {
        Some(ContractError(msg3("unsupported interface version '", v.as_str(), "'; this lattice supports 1.0, 1.1, 1.2")))
    }
}

/// A document's list; `None` where the key is absent.
fn document_list<'a>(ms: &'a Vec<(String, JsonValue)>, key: &str) -> (r: Result<Option<&'a Vec<JsonValue>>, ContractError>)
    ensures
        match doc_entries(members_view(ms@), key@) {
            Ok(items) => r matches Ok(o) && match o {
                None => items.len() == 0,
                Some(v) => crate::json::deep_items(v@, v@.len()) == items,
            },
            Err(m) => r matches Err(e) && e.0@ == m,
        },
{
    match crate::json::get(ms, key) {
        None => Ok(None),
        Some(JsonValue::Array(items)) => Ok(Some(items)),
        Some(other) => Err(ContractError(msg4("document: '", key, "' must be a list, got ", json_type_name(other)))),
    }
}

/// The entries of a document list, with their values.
fn list_or_empty<'a>(o: Option<&'a Vec<JsonValue>>, empty: &'a Vec<JsonValue>) -> (r: &'a Vec<JsonValue>)
    requires
        empty@.len() == 0,
    ensures
        match o {
            None => r@.len() == 0,
            Some(v) => r == v,
        },
        crate::json::deep_items(r@, r@.len()).len() == r@.len(),
        forall|k: int| 0 <= k < r@.len() ==> #[trigger] crate::json::deep_items(r@, r@.len())[k] == r@[k].deep(),
{
    let r = match o {
        None => empty,
        Some(v) => v,
    };
    proof {
        crate::json::lemma_items(r@, r@.len());
    }
    r
}

/// Add the findings of a document list.
fn ingest_findings(graph: &mut LatticeGraph, items: &Vec<JsonValue>) -> (r: Result<(), ContractError>)
    requires
        old(graph).wf(),
    ensures
        match spec_findings(crate::json::deep_items(items@, items@.len()), items@.len()) {
            Ok(fs) => r is Ok && final(graph).wf() && final(graph).spec_issues() == old(graph).spec_issues() + fs
                && final(graph).spec_nodes() == old(graph).spec_nodes() && final(graph).spec_edges() == old(
                graph,
            ).spec_edges() && final(graph).spec_pathways() == old(graph).spec_pathways(),
            Err(m) => r matches Err(e) && e.0@ == m,
        },
{
    proof {
        crate::json::lemma_items(items@, items@.len());
    }
    let ghost iv = crate::json::deep_items(items@, items@.len());
    let ghost start = graph.spec_issues();
    let mut i: usize = 0;
    while i < items.len()
        invariant
            i <= items.len(),
            iv == crate::json::deep_items(items@, items@.len()),
            iv.len() == items.len(),
            forall|k: int| 0 <= k < items@.len() ==> #[trigger] iv[k] == items@[k].deep(),
            graph.wf(),
            graph.spec_nodes() == old(graph).spec_nodes(),
            graph.spec_edges() == old(graph).spec_edges(),
            graph.spec_pathways() == old(graph).spec_pathways(),
            start == old(graph).spec_issues(),
            spec_findings(iv, i as nat) matches Ok(fs) && graph.spec_issues() == start + fs,
        decreases items.len() - i,
    {
        let at = at_text("finding ", i);
        let ghost before = graph.spec_issues();
        match read_finding(&items[i], at.as_str()) {
            Ok(issue) => {
                let ghost v = issue@;
                graph.add_issue(issue);
                proof {
                    let fs = spec_findings(iv, i as nat)->Ok_0;
                    assert(graph.spec_issues() =~= start + fs.push(v));
                }
            },
            Err(e) => {
                proof {
                    lemma_findings_stop(iv, (i + 1) as nat, iv.len());
                }
                return Err(e);
            },
        }
        i += 1;
    }
    Ok(())
}

/// Attach the pathways of a document list to a graph that has none.
fn ingest_pathways(graph: &mut LatticeGraph, items: &Vec<JsonValue>) -> (r: Result<(), ContractError>)
    requires
        old(graph).wf(),
        old(graph).spec_pathways().len() == 0,
    ensures
        match spec_pathways(crate::json::deep_items(items@, items@.len()), items@.len()) {
            Ok(ps) => r is Ok && final(graph).wf() && final(graph).spec_issues() == old(graph).spec_issues()
                && final(graph).spec_nodes() == old(graph).spec_nodes() && final(graph).spec_edges() == old(
                graph,
            ).spec_edges() && forall|name: Seq<char>| #[trigger]
                pathway_lookup(final(graph).spec_pathways(), name) == last_named(ps, name, ps.len()),
            Err(m) => r matches Err(e) && e.0@ == m,
        },
{
    proof {
        crate::json::lemma_items(items@, items@.len());
    }
    let ghost iv = crate::json::deep_items(items@, items@.len());
    let ghost mut ps: Seq<PathwayView> = Seq::empty();
    proof {
        assert forall|name: Seq<char>| #[trigger] pathway_lookup(graph.spec_pathways(), name) == last_named(ps, name, ps.len()) by {
            crate::seqs::lemma_first_index(graph.spec_pathways(), crate::graph::has_name(name));
        }
    }
    let mut j: usize = 0;
    while j < items.len()
        invariant
            j <= items.len(),
            iv == crate::json::deep_items(items@, items@.len()),
            iv.len() == items.len(),
            forall|k: int| 0 <= k < items@.len() ==> #[trigger] iv[k] == items@[k].deep(),
            graph.wf(),
            graph.spec_nodes() == old(graph).spec_nodes(),
            graph.spec_edges() == old(graph).spec_edges(),
            graph.spec_issues() == old(graph).spec_issues(),
            spec_pathways(iv, j as nat) == Ok::<Seq<PathwayView>, Seq<char>>(ps),
            forall|name: Seq<char>| #[trigger] pathway_lookup(graph.spec_pathways(), name) == last_named(ps, name, ps.len()),
        decreases items.len() - j,
    {
        let at = at_text("pathway ", j);
        match read_pathway(&items[j], at.as_str()) {
            Ok((name, order, current)) => {
                let ghost pv = PathwayView { name: name@, order: texts(order@), current: current@ };
                match graph.set_pathway(name, order, current) {
                    Ok(()) => {
                        proof {
                            assert(spec_pathway(iv[j as int], pathway_at(j as int)) == Ok::<PathwayView, Seq<char>>(pv));
                            assert forall|n: Seq<char>| #[trigger] pathway_lookup(graph.spec_pathways(), n) == last_named(
                                ps.push(pv),
                                n,
                                ps.len() + 1,
                            ) by {
                                lemma_last_named_push(ps, pv, n, ps.len());
                            }
                            ps = ps.push(pv);
                        }
                    },
                    Err(e) => {
                        proof {
                            assert(spec_pathway(iv[j as int], pathway_at(j as int)) is Err);
                            lemma_pathways_stop(iv, (j + 1) as nat, iv.len());
                        }
                        return Err(ContractError(msg3(at.as_str(), ": ", e.0.as_str())));
                    },
                }
            },
            Err(e) => {
                proof {
                    lemma_pathways_stop(iv, (j + 1) as nat, iv.len());
                }
                return Err(e);
            },
        }
        j += 1;
    }
    Ok(())
}

/// Add the nodes of a document list to a graph that has none.
fn ingest_nodes(graph: &mut LatticeGraph, items: &Vec<JsonValue>) -> (r: Result<(), ContractError>)
    requires
        old(graph).wf(),
        old(graph).spec_nodes().len() == 0,
    ensures
        match spec_nodes(crate::json::deep_items(items@, items@.len()), items@.len()) {
            Ok(ns) => r is Ok && final(graph).wf() && final(graph).spec_issues() == old(graph).spec_issues() + duplicates(
                ns,
                ns.len(),
            ) && final(graph).spec_nodes() == first_nodes(ns, ns.len()) && final(graph).spec_edges() == old(
                graph,
            ).spec_edges() && final(graph).spec_pathways() == old(graph).spec_pathways(),
            Err(m) => r matches Err(e) && e.0@ == m,
        },
{
    proof {
        crate::json::lemma_items(items@, items@.len());
    }
    let ghost iv = crate::json::deep_items(items@, items@.len());
    let ghost start = graph.spec_issues();
    let ghost mut ns: Seq<NodeView> = Seq::empty();
    assert(graph.spec_nodes() =~= first_nodes(ns, 0));
    assert(graph.spec_issues() =~= start + duplicates(ns, 0));
    let mut k: usize = 0;
    while k < items.len()
        invariant
            k <= items.len(),
            iv == crate::json::deep_items(items@, items@.len()),
            iv.len() == items.len(),
            forall|z: int| 0 <= z < items@.len() ==> #[trigger] iv[z] == items@[z].deep(),
            graph.wf(),
            graph.spec_edges() == old(graph).spec_edges(),
            graph.spec_pathways() == old(graph).spec_pathways(),
            start == old(graph).spec_issues(),
            spec_nodes(iv, k as nat) == Ok::<Seq<NodeView>, Seq<char>>(ns),
            graph.spec_nodes() == first_nodes(ns, ns.len()),
            graph.spec_issues() == start + duplicates(ns, ns.len()),
        decreases items.len() - k,
    {
        let at = at_text("node ", k);
        match read_node(&items[k], at.as_str()) {
            Ok((id, kind, attrs, prov)) => {
                let ghost nv = NodeView { id: id@, kind: kind@, attrs: members_view(attrs@), provenance: prov@ };
                let ghost before_nodes = graph.spec_nodes();
                let ghost before_issues = graph.spec_issues();
                proof {
                    lemma_first_nodes_push(ns, nv, ns.len());
                    lemma_declares_lookup(before_nodes, nv.id);
                }
                match graph.add_node(id, kind, attrs, prov) {
                    Ok(()) => {},
                    Err(d) => {
                        let first = d.existing_provenance.to_text();
                        let m = msg4("duplicate node '", d.node_id.as_str(), "': first at ", first.as_str());
                        let issue = Issue::new(Severity::Error, "PARSE_ERROR", m, d.new_provenance, Some(d.node_id));
                        graph.add_issue(issue);
                        proof {
                            assert(graph.spec_issues() =~= before_issues.push(
                                duplicate_issue(nv, node_lookup(before_nodes, nv.id)->0.provenance),
                            ));
                        }
                    },
                }
                proof {
                    ns = ns.push(nv);
                    assert(graph.spec_issues() =~= start + duplicates(ns, ns.len()));
                }
            },
            Err(e) => {
                proof {
                    lemma_nodes_stop(iv, (k + 1) as nat, iv.len());
                }
                return Err(e);
            },
        }
        k += 1;
    }
    Ok(())
}

/// Add the edges of a document list.
fn ingest_edges(graph: &mut LatticeGraph, items: &Vec<JsonValue>) -> (r: Result<(), ContractError>)
    requires
        old(graph).wf(),
    ensures
        match spec_edges(crate::json::deep_items(items@, items@.len()), items@.len()) {
            Ok(es) => r is Ok && final(graph).wf() && final(graph).spec_issues() == old(graph).spec_issues()
                && final(graph).spec_nodes() == old(graph).spec_nodes() && final(graph).spec_edges() == old(
                graph,
            ).spec_edges() + es && final(graph).spec_pathways() == old(graph).spec_pathways(),
            Err(m) => r matches Err(e) && e.0@ == m,
        },
{
    proof {
        crate::json::lemma_items(items@, items@.len());
    }
    let ghost iv = crate::json::deep_items(items@, items@.len());
    let ghost start = graph.spec_edges();
    let mut m: usize = 0;
    while m < items.len()
        invariant
            m <= items.len(),
            iv == crate::json::deep_items(items@, items@.len()),
            iv.len() == items.len(),
            forall|z: int| 0 <= z < items@.len() ==> #[trigger] iv[z] == items@[z].deep(),
            graph.wf(),
            graph.spec_pathways() == old(graph).spec_pathways(),
            graph.spec_nodes() == old(graph).spec_nodes(),
            graph.spec_issues() == old(graph).spec_issues(),
            start == old(graph).spec_edges(),
            spec_edges(iv, m as nat) matches Ok(es) && graph.spec_edges() == start + es,
        decreases items.len() - m,
    {
        let at = at_text("edge ", m);
        match read_edge(&items[m], at.as_str()) {
            Ok((spec, prov)) => {
                let ghost v = EdgeView {
                    src: spec.src@,
                    tgt: spec.tgt@,
                    kind: spec.kind@,
                    attrs: members_view(spec.attrs@),
                    provenance: prov@,
                };
                graph.add_edge(spec, prov);
                proof {
                    let es = spec_edges(iv, m as nat)->Ok_0;
                    assert(graph.spec_edges() =~= start + es.push(v));
                }
            },
            Err(e) => {
                proof {
                    lemma_edges_stop(iv, (m + 1) as nat, iv.len());
                }
                return Err(e);
            },
        }
        m += 1;
    }
    Ok(())
}

/// A document list, or an empty one where the key is absent.
fn list_of<'a>(ms: &'a Vec<(String, JsonValue)>, key: &str, empty: &'a Vec<JsonValue>) -> (r: Result<&'a Vec<JsonValue>, ContractError>)
    requires
        empty@.len() == 0,
    ensures
        match doc_entries(members_view(ms@), key@) {
            Ok(items) => r matches Ok(v) && crate::json::deep_items(v@, v@.len()) == items,
            Err(m) => r matches Err(e) && e.0@ == m,
        },
{
    match document_list(ms, key) {
        Ok(Some(v)) => Ok(v),
        Ok(None) => {
            proof {
                crate::json::lemma_items(empty@, 0);
                match doc_entries(members_view(ms@), key@) {
                    Ok(items) => {
                        assert(items =~= crate::json::deep_items(empty@, 0));
                    },
                    Err(_) => {},
                }
            }
            Ok(empty)
        },
        Err(e) => Err(e),
    }
}

/// Build a graph from an adapter's interface document: its findings first,
/// then its pathways, nodes and edges, each in document order. A repeated node
/// ID keeps its first declaration and becomes a finding; anything off the
/// schema refuses the whole document.
pub fn ingest_document(document: &JsonValue) -> (r: Result<LatticeGraph, ContractError>)
    ensures
        match spec_ingest(document.deep()) {
            Ok(v) => r matches Ok(g) && graph_holds(g, v),
            Err(m) => r matches Err(e) && e.0@ == m,
        },
{
    let ms = match document {
        JsonValue::Object(ms) => ms,
        other => return Err(ContractError(msg2("document: expected an object, got ", json_type_name(other)))),
    };
    assert(document.deep() == Json::Object(members_view(ms@)));
    if let Some(e) = check_version(ms) {
        return Err(e);
    }
    let fkey = if crate::json::get(ms, "findings").is_some() {
        "findings"
    } else {
        "issues"
    };
    let empty: Vec<JsonValue> = Vec::new();
    let mut graph = LatticeGraph::new();
    let fi = match list_of(ms, fkey, &empty) {
        Ok(v) => v,
        Err(e) => return Err(e),
    };
    proof {
        crate::json::lemma_items(fi@, fi@.len());
    }
    if let Err(e) = ingest_findings(&mut graph, fi) {
        return Err(e);
    }
    let pi = match list_of(ms, "pathways", &empty) {
        Ok(v) => v,
        Err(e) => return Err(e),
    };
    proof {
        crate::json::lemma_items(pi@, pi@.len());
    }
    if let Err(e) = ingest_pathways(&mut graph, pi) {
        return Err(e);
    }
    let ni = match list_of(ms, "nodes", &empty) {
        Ok(v) => v,
        Err(e) => return Err(e),
    };
    proof {
        crate::json::lemma_items(ni@, ni@.len());
    }
    if let Err(e) = ingest_nodes(&mut graph, ni) {
        return Err(e);
    }
    let ei = match list_of(ms, "edges", &empty) {
        Ok(v) => v,
        Err(e) => return Err(e),
    };
    proof {
        crate::json::lemma_items(ei@, ei@.len());
    }
    if let Err(e) = ingest_edges(&mut graph, ei) {
        return Err(e);
    }
    proof {
        assert(graph.spec_edges() =~= spec_ingest(document.deep())->Ok_0.edges);
    }
    Ok(graph)
}


/// What `serde_json::from_str` makes of a text read as a JSON value: the
/// value, or the parser's error message.
pub uninterp spec fn json_parse_result(text: Seq<char>) -> Result<Json, Seq<char>>;

/// serde_json's own value type, carried through without Verus reading it.
#[verifier::external_type_specification]
#[verifier::external_body]
pub struct SerdeJsonValue(Value);

/// A JSON value from serde_json's representation.
#[verifier::external_body]
fn from_serde_value(v: &Value) -> JsonValue {
    match v {
        Value::Null => JsonValue::Null,
        Value::Bool(b) => JsonValue::Bool(*b),
        Value::Number(n) => match (n.as_i64(), n.as_u64()) {
            (Some(i), _) => JsonValue::Int(i as i128),
            (None, Some(u)) => JsonValue::Int(u as i128),
            _ => JsonValue::Float(n.to_string()),
        },
        Value::String(t) => JsonValue::Str(t.clone()),
        Value::Array(items) => JsonValue::Array(items.iter().map(from_serde_value).collect()),
        Value::Object(m) => JsonValue::Object(m.iter().map(|(k, x)| (k.clone(), from_serde_value(x))).collect()),
    }
}

/// `serde_json::from_str` into a `serde_json::Value`: the contract claims
/// only that the outcome is the parser's own, a value or its error's display
/// text, named by `json_parse_result`.
#[verifier::external_body]
fn json_parse(text: &str) -> (r: Result<JsonValue, String>)
    ensures
        match r {
            Ok(v) => json_parse_result(text@) == Ok::<Json, Seq<char>>(v.deep()),
            Err(e) => json_parse_result(text@) == Err::<Json, Seq<char>>(e@),
        },
{
    match serde_json::from_str::<Value>(text) {
        Ok(v) => Ok(from_serde_value(&v)),
        Err(e) => Err(e.to_string()),
    }
}

/// Parse an adapter's output into a document: blank output is refused, any
/// other text is read as JSON.
pub fn parse_document(text: &str) -> (r: Result<JsonValue, ContractError>)
    ensures
        crate::text::trim(text@).len() == 0 ==> (r matches Err(e) && e.0@ == "adapter emitted no output"@),
        crate::text::trim(text@).len() > 0 ==> match json_parse_result(text@) {
            Ok(v) => r matches Ok(d) && d.deep() == v,
            Err(m) => r matches Err(e) && e.0@ == "could not parse adapter output as JSON: "@ + m,
        },
{
    let t = crate::text::trim_str(text);
    if t.unicode_len() == 0 {
        return Err(ContractError(crate::text::copy_str("adapter emitted no output")));
    }
    match json_parse(text) {
        Ok(v) => Ok(v),
        Err(m) => Err(ContractError(msg2("could not parse adapter output as JSON: ", m.as_str()))),
    }
}

} // verus!
