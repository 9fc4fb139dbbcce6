//! The trace report: every node with its outgoing edges and its findings.

use vstd::prelude::*;

use crate::assoc::{assoc, assoc_get, contains_text};
use crate::graph::{
    copy_strings, declares, edges_view, node_lookup, nodes_view, pathways_view, Edge, EdgeView, LatticeGraph, Node,
    NodeView, Pathway, PathwayView,
};
use crate::json::{copy_json, copy_members, json_put, members_view, object_put, Json, JsonValue};
use crate::profile::{NodeKind, Profile};
use crate::seqs::lemma_multiset_map;
use crate::sortkey::{
    items_of, key_lt, key_view, keyed_by, keyed_sorted, keyed_view, keys_in, lemma_keyed_by, sort_keyed, unkey, KeyPart,
    KeyView,
};
use crate::text::{copy_str, str_eq, texts};
use crate::types::{copy_opt, issues_view, Issue, IssueView, Provenance, ProvenanceView};

verus! {

/// One outgoing edge in a trace report, with its attrs and provenance.
pub struct TraceEdge {
    pub tgt: String,
    pub kind: String,
    pub attrs: Vec<(String, JsonValue)>,
    pub provenance: Provenance,
}

pub struct TraceEdgeView {
    pub tgt: Seq<char>,
    pub kind: Seq<char>,
    pub attrs: Seq<(Seq<char>, Json)>,
    pub provenance: ProvenanceView,
}

impl View for TraceEdge {
    type V = TraceEdgeView;

    open spec fn view(&self) -> TraceEdgeView {
        TraceEdgeView {
            tgt: self.tgt@,
            kind: self.kind@,
            attrs: members_view(self.attrs@),
            provenance: self.provenance@,
        }
    }
}

/// One node in a trace report, carrying its edges and attached findings.
pub struct TraceEntry {
    pub id: String,
    pub kind: String,
    pub attrs: Vec<(String, JsonValue)>,
    pub provenance: Provenance,
    /// The attr to show in the trace row's summary column.
    pub summary_attr: Option<String>,
    /// Outgoing edges, ordered by kind, target, and provenance.
    pub edges: Vec<TraceEdge>,
    pub findings: Vec<Issue>,
}

pub struct TraceEntryView {
    pub id: Seq<char>,
    pub kind: Seq<char>,
    pub attrs: Seq<(Seq<char>, Json)>,
    pub provenance: ProvenanceView,
    pub summary_attr: Option<Seq<char>>,
    pub edges: Seq<TraceEdgeView>,
    pub findings: Seq<IssueView>,
}

pub open spec fn trace_edges_view(s: Seq<TraceEdge>) -> Seq<TraceEdgeView> {
    s.map_values(|e: TraceEdge| e@)
}

impl View for TraceEntry {
    type V = TraceEntryView;

    open spec fn view(&self) -> TraceEntryView {
        TraceEntryView {
            id: self.id@,
            kind: self.kind@,
            attrs: members_view(self.attrs@),
            provenance: self.provenance@,
            summary_attr: crate::types::opt_view(self.summary_attr),
            edges: trace_edges_view(self.edges@),
            findings: issues_view(self.findings@),
        }
    }
}

impl TraceEntry {
    /// Repeated edges count once each: the trace keeps rather than merges them.
    pub fn edge_count(&self) -> (r: usize)
        ensures
            r == self.edges.len(),
    {
        self.edges.len()
    }
}

/// An ordering pathway carried through the trace payload.
pub struct PathwayEntry {
    pub name: String,
    pub order: Vec<String>,
    pub current: String,
}

impl View for PathwayEntry {
    type V = PathwayView;

    open spec fn view(&self) -> PathwayView {
        PathwayView { name: self.name@, order: texts(self.order@), current: self.current@ }
    }
}

/// Full trace-report payload: header, node entries, findings, and pathways.
pub struct TraceReport {
    pub header: Vec<(String, String)>,
    pub entries: Vec<TraceEntry>,
    /// Findings with no node, or naming no node the report has an entry for.
    pub unattachable_findings: Vec<Issue>,
    pub pathways: Vec<PathwayEntry>,
}

/// The rank an undeclared kind sorts at: after every declared kind.
pub const UNDECLARED_KIND_RANK: i128 = 999;

/// Whether a node ID is among those asked for; all are when none are named.
pub open spec fn selected(sel: Option<Seq<Seq<char>>>, id: Seq<char>) -> bool {
    match sel {
        Some(s) => s.contains(id),
        None => true,
    }
}

/// A finding that has an entry to sit in: it names a declared, asked-for node.
pub open spec fn attachable(ns: Seq<NodeView>, sel: Option<Seq<Seq<char>>>, i: IssueView) -> bool {
    i.node_id matches Some(nid) && declares(ns, nid) && selected(sel, nid)
}

/// The first `k` findings that satisfy `p`, in order.
pub open spec fn keep_issues(is: Seq<IssueView>, k: nat, p: spec_fn(IssueView) -> bool) -> Seq<IssueView>
    decreases k,
{
    if k == 0 || k > is.len() {
        Seq::empty()
    } else if p(is[k - 1]) {
        keep_issues(is, (k - 1) as nat, p).push(is[k - 1])
    } else {
        keep_issues(is, (k - 1) as nat, p)
    }
}

pub open spec fn about(id: Seq<char>) -> spec_fn(IssueView) -> bool {
    |i: IssueView| i.node_id == Some(id)
}

pub open spec fn unattached(ns: Seq<NodeView>, sel: Option<Seq<Seq<char>>>) -> spec_fn(IssueView) -> bool {
    |i: IssueView| !attachable(ns, sel, i)
}

/// An edge as the trace shows it.
pub open spec fn trace_edge_of(e: EdgeView) -> TraceEdgeView {
    TraceEdgeView { tgt: e.tgt, kind: e.kind, attrs: e.attrs, provenance: e.provenance }
}

/// The first `k` edges leaving `id`, as the trace shows them.
pub open spec fn out_edges(es: Seq<EdgeView>, id: Seq<char>, k: nat) -> Seq<TraceEdgeView>
    decreases k,
{
    if k == 0 || k > es.len() {
        Seq::empty()
    } else if es[k - 1].src == id {
        out_edges(es, id, (k - 1) as nat).push(trace_edge_of(es[k - 1]))
    } else {
        out_edges(es, id, (k - 1) as nat)
    }
}

/// The order a node's edges are listed in: kind, target, file, line.
pub open spec fn edge_key(t: TraceEdgeView) -> Seq<KeyView> {
    seq![
        KeyView::Text(t.kind),
        KeyView::Text(t.tgt),
        KeyView::Text(t.provenance.file),
        KeyView::Num(t.provenance.line),
    ]
}

/// Edges listed in edge-key order.
pub open spec fn edges_in_order(s: Seq<TraceEdgeView>) -> bool {
    forall|i: int, j: int| 0 <= i < j < s.len() ==> !key_lt(edge_key(#[trigger] s[j]), edge_key(#[trigger] s[i]))
}

/// An object's members as a key-ordered map collects them, the last of a
/// repeated key winning.
pub open spec fn put_all(m: Seq<(Seq<char>, Json)>, k: nat) -> Seq<(Seq<char>, Json)>
    decreases k,
{
    if k == 0 || k > m.len() {
        Seq::empty()
    } else {
        json_put(put_all(m, (k - 1) as nat), m[k - 1].0, m[k - 1].1)
    }
}

/// The summary attr a kind declares.
pub open spec fn summary_of(nks: Seq<(String, NodeKind)>, kind: Seq<char>) -> Option<Seq<char>> {
    match assoc(nks, kind) {
        Some(nk) => crate::types::opt_view(nk.summary_attr),
        None => None,
    }
}

/// Where a kind sorts: its declaration index, or after every declared kind.
pub open spec fn kind_rank(nks: Seq<(String, NodeKind)>, kind: Seq<char>) -> int {
    match assoc(nks, kind) {
        Some(nk) => nk.declared_index as int,
        None => UNDECLARED_KIND_RANK as int,
    }
}

/// The order entries are listed in: kind rank, then ID.
pub open spec fn entry_key(nks: Seq<(String, NodeKind)>, e: TraceEntry) -> Seq<KeyView> {
    seq![KeyView::Num(kind_rank(nks, e.kind@)), KeyView::Text(e.id@)]
}

/// What the entry of node `n` holds.
#[verifier::opaque]
pub open spec fn entry_holds(
    nks: Seq<(String, NodeKind)>,
    es: Seq<EdgeView>,
    is: Seq<IssueView>,
    n: NodeView,
    t: TraceEntry,
) -> bool {
    let e = t@;
    &&& e.id == n.id
    &&& e.kind == n.kind
    &&& e.attrs == put_all(n.attrs, n.attrs.len())
    &&& e.provenance == n.provenance
    &&& e.summary_attr == summary_of(nks, n.kind)
    &&& edges_in_order(e.edges)
    &&& e.edges.to_multiset() == out_edges(es, n.id, es.len()).to_multiset()
    &&& e.findings == keep_issues(is, is.len(), about(n.id))
}

/// The report header: versions and the profile's identity, in key order.
pub open spec fn trace_header(version: Seq<char>, name: Seq<char>, profile_version: Seq<char>) -> Seq<(Seq<char>, Seq<char>)> {
    seq![
        ("lattice_version"@, version),
        ("profile"@, name),
        ("profile_version"@, profile_version),
        ("trace_version"@, "2"@),
    ]
}

pub open spec fn pairs_view(s: Seq<(String, String)>) -> Seq<(Seq<char>, Seq<char>)> {
    s.map_values(|p: (String, String)| (p.0@, p.1@))
}

pub open spec fn entries_view(s: Seq<TraceEntry>) -> Seq<TraceEntryView> {
    s.map_values(|e: TraceEntry| e@)
}

pub open spec fn opt_ids(o: Option<&Vec<String>>) -> Option<Seq<Seq<char>>> {
    match o {
        Some(v) => Some(texts(v@)),
        None => None,
    }
}

/// How many of the first `k` nodes are asked for.
pub open spec fn selected_count(ns: Seq<NodeView>, sel: Option<Seq<Seq<char>>>, k: nat) -> nat
    decreases k,
{
    if k == 0 || k > ns.len() {
        0
    } else {
        selected_count(ns, sel, (k - 1) as nat) + if selected(sel, ns[k - 1].id) {
            1nat
        } else {
            0nat
        }
    }
}

fn is_selected(node_ids: Option<&Vec<String>>, id: &str) -> (r: bool)
    ensures
        r == selected(opt_ids(node_ids), id@),
{
    match node_ids {
        Some(v) => contains_text(v, id),
        None => true,
    }
}

/// The edges leaving `id`, in edge-key order.
fn node_edges(edges: &Vec<Edge>, id: &str) -> (r: Vec<TraceEdge>)
    ensures
        edges_in_order(trace_edges_view(r@)),
        trace_edges_view(r@).to_multiset() == out_edges(edges_view(edges@), id@, edges.len() as nat).to_multiset(),
{
    let ghost es = edges_view(edges@);
    let ghost f = |t: TraceEdge| edge_key(t@);
    let ghost g = |e: (Vec<KeyPart>, TraceEdge)| e.1@;
    let mut keyed: Vec<(Vec<KeyPart>, TraceEdge)> = Vec::new();
    let mut j: usize = 0;
    while j < edges.len()
        invariant
            j <= edges.len(),
            es == edges_view(edges@),
            f == (|t: TraceEdge| edge_key(t@)),
            g == (|e: (Vec<KeyPart>, TraceEdge)| e.1@),
            keyed_by(keyed@, f),
            keyed@.map_values(g) == out_edges(es, id@, j as nat),
        decreases edges.len() - j,
    {
        let e = &edges[j];
        assert(es[j as int] == e@);
        let ghost before = keyed@;
        if str_eq(e.src.as_str(), id) {
            let t = TraceEdge {
                tgt: e.tgt.clone(),
                kind: e.kind.clone(),
                attrs: copy_members(&e.attrs),
                provenance: e.provenance.copy(),
            };
            let mut key: Vec<KeyPart> = Vec::new();
            key.push(KeyPart::Text(t.kind.clone()));
            key.push(KeyPart::Text(t.tgt.clone()));
            key.push(KeyPart::Text(t.provenance.file.clone()));
            key.push(KeyPart::Num(t.provenance.line as i128));
            proof {
                assert(key_view(key@) =~= edge_key(t@));
                assert(t@ == trace_edge_of(es[j as int]));
            }
            keyed.push((key, t));
            proof {
                assert(keyed@.map_values(g) =~= before.map_values(g).push(trace_edge_of(es[j as int])));
                assert forall|i: int| 0 <= i < keyed@.len() implies #[trigger] keys_in(keyed@)[i] == f(keyed@[i].1) by {
                    if i < before.len() {
                        assert(keys_in(before)[i] == f(before[i].1));
                    }
                }
            }
        }
        j += 1;
    }
    let ghost unsorted = keyed@;
    sort_keyed(&mut keyed);
    proof {
        lemma_keyed_by(keyed@, unsorted, f);
        let h = |e: (Seq<KeyView>, TraceEdge)| e.1@;
        lemma_multiset_map(keyed_view(keyed@), keyed_view(unsorted), h);
        assert(keyed_view(keyed@).map_values(h) =~= keyed@.map_values(g));
        assert(keyed_view(unsorted).map_values(h) =~= unsorted.map_values(g));
    }
    let ghost sorted = keyed@;
    let r = unkey(keyed);
    proof {
        assert(trace_edges_view(r@) =~= sorted.map_values(g));
        assert forall|i: int, k: int| 0 <= i < k < r@.len() implies !key_lt(
            edge_key(#[trigger] trace_edges_view(r@)[k]),
            edge_key(#[trigger] trace_edges_view(r@)[i]),
        ) by {
            assert(keys_in(sorted)[k] == f(sorted[k].1));
            assert(keys_in(sorted)[i] == f(sorted[i].1));
        }
    }
    r
}

/// A node's attrs as a key-ordered map.
fn ordered_attrs(m: &Vec<(String, JsonValue)>) -> (r: Vec<(String, JsonValue)>)
    ensures
        members_view(r@) == put_all(members_view(m@), m.len() as nat),
{
    proof {
        crate::json::lemma_members(m@, m@.len());
    }
    let mut r: Vec<(String, JsonValue)> = Vec::new();
    let mut i: usize = 0;
    assert(members_view(r@) =~= Seq::<(Seq<char>, Json)>::empty()) by {
        crate::json::lemma_members(r@, 0);
    }
    while i < m.len()
        invariant
            i <= m.len(),
            members_view(m@).len() == m.len(),
            forall|k: int| 0 <= k < m.len() ==> #[trigger] members_view(m@)[k] == (m@[k].0@, m@[k].1.deep()),
            members_view(r@) == put_all(members_view(m@), i as nat),
        decreases m.len() - i,
    {
        let v = copy_json(&m[i].1);
        object_put(&mut r, m[i].0.clone(), v);
        i += 1;
    }
    r
}

/// The findings about `id`, in order.
fn findings_about(issues: &Vec<Issue>, id: &str) -> (r: Vec<Issue>)
    ensures
        issues_view(r@) == keep_issues(issues_view(issues@), issues.len() as nat, about(id@)),
{
    let ghost is = issues_view(issues@);
    let mut r: Vec<Issue> = Vec::new();
    let mut k: usize = 0;
    while k < issues.len()
        invariant
            k <= issues.len(),
            is == issues_view(issues@),
            issues_view(r@) == keep_issues(is, k as nat, about(id@)),
        decreases issues.len() - k,
    {
        let issue = &issues[k];
        assert(is[k as int] == issue@);
        let hit = match &issue.node_id {
            Some(nid) => str_eq(nid.as_str(), id),
            None => false,
        };
        let ghost before = issues_view(r@);
        if hit {
            r.push(issue.copy());
            assert(issues_view(r@) =~= before.push(issue@));
        }
        k += 1;
    }
    r
}

fn rank_of(profile: &Profile, kind: &str) -> (r: i128)
    ensures
        r == kind_rank(profile.spec_node_kinds(), kind@),
{
    match assoc_get(profile.node_kinds(), kind) {
        Some(nk) => nk.declared_index as i128,
        None => UNDECLARED_KIND_RANK,
    }
}

fn summary_attr_of(profile: &Profile, kind: &str) -> (r: Option<String>)
    ensures
        crate::types::opt_view(r) == summary_of(profile.spec_node_kinds(), kind@),
{
    match assoc_get(profile.node_kinds(), kind) {
        Some(nk) => copy_opt(&nk.summary_attr),
        None => None,
    }
}

/// The entry of one node.
fn entry_of(profile: &Profile, edges: &Vec<Edge>, issues: &Vec<Issue>, node: &Node) -> (e: TraceEntry)
    ensures
        entry_holds(profile.spec_node_kinds(), edges_view(edges@), issues_view(issues@), node@, e),
        e.id@ == node.id@,
        e.kind@ == node.kind@,
{
    proof {
        crate::json::lemma_members(node.attrs@, node.attrs@.len());
        reveal(entry_holds);
    }
    let out = node_edges(edges, node.id.as_str());
    let findings = findings_about(issues, node.id.as_str());
    let attrs = ordered_attrs(&node.attrs);
    let summary_attr = summary_attr_of(profile, node.kind.as_str());
    TraceEntry {
        id: node.id.clone(),
        kind: node.kind.clone(),
        attrs,
        provenance: node.provenance.copy(),
        summary_attr,
        edges: out,
        findings,
    }
}

/// The findings that no entry carries.
fn unattachable_of(graph: &LatticeGraph, issues: &Vec<Issue>, node_ids: Option<&Vec<String>>) -> (r: Vec<Issue>)
    ensures
        issues_view(r@) == keep_issues(issues_view(issues@), issues.len() as nat, unattached(graph.spec_nodes(), opt_ids(node_ids))),
{
    let ghost is = issues_view(issues@);
    let ghost ns = graph.spec_nodes();
    let ghost sel = opt_ids(node_ids);
    let mut unattachable: Vec<Issue> = Vec::new();
    let mut k: usize = 0;
    while k < issues.len()
        invariant
            k <= issues.len(),
            is == issues_view(issues@),
            ns == graph.spec_nodes(),
            sel == opt_ids(node_ids),
            issues_view(unattachable@) == keep_issues(is, k as nat, unattached(ns, sel)),
        decreases issues.len() - k,
    {
        let issue = &issues[k];
        assert(is[k as int] == issue@);
        let attached = match &issue.node_id {
            Some(nid) => graph.has_node(nid.as_str()) && is_selected(node_ids, nid.as_str()),
            None => false,
        };
        let ghost before = issues_view(unattachable@);
        if !attached {
            unattachable.push(issue.copy());
            assert(issues_view(unattachable@) =~= before.push(issue@));
        }
        k += 1;
    }
    unattachable
}

/// What the keyed entries of the asked-for nodes hold, in node order.
pub open spec fn collected(
    nks: Seq<(String, NodeKind)>,
    ns: Seq<NodeView>,
    es: Seq<EdgeView>,
    is: Seq<IssueView>,
    sel: Option<Seq<Seq<char>>>,
    keyed: Seq<(Vec<KeyPart>, TraceEntry)>,
    i: int,
) -> bool {
    &&& keyed_by(keyed, |e: TraceEntry| entry_key(nks, e))
    &&& keyed.len() == selected_count(ns, sel, i as nat)
    &&& forall|q: int|
        0 <= q < keyed.len() ==> exists|w: int|
            0 <= w < i && (#[trigger] keyed[q]).1.id@ == ns[w].id && selected(sel, ns[w].id) && entry_holds(
                nks,
                es,
                is,
                ns[w],
                keyed[q].1,
            )
    &&& forall|w: int| 0 <= w < i && selected(sel, (#[trigger] ns[w]).id) ==> exists|q: int| 0 <= q < keyed.len() && keyed[q].1.id@ == ns[w].id
}

/// The entries of the asked-for nodes, each with its sort key.
#[verifier::rlimit(50)]
fn collect_entries(profile: &Profile, graph: &LatticeGraph, issues: &Vec<Issue>, node_ids: Option<&Vec<String>>) -> (keyed: Vec<(Vec<KeyPart>, TraceEntry)>)
    requires
        graph.wf(),
    ensures
        collected(
            profile.spec_node_kinds(),
            graph.spec_nodes(),
            graph.spec_edges(),
            issues_view(issues@),
            opt_ids(node_ids),
            keyed@,
            graph.spec_nodes().len() as int,
        ),
        crate::graph::ids_unique(graph.spec_nodes()),
{
    let ghost ns = graph.spec_nodes();
    let ghost es = graph.spec_edges();
    let ghost is = issues_view(issues@);
    let ghost sel = opt_ids(node_ids);
    let ghost nks = profile.spec_node_kinds();
    let nodes = graph.iter_nodes();
    let edges = graph.iter_edges();
    let ghost f = |e: TraceEntry| entry_key(nks, e);
    let mut keyed: Vec<(Vec<KeyPart>, TraceEntry)> = Vec::new();
    let ghost mut wit: Seq<int> = Seq::empty();
    let ghost mut pos: Seq<int> = Seq::empty();
    let mut i: usize = 0;
    while i < nodes.len()
        invariant
            i <= nodes.len(),
            ns == nodes_view(nodes@),
            es == edges_view(edges@),
            is == issues_view(issues@),
            sel == opt_ids(node_ids),
            nks == profile.spec_node_kinds(),
            f == (|e: TraceEntry| entry_key(nks, e)),
            keyed_by(keyed@, f),
            keyed.len() == selected_count(ns, sel, i as nat),
            wit.len() == keyed.len(),
            forall|q: int|
                0 <= q < keyed.len() ==> 0 <= #[trigger] wit[q] < i && keyed@[q].1.id@ == ns[wit[q]].id && selected(
                    sel,
                    ns[wit[q]].id,
                ) && entry_holds(nks, es, is, ns[wit[q]], keyed@[q].1),
            pos.len() == i,
            forall|w: int|
                0 <= w < i && selected(sel, ns[w].id) ==> 0 <= #[trigger] pos[w] < keyed.len() && keyed@[pos[w]].1.id@
                    == ns[w].id,
        decreases nodes.len() - i,
    {
        let node = &nodes[i];
        assert(ns[i as int] == node@);
        let ghost before = keyed@;
        if is_selected(node_ids, node.id.as_str()) {
            let entry = entry_of(profile, edges, issues, node);
            let mut key: Vec<KeyPart> = Vec::new();
            key.push(KeyPart::Num(rank_of(profile, node.kind.as_str())));
            key.push(KeyPart::Text(node.id.clone()));
            proof {
                assert(key_view(key@) =~= entry_key(nks, entry));
            }
            keyed.push((key, entry));
            proof {
                assert forall|q: int| 0 <= q < keyed@.len() implies #[trigger] keys_in(keyed@)[q] == f(keyed@[q].1) by {
                    if q < before.len() {
                        assert(keys_in(before)[q] == f(before[q].1));
                    }
                }
                wit = wit.push(i as int);
                pos = pos.push(before.len() as int);
                assert forall|q: int| 0 <= q < keyed.len() implies 0 <= #[trigger] wit[q] < i + 1 && keyed@[q].1.id@
                    == ns[wit[q]].id && selected(sel, ns[wit[q]].id) && entry_holds(nks, es, is, ns[wit[q]], keyed@[q].1) by {
                    if q < before.len() {
                        assert(keyed@[q] == before[q]);
                    }
                }
                assert forall|w: int| 0 <= w < i + 1 && selected(sel, ns[w].id) implies 0 <= #[trigger] pos[w] < keyed.len()
                    && keyed@[pos[w]].1.id@ == ns[w].id by {
                    if w < i {
                        assert(keyed@[pos[w]] == before[pos[w]]);
                    }
                }
            }
        } else {
            proof {
                pos = pos.push(-1);
            }
        }
        i += 1;
    }
    proof {
        assert forall|q: int| 0 <= q < keyed.len() implies exists|w: int|
            0 <= w < ns.len() && (#[trigger] keyed@[q]).1.id@ == ns[w].id && selected(sel, ns[w].id) && entry_holds(
                nks,
                es,
                is,
                ns[w],
                keyed@[q].1,
            ) by {
            let w = wit[q];
        }
        assert forall|w: int| 0 <= w < ns.len() && selected(sel, (#[trigger] ns[w]).id) implies exists|q: int|
            0 <= q < keyed.len() && keyed@[q].1.id@ == ns[w].id by {
            let q = pos[w];
        }
    }
    keyed
}

/// Sorted and unkeyed, the collected entries are what a trace report holds.
proof fn lemma_sorted_entries(
    profile: &Profile,
    graph: &LatticeGraph,
    is: Seq<IssueView>,
    sel: Option<Seq<Seq<char>>>,
    unsorted: Seq<(Vec<KeyPart>, TraceEntry)>,
    sorted: Seq<(Vec<KeyPart>, TraceEntry)>,
    entries: Seq<TraceEntry>,
)
    requires
        crate::graph::ids_unique(graph.spec_nodes()),
        collected(profile.spec_node_kinds(), graph.spec_nodes(), graph.spec_edges(), is, sel, unsorted, graph.spec_nodes().len() as int),
        keyed_view(sorted).to_multiset() == keyed_view(unsorted).to_multiset(),
        keyed_sorted(sorted),
        keyed_by(sorted, |e: TraceEntry| entry_key(profile.spec_node_kinds(), e)),
        sorted.len() == unsorted.len(),
        entries == items_of(sorted),
    ensures
        ({
            let ns = graph.spec_nodes();
            let es = graph.spec_edges();
            let nks = profile.spec_node_kinds();
            let ev = entries;
            &&& ev.len() == selected_count(ns, sel, ns.len())
            &&& forall|i: int|
                0 <= i < ev.len() ==> (node_lookup(ns, (#[trigger] ev[i]).id@) matches Some(n) && selected(sel, n.id) && entry_holds(
                    nks,
                    es,
                    is,
                    n,
                    ev[i],
                ))
            &&& forall|k: int| 0 <= k < ns.len() && selected(sel, (#[trigger] ns[k]).id) ==> exists|i: int|
                0 <= i < ev.len() && entries[i].id@ == ns[k].id
            &&& forall|i: int, j: int|
                0 <= i < j < ev.len() ==> !key_lt(entry_key(nks, #[trigger] ev[j]), entry_key(nks, #[trigger] ev[i]))
        }),
{
    let ns = graph.spec_nodes();
    let es = graph.spec_edges();
    let nks = profile.spec_node_kinds();
    let ev = entries;
    let f = |e: TraceEntry| entry_key(nks, e);
    keyed_view(sorted).to_multiset_ensures();
    keyed_view(unsorted).to_multiset_ensures();
    assert forall|q: int| 0 <= q < ev.len() implies (node_lookup(ns, (#[trigger] ev[q]).id@) matches Some(n) && selected(
        sel,
        n.id,
    ) && entry_holds(nks, es, is, n, ev[q])) by {
        let e = keyed_view(sorted)[q];
        assert(keyed_view(sorted).contains(e));
        assert(keyed_view(sorted).to_multiset().count(e) > 0);
        assert(keyed_view(unsorted).contains(e));
        let p = choose|p: int| 0 <= p < keyed_view(unsorted).len() && keyed_view(unsorted)[p] == e;
        assert(unsorted[p].1 == sorted[q].1);
        let w = choose|w: int|
            0 <= w < ns.len() && (#[trigger] unsorted[p]).1.id@ == ns[w].id && selected(sel, ns[w].id) && entry_holds(
                nks,
                es,
                is,
                ns[w],
                unsorted[p].1,
            );
        assert(ev[q] == sorted[q].1);
        assert forall|k: int| 0 <= k < w implies !crate::graph::has_id(ev[q].id@)(#[trigger] ns[k]) by {
            assert(ns[k].id != ns[w].id);
        }
        crate::seqs::lemma_first_index(ns, crate::graph::has_id(ev[q].id@));
        crate::seqs::lemma_first_index_at(ns, crate::graph::has_id(ev[q].id@), w);
    }
    assert forall|w: int| 0 <= w < ns.len() && selected(sel, (#[trigger] ns[w]).id) implies exists|q: int|
        0 <= q < ev.len() && ev[q].id@ == ns[w].id by {
        let p = choose|p: int| 0 <= p < unsorted.len() && unsorted[p].1.id@ == ns[w].id;
        let e = keyed_view(unsorted)[p];
        assert(keyed_view(unsorted).contains(e));
        assert(keyed_view(unsorted).to_multiset().count(e) > 0);
        assert(keyed_view(sorted).contains(e));
        let q = choose|q: int| 0 <= q < keyed_view(sorted).len() && keyed_view(sorted)[q] == e;
        assert(ev[q] == sorted[q].1);
    }
    assert forall|a: int, b: int| 0 <= a < b < ev.len() implies !key_lt(entry_key(nks, #[trigger] ev[b]), entry_key(
        nks,
        #[trigger] ev[a],
    )) by {
        assert(keys_in(sorted)[a] == f(sorted[a].1));
        assert(keys_in(sorted)[b] == f(sorted[b].1));
        assert(ev[a] == sorted[a].1 && ev[b] == sorted[b].1);
    }
}

/// The graph's pathways, as the trace carries them.
fn pathway_entries(graph: &LatticeGraph) -> (pathways: Vec<PathwayEntry>)
    requires
        graph.wf(),
    ensures
        pathways@.map_values(|p: PathwayEntry| p@) == graph.spec_pathways(),
{
    let graph_pathways = graph.iter_pathways();
    let mut pathways: Vec<PathwayEntry> = Vec::new();
    let mut p: usize = 0;
    while p < graph_pathways.len()
        invariant
            p <= graph_pathways.len(),
            pathways.len() == p,
            forall|z: int| 0 <= z < p ==> (#[trigger] pathways@[z])@ == graph_pathways@[z]@,
        decreases graph_pathways.len() - p,
    {
        let pw = &graph_pathways[p];
        pathways.push(
            PathwayEntry { name: pw.name.clone(), order: copy_strings(&pw.order), current: pw.current.clone() },
        );
        p += 1;
    }
    proof {
        assert(pathways@.map_values(|x: PathwayEntry| x@) =~= pathways_view(graph_pathways@));
    }
    pathways
}

/// Build the trace report for a validated graph.
pub fn build_trace_report(profile: &Profile, graph: &LatticeGraph, issues: Vec<Issue>, lattice_version: &str) -> (rep:
    TraceReport)
    requires
        graph.wf(),
    ensures
        trace_holds(profile, graph, issues_view(issues@), lattice_version@, None, rep),
{
    build_trace_report_for_nodes(profile, graph, issues, lattice_version, None)
}

/// What a trace report over the nodes `sel` holds.
pub open spec fn trace_holds(
    profile: &Profile,
    graph: &LatticeGraph,
    is: Seq<IssueView>,
    version: Seq<char>,
    sel: Option<Seq<Seq<char>>>,
    rep: TraceReport,
) -> bool {
    let ns = graph.spec_nodes();
    let es = graph.spec_edges();
    let nks = profile.spec_node_kinds();
    let ev = rep.entries@;
    &&& pairs_view(rep.header@) == trace_header(version, profile.spec_name(), profile.spec_profile_version())
    &&& issues_view(rep.unattachable_findings@) == keep_issues(is, is.len(), unattached(ns, sel))
    &&& ev.len() == selected_count(ns, sel, ns.len())
    &&& forall|i: int|
        0 <= i < ev.len() ==> (node_lookup(ns, (#[trigger] ev[i]).id@) matches Some(n) && selected(sel, n.id) && entry_holds(
            nks,
            es,
            is,
            n,
            ev[i],
        ))
    &&& forall|k: int| 0 <= k < ns.len() && selected(sel, (#[trigger] ns[k]).id) ==> exists|i: int| 0 <= i < ev.len() && ev[i].id@ == ns[k].id
    &&& forall|i: int, j: int| 0 <= i < j < ev.len() ==> !key_lt(entry_key(nks, #[trigger] ev[j]), entry_key(nks, #[trigger] ev[i]))
    &&& rep.pathways@.map_values(|p: PathwayEntry| p@) == graph.spec_pathways()
}

/// Build trace entries only for the nodes `node_ids` names, keeping the
/// findings about the others as unattachable so that callers can still select
/// them by provenance.
#[verifier::rlimit(50)]
pub fn build_trace_report_for_nodes(
    profile: &Profile,
    graph: &LatticeGraph,
    issues: Vec<Issue>,
    lattice_version: &str,
    node_ids: Option<&Vec<String>>,
) -> (rep: TraceReport)
    requires
        graph.wf(),
    ensures
        trace_holds(profile, graph, issues_view(issues@), lattice_version@, opt_ids(node_ids), rep),
{
    let ghost ns = graph.spec_nodes();
    let ghost es = graph.spec_edges();
    let ghost is = issues_view(issues@);
    let ghost sel = opt_ids(node_ids);
    let ghost nks = profile.spec_node_kinds();
    let mut header: Vec<(String, String)> = Vec::new();
    header.push((copy_str("lattice_version"), copy_str(lattice_version)));
    header.push((copy_str("profile"), copy_str(profile.name())));
    header.push((copy_str("profile_version"), copy_str(profile.profile_version())));
    header.push((copy_str("trace_version"), copy_str("2")));
    assert(pairs_view(header@) =~= trace_header(lattice_version@, profile.spec_name(), profile.spec_profile_version()));
    let unattachable = unattachable_of(graph, &issues, node_ids);
    let ghost f = |e: TraceEntry| entry_key(nks, e);
    let mut keyed = collect_entries(profile, graph, &issues, node_ids);
    let ghost unsorted = keyed@;
    sort_keyed(&mut keyed);
    proof {
        lemma_keyed_by(keyed@, unsorted, f);
    }
    let ghost sorted = keyed@;
    let entries = unkey(keyed);
    proof {
        lemma_sorted_entries(profile, graph, is, sel, unsorted, sorted, entries@);
    }
    let pathways = pathway_entries(graph);
    TraceReport { header, entries, unattachable_findings: unattachable, pathways }
}

// ---------------------------------------------------------------- laws

/// What the first `k` edges leaving `id` are: each is an edge among the first
/// `k` whose source is `id`, and each such edge is among them.
proof fn lemma_out_edges(es: Seq<EdgeView>, id: Seq<char>, k: nat)
    requires
        k <= es.len(),
    ensures
        forall|t: TraceEdgeView| #[trigger] out_edges(es, id, k).contains(t) <==> exists|j: int|
            0 <= j < k && es[j].src == id && t == (TraceEdgeView {
                tgt: es[j].tgt,
                kind: es[j].kind,
                attrs: es[j].attrs,
                provenance: es[j].provenance,
            }),
    decreases k,
{
    if k > 0 {
        lemma_out_edges(es, id, (k - 1) as nat);
        let prev = out_edges(es, id, (k - 1) as nat);
        let cur = out_edges(es, id, k);
        let last = TraceEdgeView { tgt: es[k - 1].tgt, kind: es[k - 1].kind, attrs: es[k - 1].attrs, provenance: es[k - 1].provenance };
        assert forall|t: TraceEdgeView| #[trigger] cur.contains(t) <==> exists|j: int|
            0 <= j < k && es[j].src == id && t == (TraceEdgeView {
                tgt: es[j].tgt,
                kind: es[j].kind,
                attrs: es[j].attrs,
                provenance: es[j].provenance,
            }) by {
            if es[k - 1].src == id {
                assert(cur == prev.push(last));
                if cur.contains(t) {
                    let i = choose|i: int| 0 <= i < cur.len() && cur[i] == t;
                    if i < prev.len() {
                        assert(prev[i] == t);
                        assert(prev.contains(t));
                    } else {
                        assert(t == last);
                    }
                }
                if exists|j: int|
                    0 <= j < k && es[j].src == id && t == (TraceEdgeView {
                        tgt: es[j].tgt,
                        kind: es[j].kind,
                        attrs: es[j].attrs,
                        provenance: es[j].provenance,
                    }) {
                    let j = choose|j: int|
                        0 <= j < k && es[j].src == id && t == (TraceEdgeView {
                            tgt: es[j].tgt,
                            kind: es[j].kind,
                            attrs: es[j].attrs,
                            provenance: es[j].provenance,
                        });
                    if j == k - 1 {
                        assert(cur[cur.len() - 1] == t);
                    } else {
                        assert(prev.contains(t));
                        let i = choose|i: int| 0 <= i < prev.len() && prev[i] == t;
                        assert(cur[i] == t);
                    }
                }
            } else {
                assert(cur == prev);
                if exists|j: int|
                    0 <= j < k && es[j].src == id && t == (TraceEdgeView {
                        tgt: es[j].tgt,
                        kind: es[j].kind,
                        attrs: es[j].attrs,
                        provenance: es[j].provenance,
                    }) {
                    let j = choose|j: int|
                        0 <= j < k && es[j].src == id && t == (TraceEdgeView {
                            tgt: es[j].tgt,
                            kind: es[j].kind,
                            attrs: es[j].attrs,
                            provenance: es[j].provenance,
                        });
                    assert(j != k - 1);
                }
            }
        }
    }
}

/// A trace entry lists the edges leaving its node, and only those: the `k`-th
/// edge an entry shows is an edge of the graph whose source is the entry's
/// node, with that edge's target, kind, attrs and provenance; and the graph's
/// `j`-th edge, when its source is the entry's node, is shown.
pub proof fn law_trace_entry_lists_outgoing_edges(
    profile: &Profile,
    graph: &LatticeGraph,
    is: Seq<IssueView>,
    version: Seq<char>,
    sel: Option<Seq<Seq<char>>>,
    rep: TraceReport,
    i: int,
    k: int,
    j: int,
)
    requires
        trace_holds(profile, graph, is, version, sel, rep),
        0 <= i < rep.entries.len(),
    ensures
        0 <= k < rep.entries@[i]@.edges.len() ==> exists|w: int|
            0 <= w < graph.spec_edges().len() && #[trigger] graph.spec_edges()[w].src == rep.entries@[i]@.id
                && rep.entries@[i]@.edges[k] == (TraceEdgeView {
                tgt: graph.spec_edges()[w].tgt,
                kind: graph.spec_edges()[w].kind,
                attrs: graph.spec_edges()[w].attrs,
                provenance: graph.spec_edges()[w].provenance,
            }),
        0 <= j < graph.spec_edges().len() && graph.spec_edges()[j].src == rep.entries@[i]@.id
            ==> rep.entries@[i]@.edges.contains(
            TraceEdgeView {
                tgt: graph.spec_edges()[j].tgt,
                kind: graph.spec_edges()[j].kind,
                attrs: graph.spec_edges()[j].attrs,
                provenance: graph.spec_edges()[j].provenance,
            },
        ),
{
    let es = graph.spec_edges();
    let ns = graph.spec_nodes();
    let t = rep.entries@[i];
    assert(node_lookup(ns, t.id@) matches Some(n) && entry_holds(profile.spec_node_kinds(), es, is, n, t));
    let n = node_lookup(ns, t.id@)->0;
    assert(entry_holds(profile.spec_node_kinds(), es, is, n, t));
    reveal(entry_holds);
    let edges = t@.edges;
    let outs = out_edges(es, n.id, es.len());
    edges.to_multiset_ensures();
    outs.to_multiset_ensures();
    lemma_out_edges(es, n.id, es.len());
    assert(edges.to_multiset() == outs.to_multiset());
    if 0 <= k < edges.len() {
        let x = edges[k];
        assert(edges.contains(x));
        assert(edges.to_multiset().count(x) > 0);
        assert(outs.to_multiset().count(x) > 0);
        assert(outs.contains(x));
        let w = choose|w: int|
            0 <= w < es.len() && es[w].src == n.id && x == (TraceEdgeView {
                tgt: es[w].tgt,
                kind: es[w].kind,
                attrs: es[w].attrs,
                provenance: es[w].provenance,
            });
        assert(graph.spec_edges()[w].src == rep.entries@[i]@.id);
    }
    if 0 <= j < es.len() && es[j].src == t@.id {
        let x = TraceEdgeView { tgt: es[j].tgt, kind: es[j].kind, attrs: es[j].attrs, provenance: es[j].provenance };
        assert(outs.contains(x));
        assert(outs.to_multiset().count(x) > 0);
        assert(edges.to_multiset().count(x) > 0);
        assert(edges.contains(x));
    }
}

} // verus!
