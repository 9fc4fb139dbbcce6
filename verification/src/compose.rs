//! The composed report: nodes and edges of every source under qualified IDs,
//! explicit cross-source joins, and the findings that composition adds.

use vstd::prelude::*;

use crate::assoc::{assoc, assoc_get, keys_sorted};
use crate::rules::{default_severity, spec_default_severity, FindingCode};
use crate::fuse::{
    severities_ok, trace_severities_ok, Manifest, ManifestView, SourceTrace, TraceEdge, TraceFinding, TraceLocation,
    TraceNode,
};
use crate::graph::{declares, edges_view, nodes_view, EdgeSpec, EdgeView, LatticeGraph, NodeView, PathwayView};
use crate::profile::{load_profile_value, NodeKind, Profile};
use crate::yaml::{YamlEntry, YamlValue};
use crate::inherit::{entries_model, items_model, lemma_entries_model, mapping_model, YamlModel};
use crate::json::{copy_members, members_view, Json, JsonValue};
use crate::text::{copy_str, join, join_texts, msg2, msg3, msg9, nat_text, push_str, str_eq, texts, usize_text};
use crate::trace::PathwayEntry;
use crate::types::{
    issues_view, opt_view, severity_of_text, Issue, IssueView, Provenance, ProvenanceView, Severity,
};
use crate::validate::strictened;

verus! {

/// Where a composed node or edge came from: its source and its place there.
pub struct FuseProvenance {
    pub source: String,
    pub location: Provenance,
}

pub struct FuseProvenanceView {
    pub source: Seq<char>,
    pub location: ProvenanceView,
}

impl View for FuseProvenance {
    type V = FuseProvenanceView;

    open spec fn view(&self) -> FuseProvenanceView {
        FuseProvenanceView { source: self.source@, location: self.location@ }
    }
}

impl FuseProvenance {
    pub fn copy(&self) -> (r: FuseProvenance)
        ensures
            r@ == self@,
    {
        FuseProvenance { source: self.source.clone(), location: self.location.copy() }
    }
}

/// A node of the composed register, under its source-qualified ID and kind.
pub struct FuseNode {
    pub id: String,
    pub kind: String,
    pub attrs: Vec<(String, JsonValue)>,
    pub provenance: FuseProvenance,
}

pub struct FuseNodeView {
    pub id: Seq<char>,
    pub kind: Seq<char>,
    pub attrs: Seq<(Seq<char>, Json)>,
    pub provenance: FuseProvenanceView,
}

impl View for FuseNode {
    type V = FuseNodeView;

    open spec fn view(&self) -> FuseNodeView {
        FuseNodeView { id: self.id@, kind: self.kind@, attrs: members_view(self.attrs@), provenance: self.provenance@ }
    }
}

/// An edge of the composed register. Its target is resolved across sources
/// when exactly one node may be meant.
pub struct FuseEdge {
    pub src: String,
    pub tgt: String,
    pub kind: String,
    pub attrs: Vec<(String, JsonValue)>,
    pub provenance: FuseProvenance,
    pub source_kind: String,
    pub target_kind: Option<String>,
    pub target_source: Option<String>,
}

pub struct FuseEdgeView {
    pub src: Seq<char>,
    pub tgt: Seq<char>,
    pub kind: Seq<char>,
    pub attrs: Seq<(Seq<char>, Json)>,
    pub provenance: FuseProvenanceView,
    pub source_kind: Seq<char>,
    pub target_kind: Option<Seq<char>>,
    pub target_source: Option<Seq<char>>,
}

impl View for FuseEdge {
    type V = FuseEdgeView;

    open spec fn view(&self) -> FuseEdgeView {
        FuseEdgeView {
            src: self.src@,
            tgt: self.tgt@,
            kind: self.kind@,
            attrs: members_view(self.attrs@),
            provenance: self.provenance@,
            source_kind: self.source_kind@,
            target_kind: opt_view(self.target_kind),
            target_source: opt_view(self.target_source),
        }
    }
}

/// A finding of the composed register, with the source it belongs to and the
/// places it concerns.
pub struct FuseFinding {
    pub issue: Issue,
    pub source: Option<String>,
    pub locations: Vec<FuseProvenance>,
}

pub struct FuseFindingView {
    pub issue: IssueView,
    pub source: Option<Seq<char>>,
    pub locations: Seq<FuseProvenanceView>,
}

impl View for FuseFinding {
    type V = FuseFindingView;

    open spec fn view(&self) -> FuseFindingView {
        FuseFindingView {
            issue: self.issue@,
            source: opt_view(self.source),
            locations: self.locations@.map_values(|p: FuseProvenance| p@),
        }
    }
}

/// Composed graph and findings, in manifest source order. A failed source
/// leaves the graph empty; findings from healthy sources remain visible.
pub struct FuseReport {
    pub header: Vec<(String, String)>,
    pub nodes: Vec<FuseNode>,
    pub edges: Vec<FuseEdge>,
    pub pathways: Vec<PathwayEntry>,
    pub findings: Vec<FuseFinding>,
    pub could_run: bool,
}

pub open spec fn fuse_nodes_view(s: Seq<FuseNode>) -> Seq<FuseNodeView> {
    s.map_values(|n: FuseNode| n@)
}

pub open spec fn fuse_edges_view(s: Seq<FuseEdge>) -> Seq<FuseEdgeView> {
    s.map_values(|e: FuseEdge| e@)
}

pub open spec fn findings_view(s: Seq<FuseFinding>) -> Seq<FuseFindingView> {
    s.map_values(|f: FuseFinding| f@)
}

/// The exit status a composition answers with: 2 when it could not run, 1
/// when a finding moves the exit code, else 0.
pub open spec fn spec_exit_code(could_run: bool, fs: Seq<FuseFindingView>) -> u8 {
    if !could_run {
        2
    } else if exists|i: int| 0 <= i < fs.len() && crate::types::spec_gates(#[trigger] fs[i].issue) {
        1
    } else {
        0
    }
}

impl FuseReport {
    pub fn exit_code(&self) -> (r: u8)
        ensures
            r == spec_exit_code(self.could_run, findings_view(self.findings@)),
    {
        if !self.could_run {
            return 2;
        }
        let mut i: usize = 0;
        while i < self.findings.len()
            invariant
                i <= self.findings.len(),
                self.could_run,
                forall|k: int| 0 <= k < i ==> !crate::types::spec_gates(#[trigger] findings_view(self.findings@)[k].issue),
            decreases self.findings.len() - i,
        {
            if self.findings[i].issue.gates() {
                assert(findings_view(self.findings@)[i as int] == self.findings@[i as int]@);
                assert(crate::types::spec_gates(findings_view(self.findings@)[i as int].issue));
                return 1;
            }
            i += 1;
        }
        0
    }
}

/// `{source}:{raw}`: an ID or kind qualified by its source.
pub open spec fn qualify(source: Seq<char>, raw: Seq<char>) -> Seq<char> {
    source + seq![':'] + raw
}

pub fn qualified(source: &str, raw: &str) -> (r: String)
    ensures
        r@ == qualify(source@, raw@),
{
    let r = msg3(source, ":", raw);
    proof {
        reveal_strlit(":");
        assert(":"@ =~= seq![':']);
    }
    r
}

/// A trace location attributed to a source.
pub open spec fn located(source: Seq<char>, l: TraceLocation) -> FuseProvenanceView {
    FuseProvenanceView { source, location: ProvenanceView { file: l.file@, line: l.line as int } }
}

fn attributed(l: &TraceLocation, source: &str) -> (r: FuseProvenance)
    ensures
        r@ == located(source@, *l),
{
    FuseProvenance { source: copy_str(source), location: Provenance::new(l.file.as_str(), l.line) }
}

/// A source's finding as the composition reports it: the node ID it names,
/// or the node it sat in, qualified by the source.
pub open spec fn finding_of(source: Seq<char>, node: Option<Seq<char>>, f: TraceFinding) -> FuseFindingView {
    let named = match f.node_id {
        Some(x) => Some(qualify(source, x@)),
        None => match node {
            Some(x) => Some(qualify(source, x)),
            None => None,
        },
    };
    FuseFindingView {
        issue: IssueView {
            severity: severity_of_text(f.severity@)->0,
            code: f.code@,
            message: f.message@,
            provenance: ProvenanceView { file: f.file@, line: f.line as int },
            node_id: named,
            state: opt_view(f.state),
            suppressed: false,
        },
        source: Some(source),
        locations: Seq::empty(),
    }
}

fn finding_from(f: &TraceFinding, source: &str, node: Option<&str>) -> (r: FuseFinding)
    requires
        severity_of_text(f.severity@) is Some,
    ensures
        r@ == finding_of(source@, opt_str(node), *f),
{
    let severity = match Severity::parse(f.severity.as_str()) {
        Some(s) => s,
        None => Severity::Error,
    };
    let named = match &f.node_id {
        Some(x) => Some(qualified(source, x.as_str())),
        None => match node {
            Some(x) => Some(qualified(source, x)),
            None => None,
        },
    };
    let mut issue = Issue::new(
        severity,
        f.code.as_str(),
        f.message.clone(),
        Provenance::new(f.file.as_str(), f.line),
        named,
    );
    issue.state = crate::types::copy_opt(&f.state);
    let r = FuseFinding { issue, source: Some(copy_str(source)), locations: Vec::new() };
    assert(r@.locations =~= Seq::<FuseProvenanceView>::empty());
    r
}

pub open spec fn opt_str(o: Option<&str>) -> Option<Seq<char>> {
    match o {
        Some(s) => Some(s@),
        None => None,
    }
}

/// The findings of one source's trace: each node's findings in node order,
/// then the unattachable ones.
pub open spec fn trace_findings(source: Seq<char>, t: SourceTrace) -> Seq<FuseFindingView> {
    t.entries@.map_values(
        |n: TraceNode| n.findings@.map_values(|f: TraceFinding| finding_of(source, Some(n.id@), f)),
    ).flatten() + t.unattachable_findings@.map_values(|f: TraceFinding| finding_of(source, None, f))
}

/// Append the findings of one source's trace.
fn push_trace_findings(out: &mut Vec<FuseFinding>, trace: &SourceTrace, source: &str)
    requires
        trace_severities_ok(*trace),
    ensures
        findings_view(final(out)@) == findings_view(old(out)@) + trace_findings(source@, *trace),
{
    let ghost start = findings_view(out@);
    let ghost nested = trace.entries@.map_values(
        |n: TraceNode| n.findings@.map_values(|f: TraceFinding| finding_of(source@, Some(n.id@), f)),
    );
    let mut i: usize = 0;
    while i < trace.entries.len()
        invariant
            i <= trace.entries.len(),
            trace_severities_ok(*trace),
            nested == trace.entries@.map_values(
                |n: TraceNode| n.findings@.map_values(|f: TraceFinding| finding_of(source@, Some(n.id@), f)),
            ),
            findings_view(out@) == start + nested.take(i as int).flatten(),
        decreases trace.entries.len() - i,
    {
        let node = &trace.entries[i];
        assert(severities_ok(trace.entries@[i as int].findings@));
        let ghost mid = findings_view(out@);
        let mut k: usize = 0;
        while k < node.findings.len()
            invariant
                k <= node.findings.len(),
                severities_ok(node.findings@),
                findings_view(out@) == mid + node.findings@.take(k as int).map_values(
                    |f: TraceFinding| finding_of(source@, Some(node.id@), f),
                ),
            decreases node.findings.len() - k,
        {
            assert(severity_of_text(node.findings@[k as int].severity@) is Some);
            let ghost before = findings_view(out@);
            let f = finding_from(&node.findings[k], source, Some(node.id.as_str()));
            assert(f@ == finding_of(source@, Some(node.id@), node.findings@[k as int]));
            out.push(f);
            assert(findings_view(out@) =~= before.push(f@));
            assert(node.findings@.take(k + 1) =~= node.findings@.take(k as int).push(node.findings@[k as int]));
            assert(findings_view(out@) =~= mid + node.findings@.take(k + 1).map_values(
                |f: TraceFinding| finding_of(source@, Some(node.id@), f),
            ));
            k += 1;
        }
        proof {
            assert(node.findings@.take(node.findings.len() as int) =~= node.findings@);
            assert(nested.take(i + 1) =~= nested.take(i as int).push(nested[i as int]));
            nested.take(i as int).lemma_flatten_push(nested[i as int]);
        }
        i += 1;
    }
    assert(nested.take(i as int) =~= nested);
    let ghost mid = findings_view(out@);
    let us = &trace.unattachable_findings;
    let mut k: usize = 0;
    while k < us.len()
        invariant
            k <= us.len(),
            severities_ok(us@),
            findings_view(out@) == mid + us@.take(k as int).map_values(|f: TraceFinding| finding_of(source@, None, f)),
        decreases us.len() - k,
    {
        assert(severity_of_text(us@[k as int].severity@) is Some);
        let f = finding_from(&us[k], source, None);
        let ghost before = findings_view(out@);
        out.push(f);
        assert(findings_view(out@) =~= before.push(f@));
        assert(us@.take(k + 1) =~= us@.take(k as int).push(us@[k as int]));
        assert(findings_view(out@) =~= mid + us@.take(k + 1).map_values(|f: TraceFinding| finding_of(source@, None, f)));
        k += 1;
    }
    assert(us@.take(us.len() as int) =~= us@);
    assert(findings_view(out@) =~= start + trace_findings(source@, *trace));
}

/// Promote every warning to an error when `strict`.
pub fn promote(findings: &mut Vec<FuseFinding>, strict: bool)
    ensures
        findings_view(final(findings)@) == findings_view(old(findings)@).map_values(
            |f: FuseFindingView| FuseFindingView { issue: strictened(f.issue, strict), ..f },
        ),
{
    let ghost start = findings_view(findings@);
    let mut k: usize = 0;
    while k < findings.len()
        invariant
            k <= findings.len(),
            start.len() == findings.len(),
            forall|x: int|
                0 <= x < k ==> #[trigger] findings_view(findings@)[x] == (FuseFindingView {
                    issue: strictened(start[x].issue, strict),
                    ..start[x]
                }),
            forall|x: int| k <= x < findings.len() ==> #[trigger] findings_view(findings@)[x] == start[x],
        decreases findings.len() - k,
    {
        let ghost before = findings_view(findings@);
        assert(before[k as int] == start[k as int]);
        if strict && findings[k].issue.severity == Severity::Warning {
            let mut f = findings.remove(k);
            f.issue.severity = Severity::Error;
            let ghost fv = f@;
            findings.insert(k, f);
            assert(findings_view(findings@) =~= before.update(k as int, fv));
            assert(fv == (FuseFindingView { issue: strictened(start[k as int].issue, strict), ..start[k as int] }));
        } else {
            assert(start[k as int] == (FuseFindingView { issue: strictened(start[k as int].issue, strict), ..start[k as int] }));
        }
        assert(findings_view(findings@)[k as int] == (FuseFindingView {
            issue: strictened(start[k as int].issue, strict),
            ..start[k as int]
        }));
        k += 1;
    }
    assert(findings_view(findings@) =~= start.map_values(
        |f: FuseFindingView| FuseFindingView { issue: strictened(f.issue, strict), ..f },
    ));
}

/// The header of a composition report: the manifest's identity, in key order.
pub open spec fn fuse_header(m: ManifestView) -> Seq<(Seq<char>, Seq<char>)> {
    seq![("manifest_version"@, m.manifest_version), ("name"@, m.name), ("version"@, m.version)]
}

/// An empty report headed by the manifest's identity.
pub fn empty_report(manifest: &Manifest) -> (r: FuseReport)
    ensures
        crate::trace::pairs_view(r.header@) == fuse_header(manifest@),
        r.nodes.len() == 0,
        r.edges.len() == 0,
        r.pathways.len() == 0,
        r.findings.len() == 0,
        r.could_run,
{
    let mut header: Vec<(String, String)> = Vec::new();
    header.push((copy_str("manifest_version"), manifest.manifest_version.clone()));
    header.push((copy_str("name"), manifest.name.clone()));
    header.push((copy_str("version"), manifest.version.clone()));
    assert(crate::trace::pairs_view(header@) =~= fuse_header(manifest@));
    FuseReport {
        header,
        nodes: Vec::new(),
        edges: Vec::new(),
        pathways: Vec::new(),
        findings: Vec::new(),
        could_run: true,
    }
}

/// The findings of every healthy source, in manifest order.
pub open spec fn healthy_findings(m: ManifestView, runs: Seq<Result<SourceTrace, String>>, k: nat) -> Seq<FuseFindingView>
    decreases k,
{
    if k == 0 || k > runs.len() {
        Seq::empty()
    } else {
        healthy_findings(m, runs, (k - 1) as nat) + match runs[k - 1] {
            Ok(t) => trace_findings(m.sources[k - 1].name, t),
            Err(_) => Seq::empty(),
        }
    }
}

/// The failures of the first `k` sources, in manifest order.
pub open spec fn failure_findings(m: ManifestView, runs: Seq<Result<SourceTrace, String>>, k: nat) -> Seq<FuseFindingView>
    decreases k,
{
    if k == 0 || k > runs.len() {
        Seq::empty()
    } else {
        failure_findings(m, runs, (k - 1) as nat) + match runs[k - 1] {
            Ok(_) => Seq::empty(),
            Err(message) => seq![
                FuseFindingView {
                    issue: crate::types::new_issue(
                        Severity::Error,
                        "SOURCE_FAILURE"@,
                        message@,
                        ProvenanceView { file: "<source>"@, line: 0 },
                        None,
                    ),
                    source: Some(m.sources[k - 1].name),
                    locations: Seq::empty(),
                },
            ],
        }
    }
}

/// Whether every run that produced a trace produced one with wire severities.
pub open spec fn runs_ok(runs: Seq<Result<SourceTrace, String>>) -> bool {
    forall|i: int| 0 <= i < runs.len() ==> (#[trigger] runs[i] matches Ok(t) ==> trace_severities_ok(t))
}

/// The report of a composition with failed sources: no graph, the healthy
/// sources' findings, then one failure per failed source, promoted when strict.
pub fn failed_report(manifest: &Manifest, runs: &Vec<Result<SourceTrace, String>>, strict: bool) -> (r: FuseReport)
    requires
        runs.len() == manifest.sources.len(),
        runs_ok(runs@),
    ensures
        crate::trace::pairs_view(r.header@) == fuse_header(manifest@),
        !r.could_run,
        r.nodes.len() == 0,
        r.edges.len() == 0,
        r.pathways.len() == 0,
        findings_view(r.findings@) == (healthy_findings(manifest@, runs@, runs.len() as nat) + failure_findings(
            manifest@,
            runs@,
            runs.len() as nat,
        )).map_values(|f: FuseFindingView| FuseFindingView { issue: strictened(f.issue, strict), ..f }),
{
    let mut report = empty_report(manifest);
    report.could_run = false;
    let mut findings: Vec<FuseFinding> = Vec::new();
    let mut i: usize = 0;
    while i < runs.len()
        invariant
            i <= runs.len(),
            runs.len() == manifest.sources.len(),
            runs_ok(runs@),
            findings_view(findings@) == healthy_findings(manifest@, runs@, i as nat),
        decreases runs.len() - i,
    {
        match &runs[i] {
            Ok(t) => {
                assert(runs@[i as int] matches Ok(x) && trace_severities_ok(x));
                assert(manifest@.sources[i as int].name == manifest.sources@[i as int].name@);
                push_trace_findings(&mut findings, t, manifest.sources[i].name.as_str());
            },
            Err(_) => {},
        }
        i += 1;
    }
    let mut k: usize = 0;
    let ghost healthy = findings_view(findings@);
    while k < runs.len()
        invariant
            k <= runs.len(),
            runs.len() == manifest.sources.len(),
            findings_view(findings@) == healthy + failure_findings(manifest@, runs@, k as nat),
        decreases runs.len() - k,
    {
        match &runs[k] {
            Ok(_) => {},
            Err(message) => {
                let ghost before = findings_view(findings@);
                let f = FuseFinding {
                    issue: Issue::new(
                        Severity::Error,
                        "SOURCE_FAILURE",
                        message.clone(),
                        Provenance::new("<source>", 0),
                        None,
                    ),
                    source: Some(manifest.sources[k].name.clone()),
                    locations: Vec::new(),
                };
                findings.push(f);
                assert(manifest@.sources[k as int].name == manifest.sources@[k as int].name@);
                assert(f@.locations =~= Seq::<FuseProvenanceView>::empty());
                assert(findings_view(findings@) =~= before.push(f@));
            },
        }
        i = k;
        k += 1;
    }
    promote(&mut findings, strict);
    report.findings = findings;
    report
}


// ---------------------------------------------------------------- gathering

/// A source's node under its qualified ID and kind.
pub open spec fn node_of(source: Seq<char>, n: TraceNode) -> FuseNodeView {
    FuseNodeView {
        id: qualify(source, n.id@),
        kind: qualify(source, n.kind@),
        attrs: members_view(n.attrs@),
        provenance: located(source, n.provenance),
    }
}

/// A source's edge from `n`, its target not yet resolved across sources.
pub open spec fn edge_of(source: Seq<char>, n: TraceNode, e: TraceEdge) -> FuseEdgeView {
    FuseEdgeView {
        src: qualify(source, n.id@),
        tgt: qualify(source, e.tgt@),
        kind: e.kind@,
        attrs: members_view(e.attrs@),
        provenance: located(source, e.provenance),
        source_kind: qualify(source, n.kind@),
        target_kind: None,
        target_source: None,
    }
}

pub open spec fn trace_nodes(source: Seq<char>, t: SourceTrace) -> Seq<FuseNodeView> {
    t.entries@.map_values(|n: TraceNode| node_of(source, n))
}

pub open spec fn node_edges_of(source: Seq<char>, n: TraceNode) -> Seq<FuseEdgeView> {
    n.edges@.map_values(|e: TraceEdge| edge_of(source, n, e))
}

pub open spec fn trace_edges(source: Seq<char>, t: SourceTrace) -> Seq<FuseEdgeView> {
    t.entries@.map_values(|n: TraceNode| node_edges_of(source, n)).flatten()
}

pub open spec fn trace_raw_ids(t: SourceTrace) -> Seq<Seq<char>> {
    t.entries@.map_values(|n: TraceNode| n.id@)
}

pub open spec fn node_raw_targets(n: TraceNode) -> Seq<Seq<char>> {
    n.edges@.map_values(|e: TraceEdge| e.tgt@)
}

pub open spec fn trace_raw_targets(t: SourceTrace) -> Seq<Seq<char>> {
    t.entries@.map_values(|n: TraceNode| node_raw_targets(n)).flatten()
}

pub open spec fn trace_pathways(source: Seq<char>, t: SourceTrace) -> Seq<PathwayView> {
    t.pathways@.map_values(
        |p: crate::fuse::TracePathway| PathwayView { name: qualify(source, p.name@), order: texts(p.order@), current: p.current@ },
    )
}

/// What the first `k` sources contribute, in manifest order.
pub open spec fn over_sources<T>(m: ManifestView, ts: Seq<SourceTrace>, k: nat, f: spec_fn(Seq<char>, SourceTrace) -> Seq<T>) -> Seq<T> {
    Seq::new(k, |i: int| f(m.sources[i].name, ts[i])).flatten()
}

pub open spec fn by_nodes() -> spec_fn(Seq<char>, SourceTrace) -> Seq<FuseNodeView> {
    |s: Seq<char>, t: SourceTrace| trace_nodes(s, t)
}

pub open spec fn by_edges() -> spec_fn(Seq<char>, SourceTrace) -> Seq<FuseEdgeView> {
    |s: Seq<char>, t: SourceTrace| trace_edges(s, t)
}

pub open spec fn by_raw_ids() -> spec_fn(Seq<char>, SourceTrace) -> Seq<Seq<char>> {
    |s: Seq<char>, t: SourceTrace| trace_raw_ids(t)
}

pub open spec fn by_raw_targets() -> spec_fn(Seq<char>, SourceTrace) -> Seq<Seq<char>> {
    |s: Seq<char>, t: SourceTrace| trace_raw_targets(t)
}

pub open spec fn by_findings() -> spec_fn(Seq<char>, SourceTrace) -> Seq<FuseFindingView> {
    |s: Seq<char>, t: SourceTrace| trace_findings(s, t)
}

pub open spec fn by_pathways() -> spec_fn(Seq<char>, SourceTrace) -> Seq<PathwayView> {
    |s: Seq<char>, t: SourceTrace| trace_pathways(s, t)
}

proof fn lemma_over_sources_step<T>(m: ManifestView, ts: Seq<SourceTrace>, k: nat, f: spec_fn(Seq<char>, SourceTrace) -> Seq<T>)
    ensures
        over_sources(m, ts, k + 1, f) == over_sources(m, ts, k, f) + f(m.sources[k as int].name, ts[k as int]),
{
    let a = Seq::new(k + 1, |i: int| f(m.sources[i].name, ts[i]));
    let b = Seq::new(k, |i: int| f(m.sources[i].name, ts[i]));
    assert(a =~= b.push(f(m.sources[k as int].name, ts[k as int])));
    b.lemma_flatten_push(f(m.sources[k as int].name, ts[k as int]));
}

pub open spec fn pathway_entries_view(s: Seq<PathwayEntry>) -> Seq<PathwayView> {
    s.map_values(|p: PathwayEntry| p@)
}

/// Append one node's edges and their raw targets.
fn push_node_edges(edges: &mut Vec<FuseEdge>, targets: &mut Vec<String>, node: &TraceNode, source: &str)
    ensures
        fuse_edges_view(final(edges)@) == fuse_edges_view(old(edges)@) + node_edges_of(source@, *node),
        texts(final(targets)@) == texts(old(targets)@) + node_raw_targets(*node),
{
    let ghost e0 = fuse_edges_view(edges@);
    let ghost t0 = texts(targets@);
    let id = qualified(source, node.id.as_str());
    let kind = qualified(source, node.kind.as_str());
    let mut k: usize = 0;
    while k < node.edges.len()
        invariant
            k <= node.edges.len(),
            id@ == qualify(source@, node.id@),
            kind@ == qualify(source@, node.kind@),
            fuse_edges_view(edges@) == e0 + node_edges_of(source@, *node).take(k as int),
            texts(targets@) == t0 + node_raw_targets(*node).take(k as int),
        decreases node.edges.len() - k,
    {
        let e = &node.edges[k];
        let ghost eb = fuse_edges_view(edges@);
        let ghost tb = texts(targets@);
        targets.push(e.tgt.clone());
        let fe = FuseEdge {
            src: id.clone(),
            tgt: qualified(source, e.tgt.as_str()),
            kind: e.kind.clone(),
            attrs: copy_members(&e.attrs),
            provenance: attributed(&e.provenance, source),
            source_kind: kind.clone(),
            target_kind: None,
            target_source: None,
        };
        assert(fe@ == edge_of(source@, *node, node.edges@[k as int]));
        edges.push(fe);
        assert(fuse_edges_view(edges@) =~= eb.push(fe@));
        assert(texts(targets@) =~= tb.push(e.tgt@));
        assert(node_edges_of(source@, *node).take(k + 1) =~= node_edges_of(source@, *node).take(k as int).push(fe@));
        assert(node_raw_targets(*node).take(k + 1) =~= node_raw_targets(*node).take(k as int).push(e.tgt@));
        k += 1;
    }
    assert(node_edges_of(source@, *node).take(k as int) =~= node_edges_of(source@, *node));
    assert(node_raw_targets(*node).take(k as int) =~= node_raw_targets(*node));
}

/// The composed parts, in manifest order.
pub struct Gathered {
    pub nodes: Vec<FuseNode>,
    pub edges: Vec<FuseEdge>,
    pub pathways: Vec<PathwayEntry>,
    pub raw_ids: Vec<String>,
    pub raw_targets: Vec<String>,
}

/// What gathering the first `k` sources holds.
pub open spec fn gathered_holds(g: Gathered, m: ManifestView, ts: Seq<SourceTrace>, k: nat) -> bool {
    &&& fuse_nodes_view(g.nodes@) == over_sources(m, ts, k, by_nodes())
    &&& fuse_edges_view(g.edges@) == over_sources(m, ts, k, by_edges())
    &&& pathway_entries_view(g.pathways@) == over_sources(m, ts, k, by_pathways())
    &&& texts(g.raw_ids@) == over_sources(m, ts, k, by_raw_ids())
    &&& texts(g.raw_targets@) == over_sources(m, ts, k, by_raw_targets())
}

/// Append one source's nodes, edges and pathways.
fn gather_source(g: &mut Gathered, trace: &SourceTrace, source: &str)
    ensures
        fuse_nodes_view(final(g).nodes@) == fuse_nodes_view(old(g).nodes@) + trace_nodes(source@, *trace),
        fuse_edges_view(final(g).edges@) == fuse_edges_view(old(g).edges@) + trace_edges(source@, *trace),
        pathway_entries_view(final(g).pathways@) == pathway_entries_view(old(g).pathways@) + trace_pathways(source@, *trace),
        texts(final(g).raw_ids@) == texts(old(g).raw_ids@) + trace_raw_ids(*trace),
        texts(final(g).raw_targets@) == texts(old(g).raw_targets@) + trace_raw_targets(*trace),
{
    let ghost n0 = fuse_nodes_view(g.nodes@);
    let ghost e0 = fuse_edges_view(g.edges@);
    let ghost p0 = pathway_entries_view(g.pathways@);
    let ghost i0 = texts(g.raw_ids@);
    let ghost t0 = texts(g.raw_targets@);
    let ghost nested_e = trace.entries@.map_values(|n: TraceNode| node_edges_of(source@, n));
    let ghost nested_t = trace.entries@.map_values(|n: TraceNode| node_raw_targets(n));
    let mut i: usize = 0;
    while i < trace.entries.len()
        invariant
            i <= trace.entries.len(),
            nested_e == trace.entries@.map_values(|n: TraceNode| node_edges_of(source@, n)),
            nested_t == trace.entries@.map_values(|n: TraceNode| node_raw_targets(n)),
            fuse_nodes_view(g.nodes@) == n0 + trace_nodes(source@, *trace).take(i as int),
            texts(g.raw_ids@) == i0 + trace_raw_ids(*trace).take(i as int),
            fuse_edges_view(g.edges@) == e0 + nested_e.take(i as int).flatten(),
            texts(g.raw_targets@) == t0 + nested_t.take(i as int).flatten(),
            pathway_entries_view(g.pathways@) == p0,
        decreases trace.entries.len() - i,
    {
        let node = &trace.entries[i];
        let ghost eb = fuse_edges_view(g.edges@);
        let ghost tb = texts(g.raw_targets@);
        push_node_edges(&mut g.edges, &mut g.raw_targets, node, source);
        proof {
            assert(nested_e.take(i + 1) =~= nested_e.take(i as int).push(nested_e[i as int]));
            nested_e.take(i as int).lemma_flatten_push(nested_e[i as int]);
            assert(nested_t.take(i + 1) =~= nested_t.take(i as int).push(nested_t[i as int]));
            nested_t.take(i as int).lemma_flatten_push(nested_t[i as int]);
            assert(fuse_edges_view(g.edges@) =~= e0 + nested_e.take(i + 1).flatten());
            assert(texts(g.raw_targets@) =~= t0 + nested_t.take(i + 1).flatten());
        }
        let ghost nb = fuse_nodes_view(g.nodes@);
        let ghost ib = texts(g.raw_ids@);
        let fnode = FuseNode {
            id: qualified(source, node.id.as_str()),
            kind: qualified(source, node.kind.as_str()),
            attrs: copy_members(&node.attrs),
            provenance: attributed(&node.provenance, source),
        };
        assert(fnode@ == node_of(source@, *node));
        g.nodes.push(fnode);
        g.raw_ids.push(node.id.clone());
        proof {
            assert(fuse_nodes_view(g.nodes@) =~= nb.push(fnode@));
            assert(texts(g.raw_ids@) =~= ib.push(node.id@));
            assert(trace_nodes(source@, *trace).take(i + 1) =~= trace_nodes(source@, *trace).take(i as int).push(fnode@));
            assert(trace_raw_ids(*trace).take(i + 1) =~= trace_raw_ids(*trace).take(i as int).push(node.id@));
        }
        i += 1;
    }
    proof {
        assert(trace_nodes(source@, *trace).take(i as int) =~= trace_nodes(source@, *trace));
        assert(trace_raw_ids(*trace).take(i as int) =~= trace_raw_ids(*trace));
        assert(nested_e.take(i as int) =~= nested_e);
        assert(nested_t.take(i as int) =~= nested_t);
    }
    let mut p: usize = 0;
    while p < trace.pathways.len()
        invariant
            p <= trace.pathways.len(),
            pathway_entries_view(g.pathways@) == p0 + trace_pathways(source@, *trace).take(p as int),
            fuse_nodes_view(g.nodes@) == n0 + trace_nodes(source@, *trace),
            fuse_edges_view(g.edges@) == e0 + trace_edges(source@, *trace),
            texts(g.raw_ids@) == i0 + trace_raw_ids(*trace),
            texts(g.raw_targets@) == t0 + trace_raw_targets(*trace),
        decreases trace.pathways.len() - p,
    {
        let pw = &trace.pathways[p];
        let ghost pb = pathway_entries_view(g.pathways@);
        let entry = PathwayEntry {
            name: qualified(source, pw.name.as_str()),
            order: crate::graph::copy_strings(&pw.order),
            current: pw.current.clone(),
        };
        g.pathways.push(entry);
        assert(pathway_entries_view(g.pathways@) =~= pb.push(entry@));
        assert(trace_pathways(source@, *trace).take(p + 1) =~= trace_pathways(source@, *trace).take(p as int).push(entry@));
        p += 1;
    }
    assert(trace_pathways(source@, *trace).take(p as int) =~= trace_pathways(source@, *trace));
}

/// Gather every source's nodes, edges, pathways and findings, in manifest order.
fn gather(manifest: &Manifest, traces: &Vec<SourceTrace>, findings: &mut Vec<FuseFinding>) -> (g: Gathered)
    requires
        traces.len() == manifest.sources.len(),
        forall|i: int| 0 <= i < traces.len() ==> trace_severities_ok(#[trigger] traces@[i]),
    ensures
        gathered_holds(g, manifest@, traces@, traces.len() as nat),
        findings_view(final(findings)@) == findings_view(old(findings)@) + over_sources(
            manifest@,
            traces@,
            traces.len() as nat,
            by_findings(),
        ),
{
    let mut g = Gathered {
        nodes: Vec::new(),
        edges: Vec::new(),
        pathways: Vec::new(),
        raw_ids: Vec::new(),
        raw_targets: Vec::new(),
    };
    let ghost f0 = findings_view(findings@);
    let ghost m = manifest@;
    let ghost ts = traces@;
    proof {
        assert(Seq::new(0, |i: int| trace_nodes(m.sources[i].name, ts[i])) =~= Seq::<Seq<FuseNodeView>>::empty());
        assert(over_sources(m, ts, 0, by_nodes()) =~= Seq::<FuseNodeView>::empty());
        assert(over_sources(m, ts, 0, by_edges()) =~= Seq::<FuseEdgeView>::empty());
        assert(over_sources(m, ts, 0, by_pathways()) =~= Seq::<PathwayView>::empty());
        assert(over_sources(m, ts, 0, by_raw_ids()) =~= Seq::<Seq<char>>::empty());
        assert(over_sources(m, ts, 0, by_raw_targets()) =~= Seq::<Seq<char>>::empty());
        assert(over_sources(m, ts, 0, by_findings()) =~= Seq::<FuseFindingView>::empty());
        assert(fuse_nodes_view(g.nodes@) =~= Seq::<FuseNodeView>::empty());
        assert(fuse_edges_view(g.edges@) =~= Seq::<FuseEdgeView>::empty());
        assert(pathway_entries_view(g.pathways@) =~= Seq::<PathwayView>::empty());
        assert(texts(g.raw_ids@) =~= Seq::<Seq<char>>::empty());
        assert(texts(g.raw_targets@) =~= Seq::<Seq<char>>::empty());
    }
    let mut i: usize = 0;
    while i < traces.len()
        invariant
            i <= traces.len(),
            traces.len() == manifest.sources.len(),
            m == manifest@,
            ts == traces@,
            forall|q: int| 0 <= q < traces.len() ==> trace_severities_ok(#[trigger] traces@[q]),
            gathered_holds(g, m, ts, i as nat),
            findings_view(findings@) == f0 + over_sources(m, ts, i as nat, by_findings()),
        decreases traces.len() - i,
    {
        let source = manifest.sources[i].name.as_str();
        assert(m.sources[i as int].name == source@);
        let trace = &traces[i];
        gather_source(&mut g, trace, source);
        push_trace_findings(findings, trace, source);
        proof {
            lemma_over_sources_step(m, ts, i as nat, by_nodes());
            lemma_over_sources_step(m, ts, i as nat, by_edges());
            lemma_over_sources_step(m, ts, i as nat, by_pathways());
            lemma_over_sources_step(m, ts, i as nat, by_raw_ids());
            lemma_over_sources_step(m, ts, i as nat, by_raw_targets());
            lemma_over_sources_step(m, ts, i as nat, by_findings());
        }
        i += 1;
    }
    g
}


// ---------------------------------------------------------------- the fuse profile

/// The source-qualified kind pairs an edge kind admits.
pub struct EdgeDeclaration {
    pub allowed: Vec<(String, String)>,
}

/// The fuse profile: cross-source edge kinds and validations of the composed graph.
pub struct FuseProfile {
    /// Edge kinds in name order.
    pub edges: Vec<(String, EdgeDeclaration)>,
    /// Validation configs in declared order, null values left out.
    pub validations: Vec<(String, Vec<(String, JsonValue)>)>,
}

pub open spec fn pairs_of(d: EdgeDeclaration) -> Seq<(Seq<char>, Seq<char>)> {
    d.allowed@.map_values(|p: (String, String)| (p.0@, p.1@))
}

/// The severity a validation config sets, when it sets a wire spelling.
pub open spec fn config_severity(cfg: Vec<(String, JsonValue)>) -> Option<Severity> {
    match crate::json::lookup(members_view(cfg@), "severity"@) {
        Some(Json::Str(t)) => severity_of_text(t),
        _ => None,
    }
}

/// The severity the last of the first `k` validations for `code` sets.
pub open spec fn configured_severity(vs: Seq<(String, Vec<(String, JsonValue)>)>, code: Seq<char>, k: nat) -> Option<Severity>
    decreases k,
{
    if k == 0 || k > vs.len() {
        None
    } else if vs[k - 1].0@ == code && config_severity(vs[k - 1].1) is Some {
        config_severity(vs[k - 1].1)
    } else {
        configured_severity(vs, code, (k - 1) as nat)
    }
}

/// The severity a composed finding of `code` takes: the configured one, except
/// that nothing moves a finding out of `Hint`.
pub open spec fn fuse_severity(fp: FuseProfile, code: Seq<char>, default: Severity) -> Severity {
    match configured_severity(fp.validations@, code, fp.validations@.len()) {
        Some(s) => if default == Severity::Hint {
            default
        } else {
            s
        },
        None => default,
    }
}

impl FuseProfile {
    pub fn severity(&self, code: &str, default: Severity) -> (r: Severity)
        ensures
            r == fuse_severity(*self, code@, default),
    {
        let vs = &self.validations;
        let mut k: usize = vs.len();
        while k > 0
            invariant
                k <= vs.len(),
                vs@ == self.validations@,
                configured_severity(vs@, code@, vs@.len()) == configured_severity(vs@, code@, k as nat),
            decreases k,
        {
            let (c, cfg) = &vs[k - 1];
            if str_eq(c.as_str(), code) {
                let got = crate::json::get(cfg, "severity");
                let found = match got {
                    Some(JsonValue::Str(t)) => Severity::parse(t.as_str()),
                    _ => None,
                };
                proof {
                    match got {
                        Some(v) => {
                            assert(crate::json::lookup(members_view(cfg@), "severity"@) == Some(v.deep()));
                        },
                        None => {},
                    }
                    assert(found == config_severity(vs@[k - 1].1));
                }
                if let Some(s) = found {
                    let r = if default == Severity::Hint {
                        default
                    } else {
                        s
                    };
                    return r;
                }
            }
            k -= 1;
        }
        default
    }
}

// ---------------------------------------------------------------- duplicates

/// The indices below `k` at which `ids` holds `r`, in order.
pub open spec fn occ(ids: Seq<Seq<char>>, r: Seq<char>, k: nat) -> Seq<int>
    decreases k,
{
    if k == 0 || k > ids.len() {
        Seq::empty()
    } else if ids[k - 1] == r {
        occ(ids, r, (k - 1) as nat).push(k - 1)
    } else {
        occ(ids, r, (k - 1) as nat)
    }
}

/// The distinct values among the first `k`, in order of first occurrence.
pub open spec fn first_seen(ids: Seq<Seq<char>>, k: nat) -> Seq<Seq<char>>
    decreases k,
{
    if k == 0 || k > ids.len() {
        Seq::empty()
    } else if first_seen(ids, (k - 1) as nat).contains(ids[k - 1]) {
        first_seen(ids, (k - 1) as nat)
    } else {
        first_seen(ids, (k - 1) as nat).push(ids[k - 1])
    }
}

/// The places of the nodes at the given indices.
pub open spec fn places(nodes: Seq<FuseNodeView>, o: Seq<int>) -> Seq<FuseProvenanceView> {
    o.map_values(|i: int| nodes[i].provenance)
}

/// The finding for a raw node ID that more than one source declares.
pub open spec fn dup_finding(nodes: Seq<FuseNodeView>, ids: Seq<Seq<char>>, severity: Severity, r: Seq<char>) -> FuseFindingView {
    let locs = places(nodes, occ(ids, r, ids.len()));
    FuseFindingView {
        issue: crate::types::new_issue(
            severity,
            "CROSS_SOURCE_DUPLICATE_ID"@,
            "node ID '"@ + r + "' occurs in sources "@ + join(locs.map_values(|p: FuseProvenanceView| p.source), ", "@),
            locs[0].location,
            Some(r),
        ),
        source: None,
        locations: locs,
    }
}

/// The duplicate findings for the first `k` IDs of `order`.
pub open spec fn dup_findings(nodes: Seq<FuseNodeView>, ids: Seq<Seq<char>>, severity: Severity, order: Seq<Seq<char>>, k: nat) -> Seq<
    FuseFindingView,
>
    decreases k,
{
    if k == 0 || k > order.len() {
        Seq::empty()
    } else {
        dup_findings(nodes, ids, severity, order, (k - 1) as nat) + if occ(ids, order[k - 1], ids.len()).len() >= 2 {
            seq![dup_finding(nodes, ids, severity, order[k - 1])]
        } else {
            Seq::empty()
        }
    }
}

pub open spec fn index_view(o: Seq<usize>) -> Seq<int> {
    o.map_values(|i: usize| i as int)
}

/// Where `ids` holds `r`.
fn occurrences(ids: &Vec<String>, r: &str) -> (o: Vec<usize>)
    ensures
        index_view(o@) == occ(texts(ids@), r@, ids.len() as nat),
        forall|q: int| 0 <= q < o.len() ==> #[trigger] o@[q] < ids.len(),
{
    let ghost iv = texts(ids@);
    let mut o: Vec<usize> = Vec::new();
    let mut k: usize = 0;
    while k < ids.len()
        invariant
            k <= ids.len(),
            iv == texts(ids@),
            index_view(o@) == occ(iv, r@, k as nat),
            forall|q: int| 0 <= q < o.len() ==> #[trigger] o@[q] < k,
        decreases ids.len() - k,
    {
        assert(iv[k as int] == ids@[k as int]@);
        let ghost before = o@;
        if str_eq(ids[k].as_str(), r) {
            o.push(k);
            assert(index_view(o@) =~= index_view(before).push(k as int));
        }
        k += 1;
    }
    o
}

/// The distinct raw IDs, in order of first occurrence.
fn raw_order(ids: &Vec<String>) -> (r: Vec<String>)
    ensures
        texts(r@) == first_seen(texts(ids@), ids.len() as nat),
{
    let ghost iv = texts(ids@);
    let mut r: Vec<String> = Vec::new();
    let mut k: usize = 0;
    while k < ids.len()
        invariant
            k <= ids.len(),
            iv == texts(ids@),
            texts(r@) == first_seen(iv, k as nat),
        decreases ids.len() - k,
    {
        assert(iv[k as int] == ids@[k as int]@);
        if !crate::assoc::contains_text(&r, ids[k].as_str()) {
            let ghost before = texts(r@);
            r.push(ids[k].clone());
            assert(texts(r@) =~= before.push(iv[k as int]));
        }
        k += 1;
    }
    r
}

/// One finding per raw node ID that more than one source declares, in
/// order of first occurrence.
fn duplicate_findings(nodes: &Vec<FuseNode>, ids: &Vec<String>, severity: Severity) -> (r: Vec<FuseFinding>)
    requires
        nodes.len() == ids.len(),
    ensures
        findings_view(r@) == dup_findings(
            fuse_nodes_view(nodes@),
            texts(ids@),
            severity,
            first_seen(texts(ids@), ids.len() as nat),
            first_seen(texts(ids@), ids.len() as nat).len(),
        ),
{
    let ghost nv = fuse_nodes_view(nodes@);
    let ghost iv = texts(ids@);
    let order = raw_order(ids);
    let ghost ov = texts(order@);
    let mut out: Vec<FuseFinding> = Vec::new();
    let mut k: usize = 0;
    while k < order.len()
        invariant
            k <= order.len(),
            nodes.len() == ids.len(),
            nv == fuse_nodes_view(nodes@),
            iv == texts(ids@),
            ov == texts(order@),
            findings_view(out@) == dup_findings(nv, iv, severity, ov, k as nat),
        decreases order.len() - k,
    {
        let raw = order[k].as_str();
        assert(ov[k as int] == raw@);
        let o = occurrences(ids, raw);
        let ghost before = findings_view(out@);
        if o.len() >= 2 {
            let mut locations: Vec<FuseProvenance> = Vec::new();
            let mut names: Vec<String> = Vec::new();
            let mut q: usize = 0;
            while q < o.len()
                invariant
                    q <= o.len(),
                    nodes.len() == ids.len(),
                    forall|z: int| 0 <= z < o.len() ==> #[trigger] o@[z] < ids.len(),
                    nv == fuse_nodes_view(nodes@),
                    locations.len() == q,
                    names.len() == q,
                    forall|z: int| 0 <= z < q ==> (#[trigger] locations@[z])@ == nv[o@[z] as int].provenance,
                    forall|z: int| 0 <= z < q ==> (#[trigger] names@[z])@ == nv[o@[z] as int].provenance.source,
                decreases o.len() - q,
            {
                let at = o[q];
                assert(nv[at as int] == nodes@[at as int]@);
                locations.push(nodes[at].provenance.copy());
                names.push(nodes[at].provenance.source.clone());
                q += 1;
            }
            let ghost locs = places(nv, occ(iv, raw@, iv.len()));
            proof {
                assert(locations@.map_values(|p: FuseProvenance| p@) =~= locs);
                assert(texts(names@) =~= locs.map_values(|p: FuseProvenanceView| p.source));
            }
            let joined = join_texts(&names, ", ");
            let message = msg3("node ID '", raw, "' occurs in sources ");
            let mut message = message;
            push_str(&mut message, joined.as_str());
            let first = locations[0].location.copy();
            let issue = Issue::new(
                severity,
                "CROSS_SOURCE_DUPLICATE_ID",
                message,
                first,
                Some(order[k].clone()),
            );
            let f = FuseFinding { issue, source: None, locations };
            assert(f@ == dup_finding(nv, iv, severity, raw@));
            out.push(f);
            assert(findings_view(out@) =~= before + seq![f@]);
        } else {
            assert(findings_view(out@) =~= before + Seq::<FuseFindingView>::empty());
        }
        k += 1;
    }
    out
}


// ---------------------------------------------------------------- cross-source joins

/// Whether node `n` may be what edge `e` means: a kind pair its edge kind
/// admits, or, for an edge kind the fuse profile does not declare, a node of
/// the edge's own source.
pub open spec fn fits(fp_edges: Seq<(String, EdgeDeclaration)>, e: FuseEdgeView, n: FuseNodeView) -> bool {
    match assoc(fp_edges, e.kind) {
        Some(d) => pairs_of(d).contains((e.source_kind, n.kind)),
        None => n.provenance.source == e.provenance.source,
    }
}

/// The indices below `k` of the nodes declared under raw ID `raw` that fit `e`.
pub open spec fn fit_occ(
    nodes: Seq<FuseNodeView>,
    ids: Seq<Seq<char>>,
    fp_edges: Seq<(String, EdgeDeclaration)>,
    e: FuseEdgeView,
    raw: Seq<char>,
    k: nat,
) -> Seq<int>
    decreases k,
{
    if k == 0 || k > ids.len() {
        Seq::empty()
    } else if ids[k - 1] == raw && fits(fp_edges, e, nodes[k - 1]) {
        fit_occ(nodes, ids, fp_edges, e, raw, (k - 1) as nat).push(k - 1)
    } else {
        fit_occ(nodes, ids, fp_edges, e, raw, (k - 1) as nat)
    }
}

/// The edge with its target resolved, when exactly one node fits.
pub open spec fn resolve(e: FuseEdgeView, nodes: Seq<FuseNodeView>, m: Seq<int>) -> FuseEdgeView {
    if m.len() == 1 {
        FuseEdgeView {
            tgt: nodes[m[0]].id,
            target_kind: Some(nodes[m[0]].kind),
            target_source: Some(nodes[m[0]].provenance.source),
            ..e
        }
    } else {
        e
    }
}

/// The finding for an edge of a declared kind that no node, or more than
/// one, fits.
pub open spec fn join_findings(fp: FuseProfile, nodes: Seq<FuseNodeView>, e: FuseEdgeView, raw: Seq<char>, m: Seq<int>) -> Seq<
    FuseFindingView,
> {
    if m.len() != 1 && assoc(fp.edges@, e.kind) is Some {
        let (code, message, default) = if m.len() == 0 {
            (
                "VACANCY"@,
                "edge '"@ + e.src + "'->'"@ + raw + "' (kind '"@ + e.kind + "'): target '"@ + raw
                    + "' does not exist in an allowed source kind"@,
                spec_default_severity(FindingCode::Vacancy),
            )
        } else {
            (
                "AMBIGUOUS_CROSS_REF"@,
                "edge '"@ + e.src + "'->'"@ + raw + "' (kind '"@ + e.kind + "') matches "@ + nat_text(m.len())
                    + " allowed targets"@,
                Severity::Error,
            )
        };
        seq![
            FuseFindingView {
                issue: crate::types::new_issue(
                    fuse_severity(fp, code, default),
                    code,
                    message,
                    e.provenance.location,
                    Some(e.src),
                ),
                source: Some(e.provenance.source),
                locations: places(nodes, m),
            },
        ]
    } else {
        Seq::empty()
    }
}

/// The fitting nodes of edge `j`.
pub open spec fn edge_fits(
    fp: FuseProfile,
    nodes: Seq<FuseNodeView>,
    ids: Seq<Seq<char>>,
    es: Seq<FuseEdgeView>,
    raws: Seq<Seq<char>>,
    j: int,
) -> Seq<int> {
    fit_occ(nodes, ids, fp.edges@, es[j], raws[j], ids.len())
}

/// The join findings of the first `k` edges.
pub open spec fn joins_findings(
    fp: FuseProfile,
    nodes: Seq<FuseNodeView>,
    ids: Seq<Seq<char>>,
    es: Seq<FuseEdgeView>,
    raws: Seq<Seq<char>>,
    k: nat,
) -> Seq<FuseFindingView>
    decreases k,
{
    if k == 0 || k > es.len() {
        Seq::empty()
    } else {
        joins_findings(fp, nodes, ids, es, raws, (k - 1) as nat) + join_findings(
            fp,
            nodes,
            es[k - 1],
            raws[k - 1],
            edge_fits(fp, nodes, ids, es, raws, k - 1),
        )
    }
}

/// The edges with every target resolved that can be.
pub open spec fn resolved_edges(
    fp: FuseProfile,
    nodes: Seq<FuseNodeView>,
    ids: Seq<Seq<char>>,
    es: Seq<FuseEdgeView>,
    raws: Seq<Seq<char>>,
) -> Seq<FuseEdgeView> {
    Seq::new(es.len(), |j: int| resolve(es[j], nodes, edge_fits(fp, nodes, ids, es, raws, j)))
}

/// The nodes that fit an edge among the first `k`, when exactly one node in
/// all carries the edge's raw target ID and it fits.
proof fn lemma_fit_occ_single(
    nodes: Seq<FuseNodeView>,
    ids: Seq<Seq<char>>,
    fpe: Seq<(String, EdgeDeclaration)>,
    e: FuseEdgeView,
    raw: Seq<char>,
    i: int,
    k: nat,
)
    requires
        k <= ids.len(),
        0 <= i < ids.len(),
        ids[i] == raw,
        fits(fpe, e, nodes[i]),
        forall|m: int| 0 <= m < ids.len() && #[trigger] ids[m] == raw ==> m == i,
    ensures
        fit_occ(nodes, ids, fpe, e, raw, k) == (if i < k {
            seq![i]
        } else {
            Seq::<int>::empty()
        }),
    decreases k,
{
    if k > 0 {
        lemma_fit_occ_single(nodes, ids, fpe, e, raw, i, (k - 1) as nat);
        if i == k - 1 {
            assert(fit_occ(nodes, ids, fpe, e, raw, k) =~= seq![i]);
        } else if i < k - 1 {
            assert(ids[k - 1] != raw);
        } else {
            assert(ids[k - 1] != raw);
        }
    }
}

/// A cross-source edge of a declared kind whose raw target ID names exactly
/// one node, where the edge's source kind and that node's kind are a pair the
/// kind allows, resolves to that node: its target becomes the node's
/// qualified ID, with the node's kind and source; and composing reports no
/// join finding for it.
pub proof fn law_fuse_allowed_single_target_resolves(
    fp: FuseProfile,
    nodes: Seq<FuseNodeView>,
    ids: Seq<Seq<char>>,
    es: Seq<FuseEdgeView>,
    raws: Seq<Seq<char>>,
    j: int,
    i: int,
    q: int,
)
    requires
        nodes.len() == ids.len(),
        raws.len() == es.len(),
        0 <= j < es.len(),
        0 <= i < ids.len(),
        ids[i] == raws[j],
        forall|m: int| 0 <= m < ids.len() && #[trigger] ids[m] == raws[j] ==> m == i,
        assoc(fp.edges@, es[j].kind) is Some,
        0 <= q < assoc(fp.edges@, es[j].kind)->0.allowed.len(),
        assoc(fp.edges@, es[j].kind)->0.allowed@[q].0@ == es[j].source_kind,
        assoc(fp.edges@, es[j].kind)->0.allowed@[q].1@ == nodes[i].kind,
    ensures
        resolved_edges(fp, nodes, ids, es, raws)[j] == (FuseEdgeView {
            tgt: nodes[i].id,
            target_kind: Some(nodes[i].kind),
            target_source: Some(nodes[i].provenance.source),
            ..es[j]
        }),
        joins_findings(fp, nodes, ids, es, raws, (j + 1) as nat) == joins_findings(fp, nodes, ids, es, raws, j as nat),
{
    let d = assoc(fp.edges@, es[j].kind)->0;
    assert(pairs_of(d)[q] == (es[j].source_kind, nodes[i].kind));
    assert(pairs_of(d).contains((es[j].source_kind, nodes[i].kind)));
    assert(fits(fp.edges@, es[j], nodes[i]));
    lemma_fit_occ_single(nodes, ids, fp.edges@, es[j], raws[j], i, ids.len());
    let m = edge_fits(fp, nodes, ids, es, raws, j);
    assert(m =~= seq![i]);
    assert(join_findings(fp, nodes, es[j], raws[j], m) =~= Seq::<FuseFindingView>::empty());
    assert(joins_findings(fp, nodes, ids, es, raws, (j + 1) as nat) =~= joins_findings(fp, nodes, ids, es, raws, j as nat));
}

fn node_fits(fp: &FuseProfile, e: &FuseEdge, n: &FuseNode) -> (r: bool)
    ensures
        r == fits(fp.edges@, e@, n@),
{
    match assoc_get(&fp.edges, e.kind.as_str()) {
        Some(d) => {
            let mut i: usize = 0;
            while i < d.allowed.len()
                invariant
                    i <= d.allowed.len(),
                    assoc(fp.edges@, e@.kind) == Some(*d),
                    forall|k: int| 0 <= k < i ==> #[trigger] pairs_of(*d)[k] != (e@.source_kind, n@.kind),
                decreases d.allowed.len() - i,
            {
                if str_eq(d.allowed[i].0.as_str(), e.source_kind.as_str()) && str_eq(d.allowed[i].1.as_str(), n.kind.as_str()) {
                    assert(pairs_of(*d)[i as int] == (e@.source_kind, n@.kind));
                    return true;
                }
                i += 1;
            }
            false
        },
        None => str_eq(n.provenance.source.as_str(), e.provenance.source.as_str()),
    }
}

/// The nodes declared under `raw` that fit `e`.
fn fitting(fp: &FuseProfile, e: &FuseEdge, raw: &str, nodes: &Vec<FuseNode>, ids: &Vec<String>) -> (m: Vec<usize>)
    requires
        nodes.len() == ids.len(),
    ensures
        index_view(m@) == fit_occ(fuse_nodes_view(nodes@), texts(ids@), fp.edges@, e@, raw@, ids.len() as nat),
        forall|q: int| 0 <= q < m.len() ==> #[trigger] m@[q] < ids.len(),
{
    let ghost nv = fuse_nodes_view(nodes@);
    let ghost iv = texts(ids@);
    let mut m: Vec<usize> = Vec::new();
    let mut k: usize = 0;
    while k < ids.len()
        invariant
            k <= ids.len(),
            nodes.len() == ids.len(),
            nv == fuse_nodes_view(nodes@),
            iv == texts(ids@),
            index_view(m@) == fit_occ(nv, iv, fp.edges@, e@, raw@, k as nat),
            forall|q: int| 0 <= q < m.len() ==> #[trigger] m@[q] < k,
        decreases ids.len() - k,
    {
        assert(iv[k as int] == ids@[k as int]@);
        assert(nv[k as int] == nodes@[k as int]@);
        let ghost before = m@;
        if str_eq(ids[k].as_str(), raw) && node_fits(fp, e, &nodes[k]) {
            m.push(k);
            assert(index_view(m@) =~= index_view(before).push(k as int));
        }
        k += 1;
    }
    m
}

/// Resolve every edge whose target exactly one node fits, and report the
/// edges of declared kinds that none or several fit.
fn resolve_edges(
    edges: &mut Vec<FuseEdge>,
    raws: &Vec<String>,
    nodes: &Vec<FuseNode>,
    ids: &Vec<String>,
    fp: &FuseProfile,
) -> (r: Vec<FuseFinding>)
    requires
        old(edges).len() == raws.len(),
        nodes.len() == ids.len(),
    ensures
        fuse_edges_view(final(edges)@) == resolved_edges(
            *fp,
            fuse_nodes_view(nodes@),
            texts(ids@),
            fuse_edges_view(old(edges)@),
            texts(raws@),
        ),
        findings_view(r@) == joins_findings(
            *fp,
            fuse_nodes_view(nodes@),
            texts(ids@),
            fuse_edges_view(old(edges)@),
            texts(raws@),
            old(edges).len() as nat,
        ),
{
    let ghost nv = fuse_nodes_view(nodes@);
    let ghost iv = texts(ids@);
    let ghost ev = fuse_edges_view(edges@);
    let ghost rv = texts(raws@);
    let mut out: Vec<FuseFinding> = Vec::new();
    let mut j: usize = 0;
    while j < edges.len()
        invariant
            j <= edges.len(),
            edges.len() == raws.len(),
            ev.len() == edges.len(),
            nodes.len() == ids.len(),
            nv == fuse_nodes_view(nodes@),
            iv == texts(ids@),
            rv == texts(raws@),
            forall|q: int| 0 <= q < j ==> #[trigger] fuse_edges_view(edges@)[q] == resolve(ev[q], nv, edge_fits(*fp, nv, iv, ev, rv, q)),
            forall|q: int| j <= q < edges.len() ==> #[trigger] fuse_edges_view(edges@)[q] == ev[q],
            findings_view(out@) == joins_findings(*fp, nv, iv, ev, rv, j as nat),
        decreases edges.len() - j,
    {
        let raw = raws[j].as_str();
        assert(rv[j as int] == raw@);
        assert(fuse_edges_view(edges@)[j as int] == edges@[j as int]@);
        let m = fitting(fp, &edges[j], raw, nodes, ids);
        let ghost e = ev[j as int];
        let ghost mv = index_view(m@);
        assert(mv == edge_fits(*fp, nv, iv, ev, rv, j as int));
        let ghost before = findings_view(out@);
        if m.len() == 1 {
            let target = &nodes[m[0]];
            assert(nv[m@[0] as int] == target@);
            let ghost eb = fuse_edges_view(edges@);
            let mut edge = edges.remove(j);
            edge.tgt = target.id.clone();
            edge.target_kind = Some(target.kind.clone());
            edge.target_source = Some(target.provenance.source.clone());
            let ghost nev = edge@;
            edges.insert(j, edge);
            proof {
                assert(fuse_edges_view(edges@) =~= eb.update(j as int, nev));
                assert(nev == resolve(e, nv, mv));
            }
            assert(findings_view(out@) =~= before + join_findings(*fp, nv, e, raw@, mv));
        } else if assoc_get(&fp.edges, edges[j].kind.as_str()).is_some() {
            let edge = &edges[j];
            let mut locations: Vec<FuseProvenance> = Vec::new();
            let mut q: usize = 0;
            while q < m.len()
                invariant
                    q <= m.len(),
                    nodes.len() == ids.len(),
                    forall|z: int| 0 <= z < m.len() ==> #[trigger] m@[z] < ids.len(),
                    nv == fuse_nodes_view(nodes@),
                    locations.len() == q,
                    forall|z: int| 0 <= z < q ==> (#[trigger] locations@[z])@ == nv[m@[z] as int].provenance,
                decreases m.len() - q,
            {
                assert(nv[m@[q as int] as int] == nodes@[m@[q as int] as int]@);
                locations.push(nodes[m[q]].provenance.copy());
                q += 1;
            }
            assert(locations@.map_values(|p: FuseProvenance| p@) =~= places(nv, mv));
            let (code, message, default) = if m.len() == 0 {
                (
                    "VACANCY",
                    msg9(
                        "edge '",
                        edge.src.as_str(),
                        "'->'",
                        raw,
                        "' (kind '",
                        edge.kind.as_str(),
                        "'): target '",
                        raw,
                        "' does not exist in an allowed source kind",
                    ),
                    default_severity(FindingCode::Vacancy),
                )
            } else {
                let count = usize_text(m.len());
                (
                    "AMBIGUOUS_CROSS_REF",
                    msg9(
                        "edge '",
                        edge.src.as_str(),
                        "'->'",
                        raw,
                        "' (kind '",
                        edge.kind.as_str(),
                        "') matches ",
                        count.as_str(),
                        " allowed targets",
                    ),
                    Severity::Error,
                )
            };
            let severity = fp.severity(code, default);
            let issue = Issue::new(severity, code, message, edge.provenance.location.copy(), Some(edge.src.clone()));
            let f = FuseFinding { issue, source: Some(edge.provenance.source.clone()), locations };
            proof {
                assert(f@ == join_findings(*fp, nv, e, raw@, mv)[0]);
            }
            out.push(f);
            assert(findings_view(out@) =~= before + join_findings(*fp, nv, e, raw@, mv));
        } else {
            assert(findings_view(out@) =~= before + join_findings(*fp, nv, e, raw@, mv));
        }
        j += 1;
    }
    assert(fuse_edges_view(edges@) =~= resolved_edges(*fp, nv, iv, ev, rv));
    out
}


// ---------------------------------------------------------------- validating the composition

/// A YAML value holds what a JSON value holds: the same variant and scalars,
/// the items in order, the members in order under their names as string keys.
pub open spec fn yaml_holds(y: YamlValue, j: JsonValue) -> bool
    decreases j, 0nat,
{
    match j {
        JsonValue::Null => y is Null,
        JsonValue::Bool(b) => y == YamlValue::Bool(b),
        JsonValue::Int(n) => y == YamlValue::Int(n),
        JsonValue::Float(t) => y matches YamlValue::Float(u) && u@ == t@,
        JsonValue::Str(t) => y matches YamlValue::Str(u) && u@ == t@,
        JsonValue::Array(xs) => y matches YamlValue::List(ys) && ys@.len() == xs@.len() && items_hold(ys@, xs@, xs@.len()),
        JsonValue::Object(ms) => y matches YamlValue::Mapping(es) && es@.len() == ms@.len() && entries_hold(
            es@,
            ms@,
            ms@.len(),
        ),
    }
}

/// The first `n` items hold the first `n` JSON items.
pub open spec fn items_hold(ys: Seq<YamlValue>, xs: Seq<JsonValue>, n: nat) -> bool
    decreases xs, n,
{
    if n == 0 || n > xs.len() {
        true
    } else {
        items_hold(ys, xs, (n - 1) as nat) && yaml_holds(ys[n - 1], xs[n - 1])
    }
}

/// The first `n` entries hold the first `n` JSON members.
pub open spec fn entries_hold(es: Seq<YamlEntry>, ms: Seq<(String, JsonValue)>, n: nat) -> bool
    decreases ms, n,
{
    if n == 0 || n > ms.len() {
        true
    } else {
        &&& entries_hold(es, ms, (n - 1) as nat)
        &&& es[n - 1].key_text@ == ms[n - 1].0@
        &&& es[n - 1].key matches YamlValue::Str(k) && k@ == ms[n - 1].0@
        &&& yaml_holds(es[n - 1].value, ms[n - 1].1)
    }
}

proof fn lemma_items_hold_push(ys: Seq<YamlValue>, y: YamlValue, xs: Seq<JsonValue>, n: nat)
    requires
        n <= ys.len(),
    ensures
        items_hold(ys.push(y), xs, n) == items_hold(ys, xs, n),
    decreases n,
{
    if n > 0 && n <= xs.len() {
        lemma_items_hold_push(ys, y, xs, (n - 1) as nat);
        assert(ys.push(y)[n - 1] == ys[n - 1]);
    }
}

proof fn lemma_entries_hold_push(es: Seq<YamlEntry>, e: YamlEntry, ms: Seq<(String, JsonValue)>, n: nat)
    requires
        n <= es.len(),
    ensures
        entries_hold(es.push(e), ms, n) == entries_hold(es, ms, n),
    decreases n,
{
    if n > 0 && n <= ms.len() {
        lemma_entries_hold_push(es, e, ms, (n - 1) as nat);
        assert(es.push(e)[n - 1] == es[n - 1]);
    }
}

/// The YAML form of a JSON value, by value: the same scalars, items in
/// order, members in order under their names as string keys.
pub open spec fn json_yaml(j: Json) -> YamlModel
    decreases j, 0nat,
{
    match j {
        Json::Null => YamlModel::Null,
        Json::Bool(b) => YamlModel::Bool(b),
        Json::Int(n) => YamlModel::Int(n),
        Json::Float(t) => YamlModel::Float(t),
        Json::Str(t) => YamlModel::Str(t),
        Json::Array(items) => YamlModel::List(json_yaml_items(items, items.len())),
        Json::Object(ms) => YamlModel::Mapping(json_yaml_members(ms, ms.len())),
    }
}

/// The YAML forms of the first `n` items.
pub open spec fn json_yaml_items(items: Seq<Json>, n: nat) -> Seq<YamlModel>
    decreases items, n,
{
    if n == 0 || n > items.len() {
        Seq::empty()
    } else {
        json_yaml_items(items, (n - 1) as nat).push(json_yaml(items[n - 1]))
    }
}

/// The YAML forms of the first `n` members, as entries under string keys.
pub open spec fn json_yaml_members(ms: Seq<(Seq<char>, Json)>, n: nat) -> Seq<(YamlModel, Seq<char>, YamlModel)>
    decreases ms, n,
{
    if n == 0 || n > ms.len() {
        Seq::empty()
    } else {
        proof {
            assert(decreases_to!(ms => ms[n - 1]));
        }
        json_yaml_members(ms, (n - 1) as nat).push((YamlModel::Str(ms[n - 1].0), ms[n - 1].0, json_yaml(ms[n - 1].1)))
    }
}

proof fn lemma_json_yaml_items(d: Seq<Json>, n: nat)
    requires
        n <= d.len(),
    ensures
        json_yaml_items(d, n).len() == n,
        forall|k: int| 0 <= k < n ==> #[trigger] json_yaml_items(d, n)[k] == json_yaml(d[k]),
    decreases n,
{
    if n > 0 {
        lemma_json_yaml_items(d, (n - 1) as nat);
    }
}

proof fn lemma_json_yaml_members(ms: Seq<(Seq<char>, Json)>, n: nat)
    requires
        n <= ms.len(),
    ensures
        json_yaml_members(ms, n).len() == n,
        forall|k: int| 0 <= k < n ==> #[trigger] json_yaml_members(ms, n)[k] == (YamlModel::Str(ms[k].0), ms[k].0, json_yaml(ms[k].1)),
    decreases n,
{
    if n > 0 {
        lemma_json_yaml_members(ms, (n - 1) as nat);
    }
}

proof fn lemma_items_model(s: Seq<YamlValue>, n: nat)
    requires
        n <= s.len(),
    ensures
        items_model(s, n).len() == n,
        forall|k: int| 0 <= k < n ==> #[trigger] items_model(s, n)[k] == s[k].model(),
    decreases n,
{
    if n > 0 {
        lemma_items_model(s, (n - 1) as nat);
    }
}

/// A JSON value as YAML holds it.
pub fn yaml_of_json(v: &JsonValue) -> (r: YamlValue)
    ensures
        yaml_holds(r, *v),
        r.model() == json_yaml(v.deep()),
    decreases v,
{
    match v {
        JsonValue::Null => YamlValue::Null,
        JsonValue::Bool(b) => YamlValue::Bool(*b),
        JsonValue::Int(n) => YamlValue::Int(*n),
        JsonValue::Float(t) => YamlValue::Float(copy_str(t.as_str())),
        JsonValue::Str(t) => YamlValue::Str(copy_str(t.as_str())),
        JsonValue::Array(items) => {
            let mut out: Vec<YamlValue> = Vec::new();
            let mut i: usize = 0;
            #[verifier::loop_isolation(false)]
            while i < items.len()
                invariant
                    i <= items.len(),
                    out@.len() == i,
                    items_hold(out@, items@, i as nat),
                    forall|k: int| 0 <= k < i ==> (#[trigger] out@[k]).model() == json_yaml(items@[k].deep()),
                decreases items.len() - i,
            {
                assert(decreases_to!(*v => *items));
                assert(decreases_to!(*items => items@[i as int]));
                let y = yaml_of_json(&items[i]);
                proof {
                    lemma_items_hold_push(out@, y, items@, i as nat);
                }
                out.push(y);
                i += 1;
            }
            proof {
                let d = crate::json::deep_items(items@, items@.len());
                crate::json::lemma_items(items@, items@.len());
                lemma_json_yaml_items(d, d.len());
                lemma_items_model(out@, out@.len());
                assert(items_model(out@, out@.len()) =~= json_yaml_items(d, d.len()));
                assert(v.deep() == Json::Array(d));
            }
            YamlValue::List(out)
        },
        JsonValue::Object(ms) => {
            let es = yaml_entries(ms);
            proof {
                crate::json::lemma_members(ms@, ms@.len());
            }
            assert(v.deep() == Json::Object(members_view(ms@)));
            YamlValue::Mapping(es)
        },
    }
}

/// JSON members as YAML entries under string keys, in order.
fn yaml_entries(ms: &Vec<(String, JsonValue)>) -> (r: Vec<YamlEntry>)
    ensures
        r@.len() == ms@.len(),
        entries_hold(r@, ms@, ms@.len()),
        mapping_model(r@) == json_yaml_members(members_view(ms@), ms@.len()),
    decreases ms,
{
    let mut out: Vec<YamlEntry> = Vec::new();
    let mut i: usize = 0;
    while i < ms.len()
        invariant
            i <= ms.len(),
            out@.len() == i,
            entries_hold(out@, ms@, i as nat),
            forall|k: int|
                0 <= k < i ==> ((#[trigger] out@[k]).key.model(), out@[k].key_text@, out@[k].value.model()) == (
                    YamlModel::Str(ms@[k].0@),
                    ms@[k].0@,
                    json_yaml(ms@[k].1.deep()),
                ),
        decreases ms.len() - i,
    {
        assert(decreases_to!(*ms => ms@[i as int]));
        assert(decreases_to!(ms@[i as int] => ms@[i as int].1));
        let value = yaml_of_json(&ms[i].1);
        let e = YamlEntry::new(ms[i].0.as_str(), value);
        proof {
            lemma_entries_hold_push(out@, e, ms@, i as nat);
        }
        out.push(e);
        i += 1;
    }
    proof {
        crate::json::lemma_members(ms@, ms@.len());
        lemma_json_yaml_members(members_view(ms@), ms@.len());
        lemma_entries_model(out@, out@.len());
        assert(mapping_model(out@) =~= json_yaml_members(members_view(ms@), ms@.len()));
    }
    out
}

/// The nodes the composed graph declares.
pub open spec fn composed_node_views(nodes: Seq<FuseNodeView>) -> Seq<NodeView> {
    nodes.map_values(|n: FuseNodeView| NodeView { id: n.id, kind: n.kind, attrs: n.attrs, provenance: n.provenance.location })
}

/// The edges of the first `k` whose targets were resolved, as the composed graph holds them.
pub open spec fn composed_edge_views(es: Seq<FuseEdgeView>, k: nat) -> Seq<EdgeView>
    decreases k,
{
    if k == 0 || k > es.len() {
        Seq::empty()
    } else if es[k - 1].target_kind is Some {
        composed_edge_views(es, (k - 1) as nat).push(
            EdgeView {
                src: es[k - 1].src,
                tgt: es[k - 1].tgt,
                kind: es[k - 1].kind,
                attrs: es[k - 1].attrs,
                provenance: es[k - 1].provenance.location,
            },
        )
    } else {
        composed_edge_views(es, (k - 1) as nat)
    }
}

/// The source a finding about `node_id` belongs to: that of the first
/// composed node with the ID.
pub open spec fn source_of(nodes: Seq<FuseNodeView>, node_id: Option<Seq<char>>) -> Option<Seq<char>> {
    match node_id {
        Some(id) => match crate::seqs::first_index(nodes, |n: FuseNodeView| n.id == id) {
            Some(i) => Some(nodes[i].provenance.source),
            None => None,
        },
        None => None,
    }
}

/// A validation finding of the composed graph, with its source.
pub open spec fn validation_finding(nodes: Seq<FuseNodeView>, i: IssueView) -> FuseFindingView {
    FuseFindingView { issue: i, source: source_of(nodes, i.node_id), locations: Seq::empty() }
}

/// The COVERAGE configurations that name an edge kind the fuse profile does
/// not declare, each as a configuration error, among the first `k`.
pub open spec fn coverage_refusals(fp: FuseProfile, k: nat) -> Seq<FuseFindingView>
    decreases k,
{
    if k == 0 || k > fp.validations@.len() {
        Seq::empty()
    } else {
        coverage_refusals(fp, (k - 1) as nat) + match coverage_edge_kind(fp.validations@[k - 1]) {
            Some(ek) => if assoc(fp.edges@, ek) is None {
                seq![
                    FuseFindingView {
                        issue: crate::types::new_issue(
                            spec_default_severity(FindingCode::ConfigError),
                            "CONFIG_ERROR"@,
                            "COVERAGE: edge_kind '"@ + ek + "' is not declared in fuse edge_kinds"@,
                            ProvenanceView { file: "<fuse-profile>"@, line: 0 },
                            None,
                        ),
                        source: None,
                        locations: Seq::empty(),
                    },
                ]
            } else {
                Seq::empty()
            },
            None => Seq::empty(),
        }
    }
}

/// The edge kind a COVERAGE configuration names, when it names one as text.
pub open spec fn coverage_edge_kind(v: (String, Vec<(String, JsonValue)>)) -> Option<Seq<char>> {
    if v.0@ == "COVERAGE"@ {
        match crate::json::lookup(members_view(v.1@), "edge_kind"@) {
            Some(Json::Str(t)) => Some(t),
            _ => None,
        }
    } else {
        None
    }
}

/// The composed graph `g` holds the report's nodes and its resolved edges,
/// and `iss` is what standard validation reports of it against a loaded
/// profile, in reporting order.
pub open spec fn validated(
    nodes: Seq<FuseNodeView>,
    es: Seq<FuseEdgeView>,
    g: LatticeGraph,
    p: Profile,
    iss: Seq<IssueView>,
    doc: YamlModel,
) -> bool {
    &&& g.wf()
    &&& p.wf()
    &&& p.spec_raw().model() == doc
    &&& g.spec_nodes() == composed_node_views(nodes)
    &&& g.spec_edges() == composed_edge_views(es, es.len())
    &&& crate::types::issues_sorted(iss)
    &&& iss.to_multiset() == crate::validate::spec_validate(g, p, false).to_multiset()
}

/// The text before the first `:`, where there is one.
pub open spec fn kind_source_of(k: Seq<char>) -> Option<Seq<char>> {
    match crate::seqs::first_index(k, |c: char| c == ':') {
        Some(i) => Some(k.take(i)),
        None => None,
    }
}

/// The source-qualified kind's source: the text before its first `:`.
fn kind_source(kind: &str) -> (r: Option<String>)
    ensures
        opt_view(r) == kind_source_of(kind@),
{
    let v = crate::text::chars_of(kind);
    let mut i: usize = 0;
    while i < v.len()
        invariant
            i <= v.len(),
            v@ == kind@,
            forall|k: int| 0 <= k < i ==> !((|c: char| c == ':')(#[trigger] v@[k])),
        decreases v.len() - i,
    {
        if v[i] == ':' {
            proof {
                crate::seqs::lemma_first_index_at(v@, |c: char| c == ':', i as int);
            }
            let r = crate::text::string_of_range(&v, 0, i);
            assert(r@ =~= kind@.take(i as int));
            return Some(r);
        }
        i += 1;
    }
    proof {
        crate::seqs::lemma_first_index_at(v@, |c: char| c == ':', i as int);
    }
    None
}

/// An entry under the string key `key` holding `v`.
pub open spec fn entry_is(e: YamlEntry, key: Seq<char>, v: YamlValue) -> bool {
    &&& e.key_text@ == key
    &&& e.key matches YamlValue::Str(k) && k@ == key
    &&& e.value == v
}

/// A node kind's declaration: `{id_pattern: pattern, orphan_ok: true}`.
pub open spec fn is_kind_doc(y: YamlValue, pattern: Seq<char>) -> bool {
    y matches YamlValue::Mapping(m) && m@.len() == 2 && m@[0].key_text@ == "id_pattern"@ && (m@[0].key matches YamlValue::Str(
        k,
    ) && k@ == "id_pattern"@) && (m@[0].value matches YamlValue::Str(p) && p@ == pattern) && entry_is(
        m@[1],
        "orphan_ok"@,
        YamlValue::Bool(true),
    )
}

fn node_kind_doc(pattern: &str) -> (r: YamlValue)
    ensures
        is_kind_doc(r, pattern@),
{
    let mut m: Vec<YamlEntry> = Vec::new();
    m.push(YamlEntry::new("id_pattern", YamlValue::Str(copy_str(pattern))));
    m.push(YamlEntry::new("orphan_ok", YamlValue::Bool(true)));
    YamlValue::Mapping(m)
}

/// Where `key` goes in a mapping kept in key order: the first entry whose
/// key does not sort before it, else the end.
pub open spec fn entry_not_before(key: Seq<char>) -> spec_fn(YamlEntry) -> bool {
    |e: YamlEntry| !crate::text::text_lt(e.key_text@, key)
}

pub open spec fn doc_index(m: Seq<YamlEntry>, key: Seq<char>) -> int {
    match crate::seqs::first_index(m, entry_not_before(key)) {
        Some(i) => i,
        None => m.len() as int,
    }
}

/// `m` after `map.insert(key, v)` on a mapping kept in key order: the entry
/// under `key` replaced in place, or a new one placed where its key sorts.
pub open spec fn doc_put_holds(after: Seq<YamlEntry>, before: Seq<YamlEntry>, key: Seq<char>, v: YamlValue) -> bool {
    let i = doc_index(before, key);
    if i < before.len() && before[i].key_text@ == key {
        &&& after.len() == before.len()
        &&& forall|j: int| 0 <= j < before.len() && j != i ==> #[trigger] after[j] == before[j]
        &&& entry_is(after[i], key, v)
    } else {
        &&& after.len() == before.len() + 1
        &&& forall|j: int| 0 <= j < i ==> #[trigger] after[j] == before[j]
        &&& entry_is(after[i], key, v)
        &&& forall|j: int| i < j < after.len() ==> #[trigger] after[j] == before[j - 1]
    }
}

/// What a three-way comparison answering `1` says: the first text sorts after.
proof fn lemma_after_not_before(a: Seq<char>, b: Seq<char>)
    requires
        crate::text::text_lt(b, a),
    ensures
        !crate::text::text_lt(a, b),
{
    if crate::text::text_lt(a, b) {
        crate::text::lemma_text_lt_transitive(a, b, a);
        crate::text::lemma_text_lt_irreflexive(a);
    }
}

/// An entry under a text key, by value.
pub open spec fn keyed_model(k: Seq<char>, v: YamlModel) -> (YamlModel, Seq<char>, YamlModel) {
    (YamlModel::Str(k), k, v)
}

/// Whether an entry's key text does not sort before `key`.
pub open spec fn model_not_before(key: Seq<char>) -> spec_fn((YamlModel, Seq<char>, YamlModel)) -> bool {
    |e: (YamlModel, Seq<char>, YamlModel)| !crate::text::text_lt(e.1, key)
}

/// Where `key` goes among entries kept in key order.
pub open spec fn model_index(ms: Seq<(YamlModel, Seq<char>, YamlModel)>, key: Seq<char>) -> int {
    match crate::seqs::first_index(ms, model_not_before(key)) {
        Some(i) => i,
        None => ms.len() as int,
    }
}

/// Entries kept in key order after `key` is given `v`: the entry under `key`
/// replaced in place, or a new one placed where its key sorts.
pub open spec fn put_model(ms: Seq<(YamlModel, Seq<char>, YamlModel)>, key: Seq<char>, v: YamlModel) -> Seq<
    (YamlModel, Seq<char>, YamlModel),
> {
    let i = model_index(ms, key);
    if i < ms.len() && ms[i].1 == key {
        ms.update(i, keyed_model(key, v))
    } else {
        ms.insert(i, keyed_model(key, v))
    }
}

/// `map.insert(key, value)` on a mapping kept in key order.
fn doc_put(m: &mut Vec<YamlEntry>, key: &str, value: YamlValue)
    ensures
        doc_put_holds(final(m)@, old(m)@, key@, value),
        mapping_model(final(m)@) == put_model(mapping_model(old(m)@), key@, value.model()),
{
    let ghost before = m@;
    let ghost p = entry_not_before(key@);
    let mut i: usize = 0;
    while i < m.len()
        invariant
            i <= m.len(),
            m@ == before,
            p == entry_not_before(key@),
            forall|k: int| 0 <= k < i ==> !p(#[trigger] before[k]),
        ensures
            i <= m.len(),
            m@ == before,
            forall|k: int| 0 <= k < i ==> !p(#[trigger] before[k]),
            i < m.len() ==> p(before[i as int]),
        decreases m.len() - i,
    {
        let order = crate::text::compare_text(m[i].key_text.as_str(), key);
        if order == 0 {
            proof {
                crate::text::lemma_text_lt_irreflexive(key@);
            }
            break;
        }
        if order == 1 {
            proof {
                lemma_after_not_before(m@[i as int].key_text@, key@);
            }
            break;
        }
        proof {
            crate::text::lemma_text_lt_total(m@[i as int].key_text@, key@);
        }
        i += 1;
    }
    let ghost mb = mapping_model(before);
    proof {
        crate::seqs::lemma_first_index_at(before, p, i as int);
        assert(doc_index(before, key@) == i);
        lemma_entries_model(before, before.len());
        assert forall|k: int| 0 <= k < i implies !model_not_before(key@)(#[trigger] mb[k]) by {
            assert(!p(before[k]));
        }
        if i < before.len() {
            assert(p(before[i as int]));
        }
        crate::seqs::lemma_first_index_at(mb, model_not_before(key@), i as int);
        assert(model_index(mb, key@) == i);
    }
    let e = YamlEntry::new(key, value);
    assert(entry_is(e, key@, value));
    let ghost em = keyed_model(key@, value.model());
    if i < m.len() && str_eq(m[i].key_text.as_str(), key) {
        m.set(i, e);
        assert(m@ =~= before.update(i as int, e));
        proof {
            lemma_entries_model(m@, m@.len());
            assert(mapping_model(m@) =~= mb.update(i as int, em));
        }
    } else {
        m.insert(i, e);
        assert(m@ =~= before.insert(i as int, e));
        assert forall|j: int| i < j < m@.len() implies #[trigger] m@[j] == before[j - 1] by {}
        proof {
            lemma_entries_model(m@, m@.len());
            assert(mapping_model(m@) =~= mb.insert(i as int, em));
        }
    }
}

/// Whether a mapping holds `key`.
fn doc_has(m: &Vec<YamlEntry>, key: &str) -> (r: bool)
    ensures
        r == exists|j: int| 0 <= j < m@.len() && (#[trigger] m@[j]).key_text@ == key@,
{
    let mut i: usize = 0;
    while i < m.len()
        invariant
            i <= m.len(),
            forall|j: int| 0 <= j < i ==> (#[trigger] m@[j]).key_text@ != key@,
        decreases m.len() - i,
    {
        if str_eq(m[i].key_text.as_str(), key) {
            return true;
        }
        i += 1;
    }
    false
}

pub open spec fn kind_not_before(kind: Seq<char>) -> spec_fn((String, Vec<(String, String)>)) -> bool {
    |e: (String, Vec<(String, String)>)| !crate::text::text_lt(e.0@, kind)
}

/// Where `kind` goes among kinds kept in name order.
pub open spec fn pair_index(pairs: Seq<(String, Vec<(String, String)>)>, kind: Seq<char>) -> int {
    match crate::seqs::first_index(pairs, kind_not_before(kind)) {
        Some(i) => i,
        None => pairs.len() as int,
    }
}

/// Whether a list of pairs holds `pair`.
pub open spec fn has_pair(list: Seq<(String, String)>, pair: (Seq<char>, Seq<char>)) -> bool {
    exists|k: int| 0 <= k < list.len() && (#[trigger] list[k]).0@ == pair.0 && list[k].1@ == pair.1
}

/// The pairs under `kind` grown by `pair` when not already there; a kind not
/// yet listed is placed where its name sorts, with `pair` alone.
pub open spec fn pair_push_holds(
    after: Seq<(String, Vec<(String, String)>)>,
    before: Seq<(String, Vec<(String, String)>)>,
    kind: Seq<char>,
    pair: (String, String),
) -> bool {
    let i = pair_index(before, kind);
    if i < before.len() && before[i].0@ == kind {
        &&& after.len() == before.len()
        &&& forall|j: int| 0 <= j < before.len() && j != i ==> #[trigger] after[j] == before[j]
        &&& after[i].0 == before[i].0
        &&& after[i].1@ == if has_pair(before[i].1@, (pair.0@, pair.1@)) {
            before[i].1@
        } else {
            before[i].1@.push(pair)
        }
    } else {
        &&& after.len() == before.len() + 1
        &&& forall|j: int| 0 <= j < i ==> #[trigger] after[j] == before[j]
        &&& after[i].0@ == kind
        &&& after[i].1@ == seq![pair]
        &&& forall|j: int| i < j < after.len() ==> #[trigger] after[j] == before[j - 1]
    }
}

/// The pairs each edge kind admits, by value.
pub open spec fn pairs_model(s: Seq<(String, Vec<(String, String)>)>) -> Seq<(Seq<char>, Seq<(Seq<char>, Seq<char>)>)> {
    s.map_values(|e: (String, Vec<(String, String)>)| (e.0@, text_pairs(e.1@)))
}

/// Whether a kind's name does not sort before `kind`.
pub open spec fn pair_not_before(kind: Seq<char>) -> spec_fn((Seq<char>, Seq<(Seq<char>, Seq<char>)>)) -> bool {
    |e: (Seq<char>, Seq<(Seq<char>, Seq<char>)>)| !crate::text::text_lt(e.0, kind)
}

/// The kinds' pairs after `pair` is observed under `kind`: appended to the
/// kind's pairs when not already there; a kind not yet listed is placed where
/// its name sorts, with `pair` alone.
pub open spec fn push_pair_model(
    pv: Seq<(Seq<char>, Seq<(Seq<char>, Seq<char>)>)>,
    kind: Seq<char>,
    pair: (Seq<char>, Seq<char>),
) -> Seq<(Seq<char>, Seq<(Seq<char>, Seq<char>)>)> {
    let i = match crate::seqs::first_index(pv, pair_not_before(kind)) {
        Some(i) => i,
        None => pv.len() as int,
    };
    if i < pv.len() && pv[i].0 == kind {
        pv.update(i, (kind, if pv[i].1.contains(pair) {
            pv[i].1
        } else {
            pv[i].1.push(pair)
        }))
    } else {
        pv.insert(i, (kind, seq![pair]))
    }
}

/// The pairs each edge kind admits, grown by the resolved edges' observed pairs.
fn pair_push(pairs: &mut Vec<(String, Vec<(String, String)>)>, kind: &str, pair: (String, String))
    ensures
        pair_push_holds(final(pairs)@, old(pairs)@, kind@, pair),
        pairs_model(final(pairs)@) == push_pair_model(pairs_model(old(pairs)@), kind@, (pair.0@, pair.1@)),
{
    let ghost before = pairs@;
    let ghost p = kind_not_before(kind@);
    let mut i: usize = 0;
    while i < pairs.len()
        invariant
            i <= pairs.len(),
            pairs@ == before,
            p == kind_not_before(kind@),
            forall|k: int| 0 <= k < i ==> !p(#[trigger] before[k]),
        ensures
            i <= pairs.len(),
            pairs@ == before,
            forall|k: int| 0 <= k < i ==> !p(#[trigger] before[k]),
            i < pairs.len() ==> p(before[i as int]),
        decreases pairs.len() - i,
    {
        let order = crate::text::compare_text(pairs[i].0.as_str(), kind);
        if order == 0 {
            proof {
                crate::text::lemma_text_lt_irreflexive(kind@);
            }
            break;
        }
        if order == 1 {
            proof {
                lemma_after_not_before(pairs@[i as int].0@, kind@);
            }
            break;
        }
        proof {
            crate::text::lemma_text_lt_total(pairs@[i as int].0@, kind@);
        }
        i += 1;
    }
    let ghost pm = pairs_model(before);
    let ghost pr = (pair.0@, pair.1@);
    proof {
        crate::seqs::lemma_first_index_at(before, p, i as int);
        assert(pair_index(before, kind@) == i);
        assert forall|k: int| 0 <= k < i implies !pair_not_before(kind@)(#[trigger] pm[k]) by {
            assert(!p(before[k]));
        }
        if i < before.len() {
            assert(p(before[i as int]));
        }
        crate::seqs::lemma_first_index_at(pm, pair_not_before(kind@), i as int);
    }
    if i < pairs.len() && str_eq(pairs[i].0.as_str(), kind) {
        let (name, mut list) = pairs.remove(i);
        let ghost old_list = list@;
        let mut present = false;
        let mut k: usize = 0;
        while k < list.len()
            invariant
                k <= list.len(),
                list@ == old_list,
                present == exists|q: int| 0 <= q < k && (#[trigger] old_list[q]).0@ == pair.0@ && old_list[q].1@ == pair.1@,
            decreases list.len() - k,
        {
            if str_eq(list[k].0.as_str(), pair.0.as_str()) && str_eq(list[k].1.as_str(), pair.1.as_str()) {
                present = true;
            }
            k += 1;
        }
        assert(present == has_pair(old_list, (pair.0@, pair.1@)));
        assert(name == before[i as int].0 && old_list == before[i as int].1@);
        if !present {
            list.push(pair);
        }
        let ghost nl = list@;
        pairs.insert(i, (name, list));
        assert(pairs@ =~= before.update(i as int, (name, list)));
        assert forall|j: int| 0 <= j < before.len() && j != i implies #[trigger] pairs@[j] == before[j] by {}
        assert(pairs@[i as int].1@ == nl);
        proof {
            assert(has_pair(old_list, pr) == text_pairs(old_list).contains(pr)) by {
                if has_pair(old_list, pr) {
                    let q = choose|q: int| 0 <= q < old_list.len() && (#[trigger] old_list[q]).0@ == pr.0 && old_list[q].1@ == pr.1;
                    assert(text_pairs(old_list)[q] == pr);
                }
                if text_pairs(old_list).contains(pr) {
                    let q = choose|q: int| 0 <= q < text_pairs(old_list).len() && text_pairs(old_list)[q] == pr;
                    assert(old_list[q].0@ == pr.0);
                }
            }
            if !present {
                assert(text_pairs(nl) =~= text_pairs(old_list).push(pr));
            }
            assert(pairs_model(pairs@) =~= push_pair_model(pm, kind@, pr));
        }
    } else {
        let mut list: Vec<(String, String)> = Vec::new();
        list.push(pair);
        let entry = (copy_str(kind), list);
        assert(entry.1@ == seq![pair]);
        pairs.insert(i, entry);
        assert(pairs@ =~= before.insert(i as int, entry));
        assert forall|j: int| i < j < pairs@.len() implies #[trigger] pairs@[j] == before[j - 1] by {}
        proof {
            assert(text_pairs(entry.1@) =~= seq![pr]);
            assert(pairs_model(pairs@) =~= push_pair_model(pm, kind@, pr));
        }
    }
}

/// The first composed node's source for a finding's node ID.
fn finding_source(nodes: &Vec<FuseNode>, node_id: &Option<String>) -> (r: Option<String>)
    ensures
        opt_view(r) == source_of(fuse_nodes_view(nodes@), opt_view(*node_id)),
{
    match node_id {
        Some(id) => {
            let ghost nv = fuse_nodes_view(nodes@);
            let ghost p = |n: FuseNodeView| n.id == id@;
            let mut i: usize = 0;
            #[verifier::loop_isolation(false)]
            while i < nodes.len()
                invariant
                    i <= nodes.len(),
                    nv == fuse_nodes_view(nodes@),
                    p == (|n: FuseNodeView| n.id == id@),
                    forall|k: int| 0 <= k < i ==> !p(#[trigger] nv[k]),
                decreases nodes.len() - i,
            {
                assert(nv[i as int] == nodes@[i as int]@);
                if str_eq(nodes[i].id.as_str(), id.as_str()) {
                    proof {
                        crate::seqs::lemma_first_index_at(nv, p, i as int);
                    }
                    return Some(nodes[i].provenance.source.clone());
                }
                i += 1;
            }
            proof {
                crate::seqs::lemma_first_index_at(nv, p, i as int);
            }
            None
        },
        None => None,
    }
}

/// The refusal of the first composed node, among the first `n`, whose ID an
/// earlier node already holds.
pub open spec fn composed_duplicate(nodes: Seq<FuseNodeView>, n: nat) -> Option<Seq<char>>
    decreases n,
{
    if n == 0 || n > nodes.len() {
        None
    } else {
        match composed_duplicate(nodes, (n - 1) as nat) {
            Some(t) => Some(t),
            None => {
                let g = composed_node_views(nodes);
                match crate::graph::node_lookup(g.take(n - 1), g[n - 1].id) {
                    Some(first) => Some(
                        "duplicate node '"@ + g[n - 1].id + "': first at "@ + crate::types::provenance_text(
                            first.provenance,
                        ) + ", second at "@ + crate::types::provenance_text(g[n - 1].provenance),
                    ),
                    None => None,
                }
            },
        }
    }
}

/// The refusal of the first pathway, among the first `n`, that is not valid.
pub open spec fn pathway_refusal(pws: Seq<PathwayView>, n: nat) -> Option<Seq<char>>
    decreases n,
{
    if n == 0 || n > pws.len() {
        None
    } else {
        match pathway_refusal(pws, (n - 1) as nat) {
            Some(t) => Some(t),
            None => if crate::graph::pathway_valid(pws[n - 1]) {
                None
            } else {
                Some(crate::graph::pathway_error_text(pws[n - 1]))
            },
        }
    }
}

/// The refusal a composition ends with: a node ID two composed nodes share,
/// else a pathway that is not valid, else a composed profile that does not load.
pub open spec fn composition_refusal_holds(nodes: Seq<FuseNodeView>, pws: Seq<PathwayView>, doc: YamlModel, e: Seq<char>) -> bool {
    match composed_duplicate(nodes, nodes.len()) {
        Some(t) => e == t,
        None => match pathway_refusal(pws, pws.len()) {
            Some(t) => e == t,
            None => {
                &&& e.len() >= 14 && e.take(14) == "fuse profile: "@
                &&& exists|d: YamlValue| d.model() == doc && crate::profile::decl_profile(d) is None
            },
        },
    }
}

/// A duplicate found among the first nodes stands for all of them.
proof fn lemma_composed_duplicate_stays(nodes: Seq<FuseNodeView>, m: nat, n: nat)
    requires
        m <= n <= nodes.len(),
    ensures
        composed_duplicate(nodes, m) is Some ==> composed_duplicate(nodes, n) == composed_duplicate(nodes, m),
    decreases n,
{
    if m < n {
        lemma_composed_duplicate_stays(nodes, m, (n - 1) as nat);
    }
}

/// A refused pathway found among the first stands for all of them.
proof fn lemma_pathway_refusal_stays(pws: Seq<PathwayView>, m: nat, n: nat)
    requires
        m <= n <= pws.len(),
    ensures
        pathway_refusal(pws, m) is Some ==> pathway_refusal(pws, n) == pathway_refusal(pws, m),
    decreases n,
{
    if m < n {
        lemma_pathway_refusal_stays(pws, m, (n - 1) as nat);
    }
}

/// The kind patterns passed in, looked up by qualified kind.
pub open spec fn patterns_lookup(kps: Seq<(String, String)>) -> spec_fn(Seq<char>) -> Option<Seq<char>> {
    |k: Seq<char>| match assoc(kps, k) {
        Some(p) => Some(p@),
        None => None,
    }
}

/// The ID pattern a composed node kind gets: its source's declared pattern
/// behind the escaped source name, or anything when none is known.
pub open spec fn node_pattern(kind: Seq<char>, lookup: spec_fn(Seq<char>) -> Option<Seq<char>>) -> Seq<char> {
    match lookup(kind) {
        Some(p) => match kind_source_of(kind) {
            Some(src) => crate::pattern::escaped(src) + ":(?:"@ + p + ")"@,
            None => ".*"@,
        },
        None => ".*"@,
    }
}

/// A node kind's declaration, by value: `{id_pattern: pattern, orphan_ok: true}`.
pub open spec fn kind_doc_model(pattern: Seq<char>) -> YamlModel {
    YamlModel::Mapping(seq![keyed_model("id_pattern"@, YamlModel::Str(pattern)), keyed_model("orphan_ok"@, YamlModel::Bool(true))])
}

/// The fuse profile's own edge kinds with their pairs.
pub open spec fn init_pairs(fp: FuseProfile) -> Seq<(Seq<char>, Seq<(Seq<char>, Seq<char>)>)> {
    fp.edges@.map_values(|e: (String, EdgeDeclaration)| (e.0@, text_pairs(e.1.allowed@)))
}

/// The edge kinds' pairs after the first `n` composed edges with a resolved
/// target were observed.
pub open spec fn pairs_after(fp: FuseProfile, es: Seq<FuseEdgeView>, n: nat) -> Seq<(Seq<char>, Seq<(Seq<char>, Seq<char>)>)>
    decreases n,
{
    if n == 0 || n > es.len() {
        init_pairs(fp)
    } else {
        match es[n - 1].target_kind {
            Some(t) => push_pair_model(pairs_after(fp, es, (n - 1) as nat), es[n - 1].kind, (es[n - 1].source_kind, t)),
            None => pairs_after(fp, es, (n - 1) as nat),
        }
    }
}

/// The node kind declarations after the first `n` composed nodes.
pub open spec fn docs_after_nodes(
    nodes: Seq<FuseNodeView>,
    lookup: spec_fn(Seq<char>) -> Option<Seq<char>>,
    n: nat,
) -> Seq<(YamlModel, Seq<char>, YamlModel)>
    decreases n,
{
    if n == 0 || n > nodes.len() {
        Seq::empty()
    } else {
        put_model(
            docs_after_nodes(nodes, lookup, (n - 1) as nat),
            nodes[n - 1].kind,
            kind_doc_model(node_pattern(nodes[n - 1].kind, lookup)),
        )
    }
}

/// Whether an entry is named `key`.
pub open spec fn has_model(ms: Seq<(YamlModel, Seq<char>, YamlModel)>, key: Seq<char>) -> bool {
    exists|j: int| 0 <= j < ms.len() && (#[trigger] ms[j]).1 == key
}

/// A kind declared with any ID where it is not declared yet.
pub open spec fn put_absent(ms: Seq<(YamlModel, Seq<char>, YamlModel)>, key: Seq<char>) -> Seq<(YamlModel, Seq<char>, YamlModel)> {
    if has_model(ms, key) {
        ms
    } else {
        put_model(ms, key, kind_doc_model(".*"@))
    }
}

/// The declarations after both kinds of the first `k` pairs are made sure of.
pub open spec fn fill_list(
    ms: Seq<(YamlModel, Seq<char>, YamlModel)>,
    list: Seq<(Seq<char>, Seq<char>)>,
    k: nat,
) -> Seq<(YamlModel, Seq<char>, YamlModel)>
    decreases k,
{
    if k == 0 || k > list.len() {
        ms
    } else {
        put_absent(put_absent(fill_list(ms, list, (k - 1) as nat), list[k - 1].0), list[k - 1].1)
    }
}

/// The declarations after the kinds of the first `q` edge kinds' pairs are made sure of.
pub open spec fn fill_pairs(
    ms: Seq<(YamlModel, Seq<char>, YamlModel)>,
    pv: Seq<(Seq<char>, Seq<(Seq<char>, Seq<char>)>)>,
    q: nat,
) -> Seq<(YamlModel, Seq<char>, YamlModel)>
    decreases q,
{
    if q == 0 || q > pv.len() {
        ms
    } else {
        fill_list(fill_pairs(ms, pv, (q - 1) as nat), pv[q - 1].1, pv[q - 1].1.len())
    }
}

/// One edge kind's declaration: its `allowed` pairs.
pub open spec fn edge_doc_model(e: (Seq<char>, Seq<(Seq<char>, Seq<char>)>)) -> (YamlModel, Seq<char>, YamlModel) {
    keyed_model(
        e.0,
        YamlModel::Mapping(
            seq![
                keyed_model(
                    "allowed"@,
                    YamlModel::List(
                        Seq::new(e.1.len(), |k: int| YamlModel::List(seq![YamlModel::Str(e.1[k].0), YamlModel::Str(e.1[k].1)])),
                    ),
                ),
            ],
        ),
    )
}

/// A validation entry the composed profile keeps: one code over its configuration.
pub open spec fn validation_doc(v: (String, Vec<(String, JsonValue)>)) -> YamlModel {
    YamlModel::Mapping(seq![keyed_model(v.0@, YamlModel::Mapping(json_yaml_members(members_view(v.1@), v.1@.len())))])
}

/// The validations among the first `n` that the composed profile keeps: all
/// but the COVERAGE configurations naming an undeclared edge kind.
pub open spec fn vals_model(fp: FuseProfile, n: nat) -> Seq<YamlModel>
    decreases n,
{
    if n == 0 || n > fp.validations@.len() {
        Seq::empty()
    } else if coverage_edge_kind(fp.validations@[n - 1]) matches Some(ek) && assoc(fp.edges@, ek) is None {
        vals_model(fp, (n - 1) as nat)
    } else {
        vals_model(fp, (n - 1) as nat).push(validation_doc(fp.validations@[n - 1]))
    }
}

/// The profile a fuse run validates its composed graph against: the fuse
/// profile's edge kinds grown by the observed pairs, every composed node kind
/// with its source's ID pattern, the kinds the pairs name, the composed
/// pathways, and the fuse profile's validations.
pub open spec fn composed_model(
    nodes: Seq<FuseNodeView>,
    es: Seq<FuseEdgeView>,
    pws: Seq<PathwayView>,
    fp: FuseProfile,
    lookup: spec_fn(Seq<char>) -> Option<Seq<char>>,
) -> YamlModel {
    let pv = pairs_after(fp, es, es.len());
    YamlModel::Mapping(
        seq![
            keyed_model("edge_kinds"@, YamlModel::Mapping(Seq::new(pv.len(), |q: int| edge_doc_model(pv[q])))),
            keyed_model("name"@, YamlModel::Str("fuse"@)),
            keyed_model("node_kinds"@, YamlModel::Mapping(fill_pairs(docs_after_nodes(nodes, lookup, nodes.len()), pv, pv.len()))),
            keyed_model("pathways"@, YamlModel::List(Seq::new(pws.len(), |w: int| YamlModel::Str(pws[w].name)))),
            keyed_model("profile_version"@, YamlModel::Str("1.0.0"@)),
            keyed_model("validations"@, YamlModel::List(vals_model(fp, fp.validations@.len()))),
        ],
    )
}

proof fn lemma_kind_doc(y: YamlValue, pattern: Seq<char>)
    requires
        is_kind_doc(y, pattern),
    ensures
        y.model() == kind_doc_model(pattern),
{
    if let YamlValue::Mapping(m) = y {
        lemma_entries_model(m@, m@.len());
        assert(mapping_model(m@) =~= seq![keyed_model("id_pattern"@, YamlModel::Str(pattern)), keyed_model("orphan_ok"@, YamlModel::Bool(true))]);
    }
}

/// The edge kinds' pairs: the fuse profile's own, then each resolved edge's.
fn composed_pairs(profile: &FuseProfile, edges: &Vec<FuseEdge>) -> (r: Vec<(String, Vec<(String, String)>)>)
    ensures
        pairs_model(r@) == pairs_after(*profile, fuse_edges_view(edges@), edges@.len()),
{
    let mut pairs: Vec<(String, Vec<(String, String)>)> = Vec::new();
    let mut e: usize = 0;
    while e < profile.edges.len()
        invariant
            e <= profile.edges.len(),
            pairs@.len() == e,
            pairs_model(pairs@) == init_pairs(*profile).take(e as int),
        decreases profile.edges.len() - e,
    {
        let mut list: Vec<(String, String)> = Vec::new();
        let allowed = &profile.edges[e].1.allowed;
        let mut k: usize = 0;
        while k < allowed.len()
            invariant
                k <= allowed.len(),
                list@.len() == k,
                text_pairs(list@) == text_pairs(allowed@).take(k as int),
            decreases allowed.len() - k,
        {
            let ghost before = list@;
            list.push((copy_str(allowed[k].0.as_str()), copy_str(allowed[k].1.as_str())));
            assert forall|x: int| 0 <= x < k + 1 implies #[trigger] text_pairs(list@)[x] == text_pairs(allowed@).take(k + 1)[x] by {
                if x < k {
                    assert(text_pairs(list@)[x] == text_pairs(before)[x]);
                }
            }
            assert(text_pairs(list@) =~= text_pairs(allowed@).take(k + 1));
            k += 1;
        }
        assert(text_pairs(allowed@).take(k as int) =~= text_pairs(allowed@));
        let ghost before = pairs@;
        pairs.push((copy_str(profile.edges[e].0.as_str()), list));
        assert forall|x: int| 0 <= x < e + 1 implies #[trigger] pairs_model(pairs@)[x] == init_pairs(*profile).take(e + 1)[x] by {
            if x < e {
                assert(pairs_model(pairs@)[x] == pairs_model(before)[x]);
            }
        }
        assert(pairs_model(pairs@) =~= init_pairs(*profile).take(e + 1));
        e += 1;
    }
    assert(init_pairs(*profile).take(e as int) =~= init_pairs(*profile));
    let ghost ev = fuse_edges_view(edges@);
    let mut j: usize = 0;
    while j < edges.len()
        invariant
            j <= edges.len(),
            ev == fuse_edges_view(edges@),
            pairs_model(pairs@) == pairs_after(*profile, ev, j as nat),
        decreases edges.len() - j,
    {
        let edge = &edges[j];
        assert(ev[j as int] == edge@);
        if let Some(target) = &edge.target_kind {
            pair_push(&mut pairs, edge.kind.as_str(), (copy_str(edge.source_kind.as_str()), copy_str(target.as_str())));
        }
        j += 1;
    }
    pairs
}

/// The node kind declarations: each composed node's kind with its pattern,
/// then every kind a pair names with any ID, where not declared yet.
fn composed_node_docs(
    nodes: &Vec<FuseNode>,
    kind_patterns: &Vec<(String, String)>,
    pairs: &Vec<(String, Vec<(String, String)>)>,
) -> (r: Vec<YamlEntry>)
    ensures
        mapping_model(r@) == fill_pairs(
            docs_after_nodes(fuse_nodes_view(nodes@), patterns_lookup(kind_patterns@), nodes@.len()),
            pairs_model(pairs@),
            pairs@.len(),
        ),
{
    let ghost nv = fuse_nodes_view(nodes@);
    let ghost lookup = patterns_lookup(kind_patterns@);
    let mut docs: Vec<YamlEntry> = Vec::new();
    proof {
        lemma_entries_model(docs@, 0);
    }
    let mut i: usize = 0;
    while i < nodes.len()
        invariant
            i <= nodes.len(),
            nv == fuse_nodes_view(nodes@),
            lookup == patterns_lookup(kind_patterns@),
            mapping_model(docs@) == docs_after_nodes(nv, lookup, i as nat),
        decreases nodes.len() - i,
    {
        let node = &nodes[i];
        assert(nv[i as int] == node@);
        let pattern = match assoc_get(kind_patterns, node.kind.as_str()) {
            Some(p) => match kind_source(node.kind.as_str()) {
                Some(source) => {
                    let escaped = crate::pattern::regex_escape(source.as_str());
                    let mut t = copy_str(escaped.as_str());
                    push_str(&mut t, ":(?:");
                    push_str(&mut t, p.as_str());
                    push_str(&mut t, ")");
                    t
                },
                None => copy_str(".*"),
            },
            None => copy_str(".*"),
        };
        assert(pattern@ == node_pattern(node.kind@, lookup));
        let doc = node_kind_doc(pattern.as_str());
        proof {
            lemma_kind_doc(doc, pattern@);
        }
        doc_put(&mut docs, node.kind.as_str(), doc);
        i += 1;
    }
    let ghost pv = pairs_model(pairs@);
    let mut q: usize = 0;
    while q < pairs.len()
        invariant
            q <= pairs.len(),
            pv == pairs_model(pairs@),
            mapping_model(docs@) == fill_pairs(docs_after_nodes(nv, lookup, nv.len()), pv, q as nat),
        decreases pairs.len() - q,
    {
        let list = &pairs[q].1;
        let ghost lv = text_pairs(list@);
        assert(pv[q as int].1 == lv);
        let ghost start = mapping_model(docs@);
        let mut k: usize = 0;
        while k < list.len()
            invariant
                k <= list.len(),
                lv == text_pairs(list@),
                mapping_model(docs@) == fill_list(start, lv, k as nat),
            decreases list.len() - k,
        {
            assert(lv[k as int] == (list@[k as int].0@, list@[k as int].1@));
            let ghost m0 = mapping_model(docs@);
            proof {
                lemma_entries_model(docs@, docs@.len());
            }
            let h = doc_has(&docs, list[k].0.as_str());
            assert(h == has_model(m0, lv[k as int].0)) by {
                if h {
                    let j = choose|j: int| 0 <= j < docs@.len() && (#[trigger] docs@[j]).key_text@ == list@[k as int].0@;
                    assert(m0[j].1 == lv[k as int].0);
                }
                if has_model(m0, lv[k as int].0) {
                    let j = choose|j: int| 0 <= j < m0.len() && (#[trigger] m0[j]).1 == lv[k as int].0;
                    assert(docs@[j].key_text@ == list@[k as int].0@);
                }
            }
            if !h {
                let doc = node_kind_doc(".*");
                proof {
                    lemma_kind_doc(doc, ".*"@);
                }
                doc_put(&mut docs, list[k].0.as_str(), doc);
            }
            let ghost m1 = mapping_model(docs@);
            assert(m1 == put_absent(m0, lv[k as int].0));
            proof {
                lemma_entries_model(docs@, docs@.len());
            }
            let h2 = doc_has(&docs, list[k].1.as_str());
            assert(h2 == has_model(m1, lv[k as int].1)) by {
                if h2 {
                    let j = choose|j: int| 0 <= j < docs@.len() && (#[trigger] docs@[j]).key_text@ == list@[k as int].1@;
                    assert(m1[j].1 == lv[k as int].1);
                }
                if has_model(m1, lv[k as int].1) {
                    let j = choose|j: int| 0 <= j < m1.len() && (#[trigger] m1[j]).1 == lv[k as int].1;
                    assert(docs@[j].key_text@ == list@[k as int].1@);
                }
            }
            if !h2 {
                let doc = node_kind_doc(".*");
                proof {
                    lemma_kind_doc(doc, ".*"@);
                }
                doc_put(&mut docs, list[k].1.as_str(), doc);
            }
            k += 1;
        }
        q += 1;
    }
    docs
}

/// The validations the composed profile keeps, each as a one-code mapping.
fn composed_validations(profile: &FuseProfile) -> (r: Vec<YamlValue>)
    ensures
        items_model(r@, r@.len()) == vals_model(*profile, profile.validations@.len()),
{
    let mut out: Vec<YamlValue> = Vec::new();
    proof {
        lemma_items_model(out@, 0);
    }
    let mut v: usize = 0;
    while v < profile.validations.len()
        invariant
            v <= profile.validations.len(),
            items_model(out@, out@.len()) == vals_model(*profile, v as nat),
        decreases profile.validations.len() - v,
    {
        let (code, config) = &profile.validations[v];
        let ghost before = out@;
        let mut refused = false;
        if str_eq(code.as_str(), "COVERAGE") {
            let got = crate::json::get(config, "edge_kind");
            if let Some(JsonValue::Str(ek)) = got {
                if assoc_get(&profile.edges, ek.as_str()).is_none() {
                    refused = true;
                }
            }
        }
        assert(refused == (coverage_edge_kind(profile.validations@[v as int]) matches Some(ek) && assoc(profile.edges@, ek) is None));
        if !refused {
            let mut entry: Vec<YamlEntry> = Vec::new();
            let body = yaml_entries(config);
            entry.push(YamlEntry::new(code.as_str(), YamlValue::Mapping(body)));
            let doc = YamlValue::Mapping(entry);
            proof {
                lemma_entries_model(entry@, 1);
                crate::json::lemma_members(config@, config@.len());
                assert(mapping_model(entry@) =~= seq![keyed_model(code@, YamlModel::Mapping(mapping_model(body@)))]);
                assert(doc.model() == validation_doc(profile.validations@[v as int]));
            }
            out.push(doc);
            proof {
                lemma_items_model(before, before.len());
                lemma_items_model(out@, out@.len());
                assert(items_model(out@, out@.len()) =~= items_model(before, before.len()).push(doc.model()));
            }
        }
        v += 1;
    }
    out
}

/// The edge kind declarations, one per kind, in name order.
fn composed_edge_docs(pairs: &Vec<(String, Vec<(String, String)>)>) -> (r: Vec<YamlEntry>)
    ensures
        mapping_model(r@) == Seq::new(pairs@.len(), |q: int| edge_doc_model(pairs_model(pairs@)[q])),
{
    let ghost pv = pairs_model(pairs@);
    let mut docs: Vec<YamlEntry> = Vec::new();
    let mut q: usize = 0;
    while q < pairs.len()
        invariant
            q <= pairs.len(),
            docs@.len() == q,
            pv == pairs_model(pairs@),
            forall|x: int| 0 <= x < q ==> ((#[trigger] docs@[x]).key.model(), docs@[x].key_text@, docs@[x].value.model()) == edge_doc_model(pv[x]),
        decreases pairs.len() - q,
    {
        let list = &pairs[q].1;
        let ghost lv = text_pairs(list@);
        let mut items: Vec<YamlValue> = Vec::new();
        let mut k: usize = 0;
        while k < list.len()
            invariant
                k <= list.len(),
                items@.len() == k,
                lv == text_pairs(list@),
                forall|x: int| 0 <= x < k ==> (#[trigger] items@[x]).model() == YamlModel::List(seq![YamlModel::Str(lv[x].0), YamlModel::Str(lv[x].1)]),
            decreases list.len() - k,
        {
            let mut pair: Vec<YamlValue> = Vec::new();
            pair.push(YamlValue::Str(copy_str(list[k].0.as_str())));
            pair.push(YamlValue::Str(copy_str(list[k].1.as_str())));
            let item = YamlValue::List(pair);
            proof {
                lemma_items_model(pair@, 2);
                assert(items_model(pair@, 2) =~= seq![YamlModel::Str(lv[k as int].0), YamlModel::Str(lv[k as int].1)]);
            }
            items.push(item);
            k += 1;
        }
        let mut decl: Vec<YamlEntry> = Vec::new();
        let allowed = YamlValue::List(items);
        proof {
            lemma_items_model(items@, items@.len());
            assert(items_model(items@, items@.len()) =~= Seq::new(lv.len(), |x: int| YamlModel::List(seq![YamlModel::Str(lv[x].0), YamlModel::Str(lv[x].1)])));
        }
        decl.push(YamlEntry::new("allowed", allowed));
        let d = YamlEntry::new(pairs[q].0.as_str(), YamlValue::Mapping(decl));
        proof {
            lemma_entries_model(decl@, 1);
            assert(pv[q as int] == (pairs@[q as int].0@, lv));
            assert(mapping_model(decl@) =~= seq![keyed_model("allowed"@, allowed.model())]);
        }
        docs.push(d);
        q += 1;
    }
    proof {
        lemma_entries_model(docs@, docs@.len());
        assert(mapping_model(docs@) =~= Seq::new(pairs@.len(), |q: int| edge_doc_model(pv[q])));
    }
    docs
}

/// The composed pathways' names.
fn composed_names(pathways: &Vec<PathwayEntry>) -> (r: Vec<YamlValue>)
    ensures
        items_model(r@, r@.len()) == Seq::new(pathways@.len(), |w: int| YamlModel::Str(pathway_entries_view(pathways@)[w].name)),
{
    let mut names: Vec<YamlValue> = Vec::new();
    let mut w: usize = 0;
    while w < pathways.len()
        invariant
            w <= pathways.len(),
            names@.len() == w,
            forall|x: int| 0 <= x < w ==> (#[trigger] names@[x]).model() == YamlModel::Str(pathways@[x].name@),
        decreases pathways.len() - w,
    {
        names.push(YamlValue::Str(copy_str(pathways[w].name.as_str())));
        w += 1;
    }
    proof {
        lemma_items_model(names@, names@.len());
        assert(items_model(names@, names@.len()) =~= Seq::new(pathways@.len(), |w: int| YamlModel::Str(pathway_entries_view(pathways@)[w].name)));
    }
    names
}

/// The profile document a fuse run validates its composed graph against.
fn composed_document(
    nodes: &Vec<FuseNode>,
    edges: &Vec<FuseEdge>,
    pathways: &Vec<PathwayEntry>,
    profile: &FuseProfile,
    kind_patterns: &Vec<(String, String)>,
) -> (r: YamlValue)
    ensures
        r.model() == composed_model(
            fuse_nodes_view(nodes@),
            fuse_edges_view(edges@),
            pathway_entries_view(pathways@),
            *profile,
            patterns_lookup(kind_patterns@),
        ),
{
    let pairs = composed_pairs(profile, edges);
    let node_docs = composed_node_docs(nodes, kind_patterns, &pairs);
    let edge_docs = composed_edge_docs(&pairs);
    let validations = composed_validations(profile);
    let names = composed_names(pathways);
    let ghost pv = pairs_model(pairs@);
    let ghost m_edges = YamlValue::Mapping(edge_docs).model();
    let ghost m_nodes = YamlValue::Mapping(node_docs).model();
    let ghost m_names = YamlValue::List(names).model();
    let ghost m_vals = YamlValue::List(validations).model();
    let mut doc: Vec<YamlEntry> = Vec::new();
    doc.push(YamlEntry::new("edge_kinds", YamlValue::Mapping(edge_docs)));
    doc.push(YamlEntry::new("name", YamlValue::Str(copy_str("fuse"))));
    doc.push(YamlEntry::new("node_kinds", YamlValue::Mapping(node_docs)));
    doc.push(YamlEntry::new("pathways", YamlValue::List(names)));
    doc.push(YamlEntry::new("profile_version", YamlValue::Str(copy_str("1.0.0"))));
    doc.push(YamlEntry::new("validations", YamlValue::List(validations)));
    proof {
        lemma_entries_model(doc@, 6);
        assert(pv.len() == pairs@.len());
        assert(pathway_entries_view(pathways@).len() == pathways@.len());
        assert(mapping_model(doc@) =~= seq![
            keyed_model("edge_kinds"@, m_edges),
            keyed_model("name"@, YamlModel::Str("fuse"@)),
            keyed_model("node_kinds"@, m_nodes),
            keyed_model("pathways"@, m_names),
            keyed_model("profile_version"@, YamlModel::Str("1.0.0"@)),
            keyed_model("validations"@, m_vals),
        ]);
    }
    YamlValue::Mapping(doc)
}

/// Validate the composed graph against a standard profile built from the
/// fuse profile: each observed kind admits any ID of its declared pattern,
/// each edge kind admits its declared pairs and those the joins resolved.
/// COVERAGE configurations that name an undeclared edge kind are reported as
/// configuration errors instead of reaching the standard validator.
#[verifier::rlimit(50)]
fn validate_composed(report: &mut FuseReport, profile: &FuseProfile, kind_patterns: &Vec<(String, String)>) -> (r: Result<(), String>)
    ensures
        final(report).header == old(report).header,
        final(report).nodes == old(report).nodes,
        final(report).edges == old(report).edges,
        final(report).pathways == old(report).pathways,
        final(report).could_run == old(report).could_run,
        r is Ok ==> exists|g: LatticeGraph, p: Profile, iss: Seq<IssueView>|
            validated(
                fuse_nodes_view(old(report).nodes@),
                fuse_edges_view(old(report).edges@),
                g,
                p,
                iss,
                composed_model(
                    fuse_nodes_view(old(report).nodes@),
                    fuse_edges_view(old(report).edges@),
                    pathway_entries_view(old(report).pathways@),
                    *profile,
                    patterns_lookup(kind_patterns@),
                ),
            ) && findings_view(
                final(report).findings@,
            ) == findings_view(old(report).findings@) + coverage_refusals(*profile, profile.validations@.len())
                + iss.map_values(|i: IssueView| validation_finding(fuse_nodes_view(old(report).nodes@), i)),
        r is Ok ==> composed_duplicate(fuse_nodes_view(old(report).nodes@), old(report).nodes@.len()) is None
            && pathway_refusal(pathway_entries_view(old(report).pathways@), old(report).pathways@.len()) is None,
        r matches Err(e) ==> composition_refusal_holds(
            fuse_nodes_view(old(report).nodes@),
            pathway_entries_view(old(report).pathways@),
            composed_model(
                fuse_nodes_view(old(report).nodes@),
                fuse_edges_view(old(report).edges@),
                pathway_entries_view(old(report).pathways@),
                *profile,
                patterns_lookup(kind_patterns@),
            ),
            e@,
        ),
{
    let ghost nv = fuse_nodes_view(report.nodes@);
    let ghost pv = pathway_entries_view(report.pathways@);
    let ghost ev = fuse_edges_view(report.edges@);
    let mut graph = LatticeGraph::new();
    let mut i: usize = 0;
    while i < report.nodes.len()
        invariant
            i <= report.nodes.len(),
            nv == fuse_nodes_view(report.nodes@),
            graph.wf(),
            graph.spec_nodes() == composed_node_views(nv).take(i as int),
            graph.spec_edges() == Seq::<EdgeView>::empty(),
            composed_duplicate(nv, i as nat) is None,
        decreases report.nodes.len() - i,
    {
        let node = &report.nodes[i];
        let ghost before = graph.spec_nodes();
        assert(nv[i as int] == node@);
        proof {
            assert(composed_node_views(nv).take(i as int).len() == i);
        }
        match graph.add_node(node.id.clone(), node.kind.clone(), copy_members(&node.attrs), node.provenance.location.copy()) {
            Ok(()) => {
                proof {
                    crate::seqs::lemma_first_index(before, crate::graph::has_id(node.id@));
                    assert(crate::graph::node_lookup(before, node.id@) is None);
                }
            },
            Err(d) => {
                let t = d.to_text();
                proof {
                    lemma_composed_duplicate_stays(nv, (i + 1) as nat, nv.len());
                }
                return Err(t);
            },
        }
        assert(composed_node_views(nv).take(i + 1) =~= composed_node_views(nv).take(i as int).push(
            composed_node_views(nv)[i as int],
        ));
        i += 1;
    }
    assert(composed_node_views(nv).take(i as int) =~= composed_node_views(nv));
    let mut j: usize = 0;
    while j < report.edges.len()
        invariant
            j <= report.edges.len(),
            ev == fuse_edges_view(report.edges@),
            graph.wf(),
            graph.spec_nodes() == composed_node_views(nv),
            graph.spec_edges() == composed_edge_views(ev, j as nat),
        decreases report.edges.len() - j,
    {
        let edge = &report.edges[j];
        assert(ev[j as int] == edge@);
        if let Some(target) = &edge.target_kind {
            graph.add_edge(
                EdgeSpec {
                    src: edge.src.clone(),
                    tgt: edge.tgt.clone(),
                    kind: edge.kind.clone(),
                    attrs: copy_members(&edge.attrs),
                },
                edge.provenance.location.copy(),
            );
        }
        j += 1;
    }
    let mut w: usize = 0;
    while w < report.pathways.len()
        invariant
            w <= report.pathways.len(),
            pv == pathway_entries_view(report.pathways@),
            pv == pathway_entries_view(old(report).pathways@),
            nv == fuse_nodes_view(old(report).nodes@),
            composed_duplicate(nv, nv.len()) is None,
            pathway_refusal(pv, w as nat) is None,
            graph.wf(),
            graph.spec_nodes() == composed_node_views(nv),
            graph.spec_edges() == composed_edge_views(ev, ev.len()),
        decreases report.pathways.len() - w,
    {
        let pw = &report.pathways[w];
        assert(pv[w as int] == pw@);
        match graph.set_pathway(pw.name.clone(), crate::graph::copy_strings(&pw.order), pw.current.clone()) {
            Ok(()) => {},
            Err(err) => {
                proof {
                    lemma_pathway_refusal_stays(pv, (w + 1) as nat, pv.len());
                }
                return Err(err.0);
            },
        }
        w += 1;
    }
    let mut refusals: Vec<FuseFinding> = Vec::new();
    let mut v: usize = 0;
    while v < profile.validations.len()
        invariant
            v <= profile.validations.len(),
            findings_view(refusals@) == coverage_refusals(*profile, v as nat),
        decreases profile.validations.len() - v,
    {
        let (code, config) = &profile.validations[v];
        let ghost before = findings_view(refusals@);
        let mut refused = false;
        if str_eq(code.as_str(), "COVERAGE") {
            let got = crate::json::get(config, "edge_kind");
            proof {
                match got {
                    Some(x) => {
                        assert(crate::json::lookup(members_view(config@), "edge_kind"@) == Some(x.deep()));
                    },
                    None => {},
                }
            }
            if let Some(JsonValue::Str(ek)) = got {
                if assoc_get(&profile.edges, ek.as_str()).is_none() {
                    let message = msg3("COVERAGE: edge_kind '", ek.as_str(), "' is not declared in fuse edge_kinds");
                    let f = FuseFinding {
                        issue: Issue::new(
                            default_severity(FindingCode::ConfigError),
                            "CONFIG_ERROR",
                            message,
                            Provenance::new("<fuse-profile>", 0),
                            None,
                        ),
                        source: None,
                        locations: Vec::new(),
                    };
                    assert(f@.locations =~= Seq::<FuseProvenanceView>::empty());
                    refusals.push(f);
                    refused = true;
                    assert(findings_view(refusals@) =~= before + seq![f@]);
                }
            }
        }
        if !refused {
            assert(findings_view(refusals@) =~= before + Seq::<FuseFindingView>::empty());
        }
        v += 1;
    }
    let raw = composed_document(&report.nodes, &report.edges, &report.pathways, profile, kind_patterns);
    let ghost dm = raw.model();
    let ghost rawg = raw;
    let standard = match load_profile_value(raw, "fuse") {
        Ok(p) => p,
        Err(err) => {
            let m = msg2("fuse profile: ", err.0.as_str());
            proof {
                reveal_strlit("fuse profile: ");
                assert(m@.take(14) =~= "fuse profile: "@);
            }
            assert(rawg.model() == dm && crate::profile::decl_profile(rawg) is None);
            return Err(m);
        },
    };
    let issues = crate::validate::validate(&graph, &standard, false);
    let ghost f0 = findings_view(report.findings@);
    let mut found: Vec<FuseFinding> = Vec::new();
    let mut k: usize = 0;
    while k < issues.len()
        invariant
            k <= issues.len(),
            nv == fuse_nodes_view(report.nodes@),
            findings_view(found@) == issues_view(issues@).take(k as int).map_values(
                |i: IssueView| validation_finding(nv, i),
            ),
        decreases issues.len() - k,
    {
        let source = finding_source(&report.nodes, &issues[k].node_id);
        let f = FuseFinding { issue: issues[k].copy(), source, locations: Vec::new() };
        let ghost before = findings_view(found@);
        assert(f@.locations =~= Seq::<FuseProvenanceView>::empty());
        assert(f@ == validation_finding(nv, issues_view(issues@)[k as int]));
        found.push(f);
        assert(findings_view(found@) =~= before.push(f@));
        assert(issues_view(issues@).take(k + 1) =~= issues_view(issues@).take(k as int).push(issues_view(issues@)[k as int]));
        k += 1;
    }
    assert(issues_view(issues@).take(k as int) =~= issues_view(issues@));
    let ghost rv = findings_view(refusals@);
    let ghost fv = findings_view(found@);
    let mut refusals = refusals;
    let mut found = found;
    report.findings.append(&mut refusals);
    report.findings.append(&mut found);
    proof {
        assert(findings_view(report.findings@) =~= f0 + rv + fv);
        assert(validated(nv, ev, graph, standard, issues_view(issues@), dm));
    }
    Ok(())
}


// ---------------------------------------------------------------- assembling

/// A source pattern without its `\A`/`^` and `\z`/`$` anchors.
pub open spec fn unanchored(p: Seq<char>) -> Seq<char> {
    let s = match crate::text::strip_prefix_of(p, "\\A"@) {
        Some(r) => r,
        None => crate::text::without_prefix(p, "^"@),
    };
    match crate::text::strip_suffix_of(s, "\\z"@) {
        Some(r) => r,
        None => crate::text::without_suffix(s, "$"@),
    }
}

pub fn strip_anchors(pattern: &str) -> (r: String)
    ensures
        r@ == unanchored(pattern@),
{
    let s = match crate::text::strip_prefix_str(pattern, "\\A") {
        Some(r) => r,
        None => crate::text::without_prefix_str(pattern, "^"),
    };
    match crate::text::strip_suffix_str(s.as_str(), "\\z") {
        Some(r) => r,
        None => crate::text::without_suffix_str(s.as_str(), "$"),
    }
}

/// The warning for a source whose profile did not load.
pub open spec fn profile_warning(m: ManifestView, i: int, e: Seq<char>) -> FuseFindingView {
    FuseFindingView {
        issue: crate::types::new_issue(
            Severity::Warning,
            "CONFIG_ERROR"@,
            "could not load source profile '"@ + m.sources[i].profile + "': "@ + e + " \u{2014} composed IDs for source '"@
                + m.sources[i].name + "' will not be validated against their declared pattern"@,
            ProvenanceView { file: "<fuse-profile>"@, line: 0 },
            None,
        ),
        source: Some(m.sources[i].name),
        locations: Seq::empty(),
    }
}

/// The warnings for the first `k` sources' profiles.
pub open spec fn profile_warnings(m: ManifestView, ps: Seq<Result<Profile, String>>, k: nat) -> Seq<FuseFindingView>
    decreases k,
{
    if k == 0 || k > ps.len() {
        Seq::empty()
    } else {
        profile_warnings(m, ps, (k - 1) as nat) + match ps[k - 1] {
            Ok(_) => Seq::empty(),
            Err(e) => seq![profile_warning(m, k - 1, e@)],
        }
    }
}

/// The unanchored pattern that the first `k` kinds of a source's profile give
/// the qualified kind `key`: that of the last whose qualified name is `key`.
pub open spec fn kinds_pattern(src: Seq<char>, nks: Seq<(String, NodeKind)>, k: nat, key: Seq<char>) -> Option<Seq<char>>
    decreases k,
{
    if k == 0 || k > nks.len() {
        None
    } else if qualify(src, nks[k - 1].0@) == key {
        Some(unanchored(nks[k - 1].1.id_pattern_source@))
    } else {
        kinds_pattern(src, nks, (k - 1) as nat, key)
    }
}

/// The pattern that the first `n` sources' loaded profiles declare for the
/// qualified kind `key`; a later source's declaration wins.
pub open spec fn declared_pattern(m: ManifestView, ps: Seq<Result<Profile, String>>, n: nat, key: Seq<char>) -> Option<Seq<char>>
    decreases n,
{
    if n == 0 || n > ps.len() {
        None
    } else {
        let here = match ps[n - 1] {
            Ok(p) => kinds_pattern(m.sources[n - 1].name, p.spec_node_kinds(), p.spec_node_kinds().len(), key),
            Err(_) => None,
        };
        match here {
            Some(x) => Some(x),
            None => declared_pattern(m, ps, (n - 1) as nat, key),
        }
    }
}

/// The declared patterns of every source's loaded profile, by qualified kind.
pub open spec fn declared_lookup(m: ManifestView, ps: Seq<Result<Profile, String>>) -> spec_fn(Seq<char>) -> Option<Seq<char>> {
    |key: Seq<char>| declared_pattern(m, ps, ps.len(), key)
}

/// Each source's declared ID patterns, under their qualified kinds, and a
/// warning for each source whose profile did not load.
fn kind_patterns_of(manifest: &Manifest, profiles: &Vec<Result<Profile, String>>) -> (r: (Vec<(String, String)>, Vec<FuseFinding>))
    requires
        profiles.len() == manifest.sources.len(),
    ensures
        keys_sorted(r.0@),
        forall|key: Seq<char>| #[trigger] patterns_lookup(r.0@)(key) == declared_pattern(manifest@, profiles@, profiles.len() as nat, key),
        findings_view(r.1@) == profile_warnings(manifest@, profiles@, profiles.len() as nat),
{
    let mut patterns: Vec<(String, String)> = Vec::new();
    let mut warnings: Vec<FuseFinding> = Vec::new();
    let mut i: usize = 0;
    while i < profiles.len()
        invariant
            i <= profiles.len(),
            profiles.len() == manifest.sources.len(),
            keys_sorted(patterns@),
            forall|key: Seq<char>| #[trigger] patterns_lookup(patterns@)(key) == declared_pattern(manifest@, profiles@, i as nat, key),
            findings_view(warnings@) == profile_warnings(manifest@, profiles@, i as nat),
        decreases profiles.len() - i,
    {
        let source = &manifest.sources[i];
        assert(manifest@.sources[i as int] == source@);
        let ghost before = findings_view(warnings@);
        match &profiles[i] {
            Ok(p) => {
                let kinds = p.node_kinds();
                let ghost src = manifest@.sources[i as int].name;
                let ghost nks = p.spec_node_kinds();
                assert(profiles@[i as int] == Ok::<Profile, String>(*p));
                let mut k: usize = 0;
                while k < kinds.len()
                    invariant
                        k <= kinds.len(),
                        kinds@ == nks,
                        src == source.name@,
                        keys_sorted(patterns@),
                        forall|key: Seq<char>| #[trigger] patterns_lookup(patterns@)(key) == (match kinds_pattern(src, nks, k as nat, key) {
                            Some(x) => Some(x),
                            None => declared_pattern(manifest@, profiles@, i as nat, key),
                        }),
                    decreases kinds.len() - k,
                {
                    let key = qualified(source.name.as_str(), kinds[k].0.as_str());
                    let pattern = strip_anchors(kinds[k].1.id_pattern_source.as_str());
                    let ghost before = patterns@;
                    let ghost kv = key@;
                    let ghost pv = pattern@;
                    assert(kinds@[k as int] == nks[k as int]);
                    crate::assoc::sorted_insert(&mut patterns, key, pattern);
                    assert forall|o: Seq<char>| #[trigger] patterns_lookup(patterns@)(o) == (match kinds_pattern(src, nks, (k + 1) as nat, o) {
                        Some(x) => Some(x),
                        None => declared_pattern(manifest@, profiles@, i as nat, o),
                    }) by {
                        if o != kv {
                            assert(patterns_lookup(patterns@)(o) == patterns_lookup(before)(o));
                        }
                    }
                    k += 1;
                }
                assert forall|o: Seq<char>| #[trigger] patterns_lookup(patterns@)(o) == declared_pattern(manifest@, profiles@, (i + 1) as nat, o) by {
                }
                assert(findings_view(warnings@) =~= before + Seq::<FuseFindingView>::empty());
            },
            Err(e) => {
                let mut message = msg3("could not load source profile '", source.profile.as_str(), "': ");
                push_str(&mut message, e.as_str());
                push_str(&mut message, " \u{2014} composed IDs for source '");
                push_str(&mut message, source.name.as_str());
                push_str(&mut message, "' will not be validated against their declared pattern");
                let f = FuseFinding {
                    issue: Issue::new(
                        Severity::Warning,
                        "CONFIG_ERROR",
                        message,
                        Provenance::new("<fuse-profile>", 0),
                        None,
                    ),
                    source: Some(source.name.clone()),
                    locations: Vec::new(),
                };
                assert(f@.locations =~= Seq::<FuseProvenanceView>::empty());
                assert(f@ == profile_warning(manifest@, i as int, e@));
                warnings.push(f);
                assert(findings_view(warnings@) =~= before + seq![f@]);
                assert forall|o: Seq<char>| #[trigger] patterns_lookup(patterns@)(o) == declared_pattern(manifest@, profiles@, (i + 1) as nat, o) by {
                }
            },
        }
        i += 1;
    }
    (patterns, warnings)
}

/// The findings a composition reports before the composed graph is validated.
pub open spec fn composition_findings(
    m: ManifestView,
    fp: FuseProfile,
    ts: Seq<SourceTrace>,
    ps: Seq<Result<Profile, String>>,
) -> Seq<FuseFindingView> {
    let nodes = over_sources(m, ts, ts.len(), by_nodes());
    let ids = over_sources(m, ts, ts.len(), by_raw_ids());
    let es = over_sources(m, ts, ts.len(), by_edges());
    let raws = over_sources(m, ts, ts.len(), by_raw_targets());
    let severity = fuse_severity(fp, "CROSS_SOURCE_DUPLICATE_ID"@, Severity::Error);
    profile_warnings(m, ps, ps.len()) + over_sources(m, ts, ts.len(), by_findings()) + dup_findings(
        nodes,
        ids,
        severity,
        first_seen(ids, ids.len()),
        first_seen(ids, ids.len()).len(),
    ) + joins_findings(fp, nodes, ids, es, raws, es.len()) + coverage_refusals(fp, fp.validations@.len())
}

/// Every finding with warnings promoted to errors when `strict`.
pub open spec fn promoted(fs: Seq<FuseFindingView>, strict: bool) -> Seq<FuseFindingView> {
    fs.map_values(|f: FuseFindingView| FuseFindingView { issue: strictened(f.issue, strict), ..f })
}

/// The standard profile document a composition validates its graph against:
/// built from the fuse profile, the composed graph and pathways, and the ID
/// patterns that the sources' loaded profiles declare.
pub open spec fn assembled_doc(
    m: ManifestView,
    profile: FuseProfile,
    ts: Seq<SourceTrace>,
    profiles: Seq<Result<Profile, String>>,
) -> YamlModel {
    let nodes = over_sources(m, ts, ts.len(), by_nodes());
    let ids = over_sources(m, ts, ts.len(), by_raw_ids());
    let es = over_sources(m, ts, ts.len(), by_edges());
    let raws = over_sources(m, ts, ts.len(), by_raw_targets());
    composed_model(
        nodes,
        resolved_edges(profile, nodes, ids, es, raws),
        over_sources(m, ts, ts.len(), by_pathways()),
        profile,
        declared_lookup(m, profiles),
    )
}

/// What a composed report holds: the sources' nodes, resolved edges and
/// pathways, and the composition findings followed by the composed graph's
/// validation findings.
#[verifier::opaque]
pub open spec fn assembled(
    m: ManifestView,
    profile: FuseProfile,
    ts: Seq<SourceTrace>,
    strict: bool,
    profiles: Seq<Result<Profile, String>>,
    rep: FuseReport,
) -> bool {
    let nodes = over_sources(m, ts, ts.len(), by_nodes());
    let ids = over_sources(m, ts, ts.len(), by_raw_ids());
    let es = over_sources(m, ts, ts.len(), by_edges());
    let raws = over_sources(m, ts, ts.len(), by_raw_targets());
    let resolved = resolved_edges(profile, nodes, ids, es, raws);
    &&& ts.len() == m.sources.len()
    &&& crate::trace::pairs_view(rep.header@) == fuse_header(m)
    &&& rep.could_run
    &&& fuse_nodes_view(rep.nodes@) == nodes
    &&& fuse_edges_view(rep.edges@) == resolved
    &&& pathway_entries_view(rep.pathways@) == over_sources(m, ts, ts.len(), by_pathways())
    &&& exists|g: LatticeGraph, p: Profile, iss: Seq<IssueView>|
        #[trigger] validated(nodes, resolved, g, p, iss, assembled_doc(m, profile, ts, profiles)) && findings_view(rep.findings@) == promoted(
            composition_findings(m, profile, ts, profiles) + iss.map_values(
                |i: IssueView| validation_finding(nodes, i),
            ),
            strict,
        )
}

/// Compose the traces of every manifest source, one per source in manifest
/// order, into one report: qualified nodes and edges, cross-source joins
/// resolved, duplicate IDs and unresolved joins reported, and the composed
/// graph validated. `profiles` holds each source's profile as loaded, or why
/// it did not load.
#[verifier::rlimit(80)]
pub fn assemble(
    manifest: &Manifest,
    profile: &FuseProfile,
    traces: Vec<SourceTrace>,
    strict: bool,
    profiles: Vec<Result<Profile, String>>,
) -> (r: Result<FuseReport, String>)
    requires
        profiles.len() == manifest.sources.len(),
        forall|i: int| 0 <= i < traces.len() ==> trace_severities_ok(#[trigger] traces@[i]),
    ensures
        traces.len() != manifest.sources.len() ==> (r matches Err(e) && e@ == "expected one trace per manifest source"@),
        r matches Ok(rep) ==> assembled(manifest@, *profile, traces@, strict, profiles@, rep),
        traces.len() == manifest.sources.len() ==> (r matches Err(e) ==> composition_refusal_holds(
            over_sources(manifest@, traces@, traces@.len(), by_nodes()),
            over_sources(manifest@, traces@, traces@.len(), by_pathways()),
            assembled_doc(manifest@, *profile, traces@, profiles@),
            e@,
        )),
{
    if traces.len() != manifest.sources.len() {
        return Err(copy_str("expected one trace per manifest source"));
    }
    let (patterns, warnings) = kind_patterns_of(manifest, &profiles);
    let mut report = empty_report(manifest);
    let mut findings = warnings;
    let g = gather(manifest, &traces, &mut findings);
    let severity = profile.severity("CROSS_SOURCE_DUPLICATE_ID", Severity::Error);
    let ghost nodes = fuse_nodes_view(g.nodes@);
    let ghost ids = texts(g.raw_ids@);
    proof {
        let m = manifest@;
        let ts = traces@;
        assert(ids.len() == nodes.len()) by {
            assert(Seq::new(ts.len(), |i: int| trace_nodes(m.sources[i].name, ts[i])).len() == ts.len());
            lemma_parallel_flatten(m, ts, ts.len());
        }
    }
    let dups = duplicate_findings(&g.nodes, &g.raw_ids, severity);
    let mut edges = g.edges;
    proof {
        let m = manifest@;
        let ts = traces@;
        lemma_parallel_edges(m, ts, ts.len());
    }
    let joins = resolve_edges(&mut edges, &g.raw_targets, &g.nodes, &g.raw_ids, profile);
    let mut dups = dups;
    let mut joins = joins;
    findings.append(&mut dups);
    findings.append(&mut joins);
    report.nodes = g.nodes;
    report.edges = edges;
    report.pathways = g.pathways;
    report.findings = findings;
    let ghost before = findings_view(report.findings@);
    assert(patterns_lookup(patterns@) =~= declared_lookup(manifest@, profiles@));
    if let Err(e) = validate_composed(&mut report, profile, &patterns) {
        return Err(e);
    }
    let ghost after = findings_view(report.findings@);
    promote(&mut report.findings, strict);
    proof {
        reveal(assembled);
        let m = manifest@;
        let ts = traces@;
        let nodes = over_sources(m, ts, ts.len(), by_nodes());
        let ids = over_sources(m, ts, ts.len(), by_raw_ids());
        let es = over_sources(m, ts, ts.len(), by_edges());
        let raws = over_sources(m, ts, ts.len(), by_raw_targets());
        let resolved = resolved_edges(*profile, nodes, ids, es, raws);
        assert(crate::trace::pairs_view(report.header@) == fuse_header(m));
        assert(report.could_run);
        assert(fuse_nodes_view(report.nodes@) == nodes);
        assert(fuse_edges_view(report.edges@) == resolved);
        assert(pathway_entries_view(report.pathways@) == over_sources(m, ts, ts.len(), by_pathways()));
        let doc = assembled_doc(m, *profile, ts, profiles@);
        let (g0, p0, i0) = choose|g0: LatticeGraph, p0: Profile, i0: Seq<IssueView>|
            #[trigger] validated(nodes, resolved, g0, p0, i0, doc) && after == before + coverage_refusals(
                *profile,
                profile.validations@.len(),
            ) + i0.map_values(|i: IssueView| validation_finding(nodes, i));
        assert(validated(nodes, resolved, g0, p0, i0, doc));
        assert(composition_findings(m, *profile, ts, profiles@) + i0.map_values(|i: IssueView| validation_finding(nodes, i))
            =~= after);
        assert(findings_view(report.findings@) == promoted(
            composition_findings(m, *profile, ts, profiles@) + i0.map_values(|i: IssueView| validation_finding(nodes, i)),
            strict,
        ));
    }
    Ok(report)
}

/// The raw IDs run parallel to the nodes.
proof fn lemma_parallel_flatten(m: ManifestView, ts: Seq<SourceTrace>, k: nat)
    requires
        k <= ts.len(),
    ensures
        over_sources(m, ts, k, by_raw_ids()).len() == over_sources(m, ts, k, by_nodes()).len(),
    decreases k,
{
    if k == 0 {
        assert(over_sources(m, ts, 0, by_raw_ids()) =~= Seq::<Seq<char>>::empty());
        assert(over_sources(m, ts, 0, by_nodes()) =~= Seq::<FuseNodeView>::empty());
    } else {
        lemma_parallel_flatten(m, ts, (k - 1) as nat);
        lemma_over_sources_step(m, ts, (k - 1) as nat, by_raw_ids());
        lemma_over_sources_step(m, ts, (k - 1) as nat, by_nodes());
    }
}

proof fn lemma_nested_len<A, B>(a: Seq<Seq<A>>, b: Seq<Seq<B>>)
    requires
        a.len() == b.len(),
        forall|i: int| 0 <= i < a.len() ==> #[trigger] a[i].len() == b[i].len(),
    ensures
        a.flatten().len() == b.flatten().len(),
    decreases a.len(),
{
    if a.len() > 0 {
        assert forall|i: int| 0 <= i < a.drop_first().len() implies #[trigger] a.drop_first()[i].len() == b.drop_first()[i].len() by {
            assert(a.drop_first()[i] == a[i + 1]);
            assert(b.drop_first()[i] == b[i + 1]);
        }
        lemma_nested_len(a.drop_first(), b.drop_first());
    }
}

/// The raw targets run parallel to the edges.
proof fn lemma_parallel_edges(m: ManifestView, ts: Seq<SourceTrace>, k: nat)
    requires
        k <= ts.len(),
    ensures
        over_sources(m, ts, k, by_raw_targets()).len() == over_sources(m, ts, k, by_edges()).len(),
    decreases k,
{
    if k == 0 {
        assert(over_sources(m, ts, 0, by_raw_targets()) =~= Seq::<Seq<char>>::empty());
        assert(over_sources(m, ts, 0, by_edges()) =~= Seq::<FuseEdgeView>::empty());
    } else {
        lemma_parallel_edges(m, ts, (k - 1) as nat);
        lemma_over_sources_step(m, ts, (k - 1) as nat, by_raw_targets());
        lemma_over_sources_step(m, ts, (k - 1) as nat, by_edges());
        let t = ts[k - 1];
        let src = m.sources[k - 1].name;
        let a = t.entries@.map_values(|n: TraceNode| node_raw_targets(n));
        let b = t.entries@.map_values(|n: TraceNode| node_edges_of(src, n));
        lemma_nested_len(a, b);
    }
}

/// The traces of runs that all succeeded, in order.
pub open spec fn ok_traces(runs: Seq<Result<SourceTrace, String>>) -> Seq<SourceTrace> {
    runs.map_values(|r: Result<SourceTrace, String>| match r {
        Ok(t) => t,
        Err(_) => vstd::pervasive::arbitrary(),
    })
}

/// Compose the runs of every source: when any source failed, a report with no
/// graph that keeps the healthy sources' findings and one failure per failed
/// source; otherwise the assembled composition.
pub fn fuse_runs(
    manifest: &Manifest,
    profile: &FuseProfile,
    runs: Vec<Result<SourceTrace, String>>,
    strict: bool,
    profiles: Vec<Result<Profile, String>>,
) -> (r: Result<FuseReport, String>)
    requires
        runs.len() == manifest.sources.len(),
        profiles.len() == manifest.sources.len(),
        runs_ok(runs@),
    ensures
        (exists|i: int| 0 <= i < runs.len() && runs@[i] is Err) ==> (r matches Ok(rep) && !rep.could_run && findings_view(
            rep.findings@,
        ) == promoted(
            healthy_findings(manifest@, runs@, runs.len() as nat) + failure_findings(manifest@, runs@, runs.len() as nat),
            strict,
        ) && rep.nodes.len() == 0 && rep.edges.len() == 0 && rep.pathways.len() == 0),
        (forall|i: int| 0 <= i < runs.len() ==> runs@[i] is Ok) ==> {
            let ts = ok_traces(runs@);
            &&& r matches Ok(rep) ==> assembled(manifest@, *profile, ts, strict, profiles@, rep)
            &&& r matches Err(e) ==> composition_refusal_holds(
                over_sources(manifest@, ts, ts.len(), by_nodes()),
                over_sources(manifest@, ts, ts.len(), by_pathways()),
                assembled_doc(manifest@, *profile, ts, profiles@),
                e@,
            )
        },
{
    let mut failed = false;
    let mut i: usize = 0;
    while i < runs.len()
        invariant
            i <= runs.len(),
            failed <==> exists|k: int| 0 <= k < i && runs@[k] is Err,
        decreases runs.len() - i,
    {
        if runs[i].is_err() {
            failed = true;
        }
        i += 1;
    }
    if failed {
        return Ok(failed_report(manifest, &runs, strict));
    }
    let ghost all = runs@;
    let mut traces: Vec<SourceTrace> = Vec::new();
    let mut runs = runs;
    let n = runs.len();
    let mut k: usize = 0;
    while k < n
        invariant
            k <= n,
            runs.len() == n - k,
            all.len() == n,
            runs@ == all.skip(k as int),
            traces@ == ok_traces(all).take(k as int),
            forall|q: int| 0 <= q < runs.len() ==> (#[trigger] runs@[q] matches Ok(t) && trace_severities_ok(t)),
            forall|q: int| 0 <= q < traces.len() ==> trace_severities_ok(#[trigger] traces@[q]),
            traces.len() == k,
        decreases n - k,
    {
        let ghost prev = traces@;
        let run = runs.remove(0);
        assert(run == all[k as int]);
        assert(runs@ =~= all.skip(k + 1));
        match run {
            Ok(t) => {
                traces.push(t);
                assert(traces@ =~= ok_traces(all).take(k + 1));
            },
            Err(_) => {
                assert(false);
            },
        }
        k += 1;
    }
    assert(traces@ =~= ok_traces(all));
    assemble(manifest, profile, traces, strict, profiles)
}


// ---------------------------------------------------------------- loading the fuse profile

/// A source-qualified kind: `source:kind`, one `:` with text on both sides.
pub open spec fn is_qualified(k: Seq<char>) -> bool {
    crate::text::count_char(k, ':') == 1 && k.len() > 0 && k[0] != ':' && k.last() != ':'
}

/// `expected a source-qualified kind 'source:kind', got '{kind}'`.
pub open spec fn qualified_refusal(kind: Seq<char>) -> Seq<char> {
    "expected a source-qualified kind 'source:kind', got '"@ + kind + "'"@
}

pub fn qualified_kind(kind: &str) -> (r: Result<(), String>)
    ensures
        match r {
            Ok(()) => is_qualified(kind@),
            Err(e) => !is_qualified(kind@) && e@ == qualified_refusal(kind@),
        },
{
    let v = crate::text::chars_of(kind);
    let mut colons: usize = 0;
    let mut i: usize = 0;
    while i < v.len()
        invariant
            i <= v.len(),
            v@ == kind@,
            colons == crate::text::count_char(v@.take(i as int), ':'),
            colons <= i,
        decreases v.len() - i,
    {
        assert(v@.take(i + 1).drop_last() =~= v@.take(i as int));
        if v[i] == ':' {
            colons += 1;
        }
        i += 1;
    }
    assert(v@.take(v.len() as int) =~= v@);
    if colons == 1 && v.len() > 0 && v[0] != ':' && v[v.len() - 1] != ':' {
        Ok(())
    } else {
        Err(msg3("expected a source-qualified kind 'source:kind', got '", kind, "'"))
    }
}

/// The keys a fuse profile may hold.
pub open spec fn fuse_key_known(k: Seq<char>) -> bool {
    k == "name"@ || k == "profile_version"@ || k == "edge_kinds"@ || k == "node_kinds"@ || k == "validations"@
}

/// The first fault of a fuse profile's top level: not a mapping, an unknown
/// key, node kinds, or no edge kinds.
pub open spec fn fuse_top_refusal(raw: Json) -> Option<Seq<char>> {
    match raw {
        Json::Object(ms) => match crate::seqs::first_index(ms, |m: (Seq<char>, Json)| !fuse_key_known(m.0)) {
            Some(i) => Some("fuse profile: unknown key '"@ + ms[i].0 + "'"@),
            None => if crate::json::lookup(ms, "node_kinds"@) is Some {
                Some("fuse profile must not declare 'node_kinds'; node kinds belong to source profiles"@)
            } else if crate::json::lookup(ms, "edge_kinds"@) is None {
                Some("fuse profile requires 'edge_kinds'"@)
            } else {
                None
            },
        },
        _ => Some("fuse profile must be a YAML mapping"@),
    }
}

/// Every pair an edge kind admits names two source-qualified kinds.
pub open spec fn declaration_ok(d: EdgeDeclaration) -> bool {
    forall|j: int| 0 <= j < d.allowed@.len() ==> is_qualified((#[trigger] d.allowed@[j]).0@) && is_qualified(d.allowed@[j].1@)
}

/// What a loaded fuse profile holds: named edge kinds in name order whose
/// admitted pairs are all source-qualified, and validation configurations
/// without null values.
pub open spec fn fuse_profile_ok(fp: FuseProfile) -> bool {
    &&& keys_sorted(fp.edges@)
    &&& forall|k: Seq<char>| #[trigger] assoc(fp.edges@, k) matches Some(d) ==> k.len() > 0 && declaration_ok(d)
    &&& forall|i: int, j: int|
        0 <= i < fp.validations@.len() && 0 <= j < fp.validations@[i].1@.len() ==> !((#[trigger] fp.validations@[i].1@[j]).1 is Null)
}

pub open spec fn edge_kind_refusal(name: Seq<char>, tail: Seq<char>) -> Seq<char> {
    "fuse profile edge_kinds: edge kind '"@ + name + tail
}

/// One `allowed` item of an edge kind: a pair of source-qualified kinds.
pub open spec fn allowed_item(name: Seq<char>, item: Json) -> Result<(Seq<char>, Seq<char>), Seq<char>> {
    let not_pair = edge_kind_refusal(name, "' admits only [source kind, target kind] pairs"@);
    match item {
        Json::Array(p) => if p.len() == 2 {
            match (p[0], p[1]) {
                (Json::Str(a), Json::Str(b)) => if !is_qualified(a) {
                    Err(qualified_refusal(a))
                } else if !is_qualified(b) {
                    Err(qualified_refusal(b))
                } else {
                    Ok((a, b))
                },
                _ => Err(not_pair),
            }
        } else {
            Err(not_pair)
        },
        _ => Err(not_pair),
    }
}

/// The first `n` items of an `allowed` list, read in order; the first refusal wins.
pub open spec fn allowed_items(name: Seq<char>, items: Seq<Json>, n: nat) -> Result<Seq<(Seq<char>, Seq<char>)>, Seq<char>>
    decreases n,
{
    if n == 0 {
        Ok(Seq::empty())
    } else {
        match allowed_items(name, items, (n - 1) as nat) {
            Err(e) => Err(e),
            Ok(ps) => match allowed_item(name, items[n - 1]) {
                Err(e) => Err(e),
                Ok(pair) => Ok(ps.push(pair)),
            },
        }
    }
}

/// An edge kind's declaration: a mapping whose `allowed` list holds the pairs.
pub open spec fn edge_declaration_of(name: Seq<char>, v: Json) -> Result<Seq<(Seq<char>, Seq<char>)>, Seq<char>> {
    match v {
        Json::Object(ms) => match crate::json::lookup(ms, "allowed"@) {
            Some(Json::Array(items)) => allowed_items(name, items, items.len()),
            _ => Err(edge_kind_refusal(name, "' needs an 'allowed' list"@)),
        },
        _ => Err(edge_kind_refusal(name, "' must be a mapping"@)),
    }
}

pub open spec fn text_pairs(s: Seq<(String, String)>) -> Seq<(Seq<char>, Seq<char>)> {
    s.map_values(|p: (String, String)| (p.0@, p.1@))
}

fn edge_declaration(name: &str, v: &JsonValue) -> (r: Result<EdgeDeclaration, String>)
    ensures
        r matches Ok(d) ==> declaration_ok(d),
        match r {
            Ok(d) => edge_declaration_of(name@, v.deep()) == Ok::<Seq<(Seq<char>, Seq<char>)>, Seq<char>>(text_pairs(d.allowed@)),
            Err(e) => edge_declaration_of(name@, v.deep()) == Err::<Seq<(Seq<char>, Seq<char>)>, Seq<char>>(e@),
        },
{
    let items = match v {
        JsonValue::Object(ms) => match crate::json::get(ms, "allowed") {
            Some(JsonValue::Array(items)) => items,
            _ => {
                return Err(msg3("fuse profile edge_kinds: edge kind '", name, "' needs an 'allowed' list"));
            },
        },
        _ => {
            return Err(msg3("fuse profile edge_kinds: edge kind '", name, "' must be a mapping"));
        },
    };
    let ghost dv = crate::json::deep_items(items@, items@.len());
    proof {
        crate::json::lemma_items(items@, items@.len());
        assert(edge_declaration_of(name@, v.deep()) == allowed_items(name@, dv, dv.len()));
    }
    let mut allowed: Vec<(String, String)> = Vec::new();
    assert(text_pairs(allowed@) =~= Seq::<(Seq<char>, Seq<char>)>::empty());
    let mut i: usize = 0;
    while i < items.len()
        invariant
            i <= items.len(),
            dv.len() == items.len(),
            edge_declaration_of(name@, v.deep()) == allowed_items(name@, dv, dv.len()),
            forall|k: int| 0 <= k < items.len() ==> dv[k] == (#[trigger] items@[k]).deep(),
            allowed_items(name@, dv, i as nat) == Ok::<Seq<(Seq<char>, Seq<char>)>, Seq<char>>(text_pairs(allowed@)),
            forall|j: int|
                0 <= j < allowed@.len() ==> is_qualified((#[trigger] allowed@[j]).0@) && is_qualified(allowed@[j].1@),
        decreases items.len() - i,
    {
        let ghost item = dv[i as int];
        proof {
            reveal_strlit("fuse profile edge_kinds: edge kind '");
            reveal_strlit("' admits only [source kind, target kind] pairs");
            lemma_allowed_items_step(name@, dv, (i + 1) as nat);
            lemma_allowed_items_stays(name@, dv, (i + 1) as nat, dv.len());
        }
        let pair = match &items[i] {
            JsonValue::Array(p) => if p.len() == 2 {
                proof {
                    crate::json::lemma_items(p@, p@.len());
                }
                match (&p[0], &p[1]) {
                    (JsonValue::Str(a), JsonValue::Str(b)) => (a.clone(), b.clone()),
                    _ => {
                        return Err(msg3("fuse profile edge_kinds: edge kind '", name, "' admits only [source kind, target kind] pairs"));
                    },
                }
            } else {
                proof {
                    crate::json::lemma_items(p@, p@.len());
                }
                return Err(msg3("fuse profile edge_kinds: edge kind '", name, "' admits only [source kind, target kind] pairs"));
            },
            _ => {
                return Err(msg3("fuse profile edge_kinds: edge kind '", name, "' admits only [source kind, target kind] pairs"));
            },
        };
        if let Err(e) = qualified_kind(pair.0.as_str()) {
            return Err(e);
        }
        if let Err(e) = qualified_kind(pair.1.as_str()) {
            return Err(e);
        }
        let ghost prev = allowed@;
        allowed.push(pair);
        assert(text_pairs(allowed@) =~= text_pairs(prev).push((pair.0@, pair.1@)));
        i += 1;
    }
    Ok(EdgeDeclaration { allowed })
}

/// A refusal among the first items stands for the whole list.
proof fn lemma_allowed_items_stays(name: Seq<char>, items: Seq<Json>, m: nat, n: nat)
    requires
        m <= n,
    ensures
        allowed_items(name, items, m) is Err ==> allowed_items(name, items, n) == allowed_items(name, items, m),
    decreases n,
{
    if m < n {
        lemma_allowed_items_stays(name, items, m, (n - 1) as nat);
    }
}

/// One step of `allowed_items`.
proof fn lemma_allowed_items_step(name: Seq<char>, items: Seq<Json>, n: nat)
    requires
        n > 0,
    ensures
        allowed_items(name, items, n) == match allowed_items(name, items, (n - 1) as nat) {
            Err(e) => Err(e),
            Ok(ps) => match allowed_item(name, items[n - 1]) {
                Err(e) => Err(e),
                Ok(pair) => Ok::<Seq<(Seq<char>, Seq<char>)>, Seq<char>>(ps.push(pair)),
            },
        },
{
}

/// The keys a COVERAGE configuration may hold.
pub open spec fn is_coverage_key(k: Seq<char>) -> bool {
    k == "severity"@ || k == "target_kind"@ || k == "edge_kind"@ || k == "where"@
}

/// The COVERAGE keys a fuse profile accepts.
fn coverage_key_known(k: &str) -> (r: bool)
    ensures
        r == is_coverage_key(k@),
{
    str_eq(k, "severity") || str_eq(k, "target_kind") || str_eq(k, "edge_kind") || str_eq(k, "where")
}

/// The code and configuration of a validation entry: a mapping of one code
/// to a mapping.
pub open spec fn validation_parts(entry: Json) -> Option<(Seq<char>, Seq<(Seq<char>, Json)>)> {
    match entry {
        Json::Object(ms) => if ms.len() == 1 {
            match ms[0].1 {
                Json::Object(c) => Some((ms[0].0, c)),
                _ => None,
            }
        } else {
            None
        },
        _ => None,
    }
}

/// Whether a configuration's severity is absent, null, or a known severity.
pub open spec fn severity_ok(c: Seq<(Seq<char>, Json)>) -> bool {
    match crate::json::lookup(c, "severity"@) {
        None => true,
        Some(Json::Null) => true,
        Some(Json::Str(t)) => severity_of_text(t) is Some,
        _ => false,
    }
}

/// The first key of a COVERAGE configuration that it does not accept, as a refusal.
pub open spec fn unknown_key_refusal(c: Seq<(Seq<char>, Json)>) -> Option<Seq<char>>
    decreases c.len(),
{
    if c.len() == 0 {
        None
    } else if !is_coverage_key(c[0].0) {
        Some("COVERAGE: unknown config key '"@ + c[0].0 + "'"@)
    } else {
        unknown_key_refusal(c.drop_first())
    }
}

/// Why a COVERAGE configuration is refused before its `where` block is read.
pub open spec fn coverage_refusal(c: Seq<(Seq<char>, Json)>) -> Option<Seq<char>> {
    match crate::json::lookup(c, "target_kind"@) {
        Some(Json::Str(t)) => if t.len() == 0 {
            Some("target_kind: expected a non-empty string"@)
        } else {
            match crate::json::lookup(c, "edge_kind"@) {
                Some(Json::Str(e)) => if e.len() == 0 {
                    Some("edge_kind: expected a non-empty string"@)
                } else if !is_qualified(t) {
                    Some(qualified_refusal(t))
                } else {
                    unknown_key_refusal(c)
                },
                _ => Some("COVERAGE requires 'edge_kind'"@),
            }
        },
        _ => Some("COVERAGE requires 'target_kind'"@),
    }
}

/// Why a validation entry is refused before a COVERAGE `where` block is read.
pub open spec fn validation_refusal(entry: Json) -> Option<Seq<char>> {
    match entry {
        Json::Object(ms) => if ms.len() == 1 {
            match ms[0].1 {
                Json::Object(c) => if !severity_ok(c) {
                    Some("invalid validation severity"@)
                } else if ms[0].0 == "COVERAGE"@ {
                    coverage_refusal(c)
                } else {
                    None
                },
                _ => Some("validation config must be a mapping"@),
            }
        } else {
            Some("expected one validation code mapping"@)
        },
        _ => Some("expected one validation code mapping"@),
    }
}

/// The `where` block of a COVERAGE entry, when it has one that is not null.
pub open spec fn coverage_where(entry: Json) -> Option<Json> {
    match validation_parts(entry) {
        Some((code, c)) => if code == "COVERAGE"@ {
            match crate::json::lookup(c, "where"@) {
                Some(Json::Null) => None,
                Some(w) => Some(w),
                None => None,
            }
        } else {
            None
        },
        None => None,
    }
}

/// A JSON `where` block whose YAML form reads as a condition block.
pub open spec fn where_reads(w: Json) -> bool {
    exists|x: JsonValue, y: YamlValue| x.deep() == w && #[trigger] yaml_holds(y, x) && crate::profile::decl_block(Some(y)) is Some
}

/// A JSON `where` block whose YAML form is refused as a condition block.
pub open spec fn where_refused(w: Json) -> bool {
    exists|x: JsonValue, y: YamlValue| x.deep() == w && #[trigger] yaml_holds(y, x) && crate::profile::decl_block(Some(y)) is None
}

/// The members of a configuration without those whose value is null; of the first `n`.
pub open spec fn without_nulls(c: Seq<(Seq<char>, Json)>, n: nat) -> Seq<(Seq<char>, Json)>
    decreases n,
{
    if n == 0 || n > c.len() {
        Seq::empty()
    } else if c[n - 1].1 is Null {
        without_nulls(c, (n - 1) as nat)
    } else {
        without_nulls(c, (n - 1) as nat).push(c[n - 1])
    }
}

/// A refusal found among the later keys stands for the whole configuration.
proof fn lemma_unknown_key_from(c: Seq<(Seq<char>, Json)>, k: int)
    requires
        0 <= k < c.len(),
        is_coverage_key(c[k].0),
    ensures
        unknown_key_refusal(c.subrange(k, c.len() as int)) == unknown_key_refusal(c.subrange(k + 1, c.len() as int)),
{
    assert(c.subrange(k, c.len() as int).drop_first() =~= c.subrange(k + 1, c.len() as int));
}

/// Check one validation entry and keep its configuration without null values.
fn validation_entry(entry: &JsonValue) -> (r: Result<(String, Vec<(String, JsonValue)>), String>)
    ensures
        r matches Ok(v) ==> forall|j: int| 0 <= j < v.1@.len() ==> !((#[trigger] v.1@[j]).1 is Null),
        validation_refusal(entry.deep()) matches Some(t) ==> r matches Err(e) && e@ == t,
        r matches Ok(v) ==> {
            &&& validation_refusal(entry.deep()) is None
            &&& validation_parts(entry.deep()) matches Some(parts) && v.0@ == parts.0 && members_view(v.1@)
                == without_nulls(parts.1, parts.1.len())
            &&& coverage_where(entry.deep()) matches Some(w) ==> where_reads(w)
        },
        r matches Err(e) ==> validation_refusal(entry.deep()) == Some(e@) || {
            &&& validation_refusal(entry.deep()) is None
            &&& coverage_where(entry.deep()) matches Some(w) && where_refused(w)
            &&& e@.len() >= 14 && e@.take(14) == "fuse profile: "@
        },
        validation_refusal(entry.deep()) is None && coverage_where(entry.deep()) is None ==> r is Ok,
{
    let ghost ev = entry.deep();
    let (code, config) = match entry {
        JsonValue::Object(ms) => if ms.len() == 1 {
            proof {
                crate::json::lemma_members(ms@, ms@.len());
            }
            match &ms[0].1 {
                JsonValue::Object(c) => (&ms[0].0, c),
                _ => {
                    return Err(copy_str("validation config must be a mapping"));
                },
            }
        } else {
            proof {
                crate::json::lemma_members(ms@, ms@.len());
            }
            return Err(copy_str("expected one validation code mapping"));
        },
        _ => {
            return Err(copy_str("expected one validation code mapping"));
        },
    };
    let ghost cv = members_view(config@);
    proof {
        crate::json::lemma_members(config@, config@.len());
        assert(validation_parts(ev) == Some((code@, cv)));
    }
    match crate::json::get(config, "severity") {
        Some(JsonValue::Null) | None => {},
        Some(JsonValue::Str(t)) => {
            if Severity::parse(t.as_str()).is_none() {
                return Err(copy_str("invalid validation severity"));
            }
        },
        Some(_) => {
            return Err(copy_str("invalid validation severity"));
        },
    }
    assert(severity_ok(cv));
    if str_eq(code.as_str(), "COVERAGE") {
        let target = match crate::json::get(config, "target_kind") {
            Some(JsonValue::Str(t)) => t,
            _ => {
                return Err(copy_str("COVERAGE requires 'target_kind'"));
            },
        };
        if target.as_str().unicode_len() == 0 {
            return Err(copy_str("target_kind: expected a non-empty string"));
        }
        match crate::json::get(config, "edge_kind") {
            Some(JsonValue::Str(t)) => {
                if t.as_str().unicode_len() == 0 {
                    return Err(copy_str("edge_kind: expected a non-empty string"));
                }
            },
            _ => {
                return Err(copy_str("COVERAGE requires 'edge_kind'"));
            },
        }
        if let Err(e) = qualified_kind(target.as_str()) {
            return Err(e);
        }
        assert(cv.subrange(0, cv.len() as int) =~= cv);
        assert(validation_refusal(ev) == unknown_key_refusal(cv));
        let mut k: usize = 0;
        while k < config.len()
            invariant
                k <= config.len(),
                ev == entry.deep(),
                validation_refusal(ev) == unknown_key_refusal(cv),
                cv.len() == config.len(),
                forall|j: int| 0 <= j < config.len() ==> cv[j] == ((#[trigger] config@[j]).0@, config@[j].1.deep()),
                unknown_key_refusal(cv) == unknown_key_refusal(cv.subrange(k as int, cv.len() as int)),
            decreases config.len() - k,
        {
            if !coverage_key_known(config[k].0.as_str()) {
                assert(cv.subrange(k as int, cv.len() as int)[0] == cv[k as int]);
                return Err(msg3("COVERAGE: unknown config key '", config[k].0.as_str(), "'"));
            }
            proof {
                lemma_unknown_key_from(cv, k as int);
            }
            k += 1;
        }
        assert(cv.subrange(k as int, cv.len() as int) =~= Seq::<(Seq<char>, Json)>::empty());
        assert(validation_refusal(ev) is None);
        match crate::json::get(config, "where") {
            Some(JsonValue::Null) | None => {},
            Some(w) => {
                let block = yaml_of_json(w);
                match crate::profile::parse_condition_block(Some(&block), "COVERAGE", "where") {
                    Ok(_) => {
                        assert(yaml_holds(block, *w));
                        assert(where_reads(w.deep()));
                    },
                    Err(e) => {
                        assert(yaml_holds(block, *w));
                        assert(where_refused(w.deep()));
                        let m = msg2("fuse profile: ", e.0.as_str());
                        proof {
                            reveal_strlit("fuse profile: ");
                            assert(m@.take(14) =~= "fuse profile: "@);
                        }
                        return Err(m);
                    },
                }
            },
        }
    }
    assert(validation_refusal(ev) is None);
    let mut kept: Vec<(String, JsonValue)> = Vec::new();
    assert(members_view(kept@) =~= without_nulls(cv, 0));
    let mut k: usize = 0;
    while k < config.len()
        invariant
            k <= config.len(),
            cv.len() == config.len(),
            forall|j: int| 0 <= j < config.len() ==> cv[j] == ((#[trigger] config@[j]).0@, config@[j].1.deep()),
            members_view(kept@) == without_nulls(cv, k as nat),
            forall|j: int| 0 <= j < kept@.len() ==> !((#[trigger] kept@[j]).1 is Null),
        decreases config.len() - k,
    {
        let ghost prev = kept@;
        match &config[k].1 {
            JsonValue::Null => {},
            other => {
                let item = (config[k].0.clone(), crate::json::copy_json(other));
                kept.push(item);
                assert(!(kept@[kept@.len() - 1].1 is Null)) by {
                    let last = kept@[kept@.len() - 1].1;
                    if last is Null {
                        assert(last.deep() == Json::Null);
                    }
                }
                proof {
                    crate::json::lemma_members(prev, prev.len());
                    crate::json::lemma_members(kept@, kept@.len());
                    assert(members_view(kept@) =~= members_view(prev).push(cv[k as int]));
                }
            },
        }
        k += 1;
    }
    Ok((code.clone(), kept))
}

/// Load a fuse profile from its parsed document: only the known keys, no node
/// kinds, edge kinds whose admitted pairs name source-qualified kinds, and
/// validations that are well formed, COVERAGE ones checked in full.
pub fn parse_fuse_profile(raw: &JsonValue) -> (r: Result<FuseProfile, String>)
    ensures
        match r {
            Ok(fp) => fuse_top_refusal(raw.deep()) is None && fuse_profile_ok(fp),
            Err(e) => fuse_top_refusal(raw.deep()) is Some ==> fuse_top_refusal(raw.deep()) == Some(e@),
        },
{
    let top = match raw {
        JsonValue::Object(ms) => ms,
        _ => {
            return Err(copy_str("fuse profile must be a YAML mapping"));
        },
    };
    proof {
        crate::json::lemma_members(top@, top@.len());
    }
    let ghost tv = members_view(top@);
    assert(raw.deep() == Json::Object(tv));
    let ghost unknown = |m: (Seq<char>, Json)| !fuse_key_known(m.0);
    let mut i: usize = 0;
    while i < top.len()
        invariant
            i <= top.len(),
            tv == members_view(top@),
            tv.len() == top.len(),
            forall|k: int| 0 <= k < top.len() ==> #[trigger] tv[k] == (top@[k].0@, top@[k].1.deep()),
            unknown == (|m: (Seq<char>, Json)| !fuse_key_known(m.0)),
            raw.deep() == Json::Object(tv),
            forall|k: int| 0 <= k < i ==> !unknown(#[trigger] tv[k]),
        decreases top.len() - i,
    {
        let key = top[i].0.as_str();
        let known = str_eq(key, "name") || str_eq(key, "profile_version") || str_eq(key, "edge_kinds") || str_eq(
            key,
            "node_kinds",
        ) || str_eq(key, "validations");
        if !known {
            proof {
                crate::seqs::lemma_first_index_at(tv, unknown, i as int);
            }
            return Err(msg3("fuse profile: unknown key '", key, "'"));
        }
        i += 1;
    }
    proof {
        crate::seqs::lemma_first_index_at(tv, unknown, i as int);
    }
    if crate::json::get(top, "node_kinds").is_some() {
        return Err(copy_str("fuse profile must not declare 'node_kinds'; node kinds belong to source profiles"));
    }
    let edge_doc = match crate::json::get(top, "edge_kinds") {
        Some(v) => v,
        None => {
            return Err(copy_str("fuse profile requires 'edge_kinds'"));
        },
    };
    let entries = match edge_doc {
        JsonValue::Object(es) => es,
        _ => {
            return Err(copy_str("fuse profile edge_kinds: expected a mapping"));
        },
    };
    let mut edges: Vec<(String, EdgeDeclaration)> = Vec::new();
    let mut e: usize = 0;
    while e < entries.len()
        invariant
            e <= entries.len(),
            keys_sorted(edges@),
            fuse_top_refusal(raw.deep()) is None,
            forall|k: Seq<char>| #[trigger] assoc(edges@, k) matches Some(d) ==> k.len() > 0 && declaration_ok(d),
        decreases entries.len() - e,
    {
        let name = entries[e].0.as_str();
        if name.unicode_len() == 0 {
            return Err(copy_str("edge kind: expected a non-empty string"));
        }
        let decl = edge_declaration(name, &entries[e].1);
        let decl = match decl {
            Ok(d) => d,
            Err(m) => {
                return Err(m);
            },
        };
        crate::assoc::sorted_insert(&mut edges, entries[e].0.clone(), decl);
        e += 1;
    }
    let mut validations: Vec<(String, Vec<(String, JsonValue)>)> = Vec::new();
    match crate::json::get(top, "validations") {
        None | Some(JsonValue::Null) => {},
        Some(JsonValue::Array(items)) => {
            let mut k: usize = 0;
            while k < items.len()
                invariant
                    k <= items.len(),
                    fuse_top_refusal(raw.deep()) is None,
                    forall|q: int, j: int|
                        0 <= q < validations@.len() && 0 <= j < validations@[q].1@.len() ==> !((#[trigger] validations@[q].1@[j]).1 is Null),
                decreases items.len() - k,
            {
                let v = validation_entry(&items[k])?;
                let ghost before = validations@;
                validations.push(v);
                assert forall|q: int, j: int|
                    0 <= q < validations@.len() && 0 <= j < validations@[q].1@.len() implies !((#[trigger] validations@[q].1@[j]).1 is Null) by {
                    if q < before.len() {
                        assert(validations@[q] == before[q]);
                    }
                }
                k += 1;
            }
        },
        Some(_) => {
            return Err(copy_str("'validations' must be a list"));
        },
    }
    let fp = FuseProfile { edges, validations };
    Ok(fp)
}

} // verus!
