//! Composing several sources' traces: the manifest that names them, the fuse
//! profile that joins them, and the trace documents each source emits.

use vstd::prelude::*;

use crate::graph::{LatticeGraph, PathwayView};
use crate::json::{Json, JsonValue, members_view};
use crate::text::{contains_char, copy_str, msg2, msg3, push_str, str_eq, starts_with, texts};
use crate::trace::PathwayEntry;
use crate::types::{issues_view, opt_view, severity_of_text, Issue, IssueView, Provenance, ProvenanceView, Severity};

verus! {

broadcast use vstd::string::group_string_axioms;

/// One source of a composed register: its name, and where its profile,
/// adapter and target are.
pub struct Source {
    pub name: String,
    pub profile: String,
    pub adapter: String,
    pub target: String,
}

/// A composition manifest: its identity, its fuse profile, and its sources.
pub struct Manifest {
    pub manifest_version: String,
    pub name: String,
    pub version: String,
    pub fuse_profile: String,
    pub sources: Vec<Source>,
}

/// `{where_}: expected a non-empty string`.
pub open spec fn empty_refusal(where_: Seq<char>) -> Seq<char> {
    where_ + ": expected a non-empty string"@
}

/// `'{key}' must be a non-empty relative path`.
pub open spec fn path_refusal(key: Seq<char>) -> Seq<char> {
    "'"@ + key + "' must be a non-empty relative path"@
}

/// A path that is neither empty nor absolute.
pub open spec fn relative_ok(path: Seq<char>) -> bool {
    path.len() > 0 && path[0] != '/'
}

/// `base.join(path)` for a relative `path`.
pub open spec fn joined(base: Seq<char>, path: Seq<char>) -> Seq<char> {
    if base.len() > 0 && base.last() == '/' {
        base + path
    } else {
        base + seq!['/'] + path
    }
}

fn nonempty(value: &str, where_: &str) -> (r: Result<(), String>)
    ensures
        match r {
            Ok(()) => value@.len() > 0,
            Err(e) => value@.len() == 0 && e@ == empty_refusal(where_@),
        },
{
    if value.unicode_len() == 0 {
        Err(msg2(where_, ": expected a non-empty string"))
    } else {
        Ok(())
    }
}

fn relative(base: &str, path: &str, key: &str) -> (r: Result<String, String>)
    ensures
        match r {
            Ok(p) => relative_ok(path@) && p@ == joined(base@, path@),
            Err(e) => !relative_ok(path@) && e@ == path_refusal(key@),
        },
{
    if path.unicode_len() == 0 || starts_with(path, "/") {
        proof {
            reveal_strlit("/");
            assert("/"@ =~= seq!['/']);
            if path@.len() > 0 {
                assert(path@.take(1) =~= seq![path@[0]]);
                assert(path@.take(1)[0] == path@[0]);
                assert(path@[0] == '/');
            }
        }
        return Err(msg3("'", key, "' must be a non-empty relative path"));
    }
    proof {
        reveal_strlit("/");
        assert("/"@ =~= seq!['/']);
        assert(path@.take(1) =~= seq![path@[0]]);
    }
    let v = crate::text::chars_of(base);
    let mut out = copy_str(base);
    if v.len() == 0 || v[v.len() - 1] != '/' {
        push_str(&mut out, "/");
    }
    push_str(&mut out, path);
    proof {
        assert("/"@ =~= seq!['/']);
    }
    assert(out@ =~= joined(base@, path@));
    Ok(out)
}

/// Why a manifest cannot be used, checking its fields, then its sources in order.
pub open spec fn manifest_refusal(m: ManifestView) -> Option<Seq<char>> {
    if m.manifest_version.len() == 0 {
        Some(empty_refusal("manifest_version"@))
    } else if m.name.len() == 0 {
        Some(empty_refusal("name"@))
    } else if m.version.len() == 0 {
        Some(empty_refusal("version"@))
    } else if m.sources.len() == 0 {
        Some("'sources' must be a non-empty list"@)
    } else if !relative_ok(m.fuse_profile) {
        Some(path_refusal("fuse_profile"@))
    } else {
        sources_refusal(m.sources, m.sources.len())
    }
}

/// Why one of the first `k` sources cannot be used: the first fault found.
pub open spec fn sources_refusal(ss: Seq<SourceView>, k: nat) -> Option<Seq<char>>
    decreases k,
{
    if k == 0 || k > ss.len() {
        None
    } else {
        match sources_refusal(ss, (k - 1) as nat) {
            Some(e) => Some(e),
            None => source_refusal(ss, k - 1),
        }
    }
}

proof fn lemma_sources_refusal_stable(ss: Seq<SourceView>, k: nat, m: nat)
    requires
        k <= m <= ss.len(),
        sources_refusal(ss, k) is Some,
    ensures
        sources_refusal(ss, m) == sources_refusal(ss, k),
    decreases m - k,
{
    if k < m {
        lemma_sources_refusal_stable(ss, k, (m - 1) as nat);
    }
}

/// Why source `i` cannot be used, given the ones before it.
pub open spec fn source_refusal(ss: Seq<SourceView>, i: int) -> Option<Seq<char>> {
    let s = ss[i];
    if s.name.len() == 0 {
        Some(empty_refusal("source name"@))
    } else if s.name.contains(':') {
        Some("source names must not contain ':'"@)
    } else if exists|j: int| 0 <= j < i && (#[trigger] ss[j]).name == s.name {
        Some("duplicate source name '"@ + s.name + "'"@)
    } else if !relative_ok(s.profile) {
        Some(path_refusal("profile"@))
    } else if !relative_ok(s.adapter) {
        Some(path_refusal("adapter"@))
    } else if !relative_ok(s.target) {
        Some(path_refusal("target"@))
    } else {
        None
    }
}

pub struct SourceView {
    pub name: Seq<char>,
    pub profile: Seq<char>,
    pub adapter: Seq<char>,
    pub target: Seq<char>,
}

impl View for Source {
    type V = SourceView;

    open spec fn view(&self) -> SourceView {
        SourceView { name: self.name@, profile: self.profile@, adapter: self.adapter@, target: self.target@ }
    }
}

pub struct ManifestView {
    pub manifest_version: Seq<char>,
    pub name: Seq<char>,
    pub version: Seq<char>,
    pub fuse_profile: Seq<char>,
    pub sources: Seq<SourceView>,
}

impl View for Manifest {
    type V = ManifestView;

    open spec fn view(&self) -> ManifestView {
        ManifestView {
            manifest_version: self.manifest_version@,
            name: self.name@,
            version: self.version@,
            fuse_profile: self.fuse_profile@,
            sources: self.sources@.map_values(|s: Source| s@),
        }
    }
}

/// The manifest with its paths resolved against `base`.
pub open spec fn resolved_manifest(m: ManifestView, base: Seq<char>) -> ManifestView {
    ManifestView {
        fuse_profile: joined(base, m.fuse_profile),
        sources: m.sources.map_values(
            |s: SourceView|
                SourceView {
                    name: s.name,
                    profile: joined(base, s.profile),
                    adapter: joined(base, s.adapter),
                    target: joined(base, s.target),
                },
        ),
        ..m
    }
}

/// Check a decoded manifest and resolve its paths against the directory
/// `base` that holds it: identity fields non-empty, at least one source, every
/// path relative, source names non-empty, free of `:` and distinct.
pub fn validate_manifest(manifest: Manifest, base: &str) -> (r: Result<Manifest, String>)
    ensures
        match r {
            Ok(m) => manifest_refusal(manifest@) is None && m@ == resolved_manifest(manifest@, base@),
            Err(e) => manifest_refusal(manifest@) == Some(e@),
        },
{
    let ghost mv = manifest@;
    nonempty(manifest.manifest_version.as_str(), "manifest_version")?;
    nonempty(manifest.name.as_str(), "name")?;
    nonempty(manifest.version.as_str(), "version")?;
    if manifest.sources.len() == 0 {
        return Err(copy_str("'sources' must be a non-empty list"));
    }
    let fuse_profile = relative(base, manifest.fuse_profile.as_str(), "fuse_profile")?;
    let ghost ss = mv.sources;
    let mut sources: Vec<Source> = Vec::new();
    let mut i: usize = 0;
    #[verifier::loop_isolation(false)]
    while i < manifest.sources.len()
        invariant
            i <= manifest.sources.len(),
            ss == manifest@.sources,
            ss.len() == manifest.sources.len(),
            sources_refusal(ss, i as nat) is None,
            sources.len() == i,
            forall|k: int|
                0 <= k < i ==> (#[trigger] sources@[k])@ == (SourceView {
                    name: ss[k].name,
                    profile: joined(base@, ss[k].profile),
                    adapter: joined(base@, ss[k].adapter),
                    target: joined(base@, ss[k].target),
                }),
        decreases manifest.sources.len() - i,
    {
        let s = &manifest.sources[i];
        assert(ss[i as int] == s@);
        proof {
            assert(sources_refusal(ss, (i + 1) as nat) == source_refusal(ss, i as int));
            if source_refusal(ss, i as int) is Some {
                lemma_sources_refusal_stable(ss, (i + 1) as nat, ss.len());
            }
        }
        nonempty(s.name.as_str(), "source name")?;
        if contains_char(s.name.as_str(), ':') {
            return Err(copy_str("source names must not contain ':'"));
        }
        let mut j: usize = 0;
        #[verifier::loop_isolation(false)]
        while j < i
            invariant
                j <= i < manifest.sources.len(),
                ss == manifest@.sources,
                s@ == ss[i as int],
                forall|k: int| 0 <= k < j ==> (#[trigger] ss[k]).name != s@.name,
            decreases i - j,
        {
            assert(ss[j as int] == manifest.sources@[j as int]@);
            if str_eq(manifest.sources[j].name.as_str(), s.name.as_str()) {
                assert(ss[j as int].name == s@.name);
                return Err(msg3("duplicate source name '", s.name.as_str(), "'"));
            }
            j += 1;
        }
        let profile = relative(base, s.profile.as_str(), "profile")?;
        let adapter = relative(base, s.adapter.as_str(), "adapter")?;
        let target = relative(base, s.target.as_str(), "target")?;
        sources.push(Source { name: s.name.clone(), profile, adapter, target });
        i += 1;
    }
    let out = Manifest {
        manifest_version: manifest.manifest_version,
        name: manifest.name,
        version: manifest.version,
        fuse_profile,
        sources,
    };
    assert(out@.sources =~= resolved_manifest(mv, base@).sources);
    Ok(out)
}

// ---------------------------------------------------------------- traces

/// Where a trace says something was written.
pub struct TraceLocation {
    pub file: String,
    pub line: i64,
}

/// A finding as a source's trace reports it.
pub struct TraceFinding {
    pub code: String,
    pub severity: String,
    pub message: String,
    pub file: String,
    pub line: i64,
    pub node_id: Option<String>,
    pub state: Option<String>,
}

/// An outgoing edge as a source's trace reports it.
pub struct TraceEdge {
    pub tgt: String,
    pub kind: String,
    pub attrs: Vec<(String, JsonValue)>,
    pub provenance: TraceLocation,
}

/// A node as a source's trace reports it.
pub struct TraceNode {
    pub id: String,
    pub kind: String,
    pub attrs: Vec<(String, JsonValue)>,
    pub provenance: TraceLocation,
    pub edges: Vec<TraceEdge>,
    pub findings: Vec<TraceFinding>,
}

/// A pathway as a source's trace reports it.
pub struct TracePathway {
    pub name: String,
    pub order: Vec<String>,
    pub current: String,
}

/// One source's trace document.
pub struct SourceTrace {
    pub header: Vec<(String, String)>,
    pub entries: Vec<TraceNode>,
    pub unattachable_findings: Vec<TraceFinding>,
    pub pathways: Vec<TracePathway>,
}

/// The value a header holds under `key`: the first entry with it.
pub open spec fn header_value(h: Seq<(String, String)>, key: Seq<char>) -> Option<Seq<char>>
    decreases h.len(),
{
    if h.len() == 0 {
        None
    } else if h[0].0@ == key {
        Some(h[0].1@)
    } else {
        header_value(h.drop_first(), key)
    }
}

/// Whether every finding's severity is a wire spelling.
pub open spec fn severities_ok(fs: Seq<TraceFinding>) -> bool {
    forall|i: int| 0 <= i < fs.len() ==> severity_of_text((#[trigger] fs[i]).severity@) is Some
}

/// Whether a trace's findings all carry a wire severity.
pub open spec fn trace_severities_ok(t: SourceTrace) -> bool {
    &&& forall|i: int| 0 <= i < t.entries.len() ==> severities_ok((#[trigger] t.entries@[i]).findings@)
    &&& severities_ok(t.unattachable_findings@)
}

/// The first fault of a trace's nodes among the first `k`: an empty ID or
/// kind, a repeated ID, or an edge with an empty target or kind.
pub open spec fn nodes_refusal(es: Seq<TraceNode>, k: nat) -> Option<Seq<char>>
    decreases k,
{
    if k == 0 || k > es.len() {
        None
    } else {
        match nodes_refusal(es, (k - 1) as nat) {
            Some(e) => Some(e),
            None => node_refusal(es, k - 1),
        }
    }
}

proof fn lemma_nodes_refusal_stable(es: Seq<TraceNode>, k: nat, m: nat)
    requires
        k <= m <= es.len(),
        nodes_refusal(es, k) is Some,
    ensures
        nodes_refusal(es, m) == nodes_refusal(es, k),
    decreases m - k,
{
    if k < m {
        lemma_nodes_refusal_stable(es, k, (m - 1) as nat);
    }
}

pub open spec fn node_refusal(es: Seq<TraceNode>, i: int) -> Option<Seq<char>> {
    let n = es[i];
    if n.id@.len() == 0 {
        Some(empty_refusal("node id"@))
    } else if n.kind@.len() == 0 {
        Some(empty_refusal("node kind"@))
    } else if exists|j: int| 0 <= j < i && (#[trigger] es[j]).id@ == n.id@ {
        Some("repeated trace entry '"@ + n.id@ + "'"@)
    } else {
        edges_refusal(n.edges@)
    }
}

pub open spec fn edges_refusal(es: Seq<TraceEdge>) -> Option<Seq<char>> {
    if exists|j: int| 0 <= j < es.len() && ((#[trigger] es[j]).tgt@.len() == 0 || es[j].kind@.len() == 0) {
        let j = choose|j: int|
            0 <= j < es.len() && ((#[trigger] es[j]).tgt@.len() == 0 || es[j].kind@.len() == 0) && forall|k: int|
                0 <= k < j ==> es[k].tgt@.len() > 0 && es[k].kind@.len() > 0;
        if es[j].tgt@.len() == 0 {
            Some(empty_refusal("edge target"@))
        } else {
            Some(empty_refusal("edge kind"@))
        }
    } else {
        None
    }
}

fn check_edges(edges: &Vec<TraceEdge>) -> (r: Result<(), String>)
    ensures
        match r {
            Ok(()) => edges_refusal(edges@) is None,
            Err(e) => edges_refusal(edges@) == Some(e@),
        },
{
    let mut k: usize = 0;
    while k < edges.len()
        invariant
            k <= edges.len(),
            forall|q: int| 0 <= q < k ==> (#[trigger] edges@[q]).tgt@.len() > 0 && edges@[q].kind@.len() > 0,
        decreases edges.len() - k,
    {
        let e = &edges[k];
        if e.tgt.as_str().unicode_len() == 0 || e.kind.as_str().unicode_len() == 0 {
            proof {
                let es = edges@;
                assert(es[k as int].tgt@.len() == 0 || es[k as int].kind@.len() == 0);
                let c = choose|c: int|
                    0 <= c < es.len() && ((#[trigger] es[c]).tgt@.len() == 0 || es[c].kind@.len() == 0) && forall|q: int|
                        0 <= q < c ==> es[q].tgt@.len() > 0 && es[q].kind@.len() > 0;
                if c < k {
                    assert(es[c].tgt@.len() > 0 && es[c].kind@.len() > 0);
                }
                if c > k {
                    assert(es[k as int].tgt@.len() > 0 && es[k as int].kind@.len() > 0);
                }
            }
            if e.tgt.as_str().unicode_len() == 0 {
                return Err(msg2("edge target", ": expected a non-empty string"));
            }
            return Err(msg2("edge kind", ": expected a non-empty string"));
        }
        k += 1;
    }
    Ok(())
}

/// Whether a node before `i` has the ID of node `i`.
fn repeated_before(entries: &Vec<TraceNode>, i: usize) -> (r: bool)
    requires
        i < entries.len(),
    ensures
        r == exists|j: int| 0 <= j < i && (#[trigger] entries@[j]).id@ == entries@[i as int].id@,
{
    let mut j: usize = 0;
    while j < i
        invariant
            j <= i < entries.len(),
            forall|k: int| 0 <= k < j ==> (#[trigger] entries@[k]).id@ != entries@[i as int].id@,
        decreases i - j,
    {
        if str_eq(entries[j].id.as_str(), entries[i].id.as_str()) {
            assert(entries@[j as int].id@ == entries@[i as int].id@);
            return true;
        }
        j += 1;
    }
    false
}

fn check_nodes(entries: &Vec<TraceNode>) -> (r: Result<(), String>)
    ensures
        match r {
            Ok(()) => nodes_refusal(entries@, entries.len() as nat) is None,
            Err(e) => nodes_refusal(entries@, entries.len() as nat) == Some(e@),
        },
{
    let mut i: usize = 0;
    while i < entries.len()
        invariant
            i <= entries.len(),
            nodes_refusal(entries@, i as nat) is None,
        decreases entries.len() - i,
    {
        let n = &entries[i];
        proof {
            assert(nodes_refusal(entries@, (i + 1) as nat) == node_refusal(entries@, i as int));
            if node_refusal(entries@, i as int) is Some {
                lemma_nodes_refusal_stable(entries@, (i + 1) as nat, entries.len() as nat);
            }
        }
        nonempty(n.id.as_str(), "node id")?;
        nonempty(n.kind.as_str(), "node kind")?;
        if repeated_before(entries, i) {
            return Err(msg3("repeated trace entry '", n.id.as_str(), "'"));
        }
        check_edges(&n.edges)?;
        i += 1;
    }
    Ok(())
}

/// The severity of the first finding whose severity is no wire spelling.
pub open spec fn bad_severity(fs: Seq<TraceFinding>) -> Option<Seq<char>> {
    match crate::seqs::first_index(fs, |f: TraceFinding| severity_of_text(f.severity@) is None) {
        Some(i) => Some(fs[i].severity@),
        None => None,
    }
}

/// The first bad severity among the findings of the first `k` nodes.
pub open spec fn nodes_bad_severity(es: Seq<TraceNode>, k: nat) -> Option<Seq<char>>
    decreases k,
{
    if k == 0 || k > es.len() {
        None
    } else {
        match nodes_bad_severity(es, (k - 1) as nat) {
            Some(s) => Some(s),
            None => bad_severity(es[k - 1].findings@),
        }
    }
}

proof fn lemma_bad_stable(es: Seq<TraceNode>, k: nat, m: nat)
    requires
        k <= m <= es.len(),
        nodes_bad_severity(es, k) is Some,
    ensures
        nodes_bad_severity(es, m) == nodes_bad_severity(es, k),
    decreases m - k,
{
    if k < m {
        lemma_bad_stable(es, k, (m - 1) as nat);
    }
}

/// The first finding, among the nodes' and then the unattachable ones, whose
/// severity is no wire spelling.
pub open spec fn severity_refusal(t: SourceTrace) -> Option<Seq<char>> {
    let bad = match nodes_bad_severity(t.entries@, t.entries.len() as nat) {
        Some(s) => Some(s),
        None => bad_severity(t.unattachable_findings@),
    };
    match bad {
        Some(s) => Some("invalid finding severity '"@ + s + "'"@),
        None => None,
    }
}

/// Why a trace document cannot be composed, before its pathways are checked.
pub open spec fn trace_refusal(t: SourceTrace) -> Option<Seq<char>> {
    let v = header_value(t.header@, "trace_version"@);
    if v != Some("1"@) && v != Some("2"@) {
        Some("unsupported or missing trace_version"@)
    } else {
        match nodes_refusal(t.entries@, t.entries.len() as nat) {
            Some(e) => Some(e),
            None => match severity_refusal(t) {
                Some(e) => Some(e),
                None => pathways_refusal(t.pathways@, t.pathways.len() as nat),
            },
        }
    }
}

/// A trace's pathway, as the graph holds it.
pub open spec fn trace_pathway_view(p: TracePathway) -> PathwayView {
    PathwayView { name: p.name@, order: texts(p.order@), current: p.current@ }
}

/// Why the first `n` pathways of a trace are refused, if they are: an empty
/// name, a name an earlier pathway already has, or a pathway that is not valid.
pub open spec fn pathways_refusal(ps: Seq<TracePathway>, n: nat) -> Option<Seq<char>>
    decreases n,
{
    if n == 0 || n > ps.len() {
        None
    } else {
        match pathways_refusal(ps, (n - 1) as nat) {
            Some(e) => Some(e),
            None => {
                let p = ps[n - 1];
                if p.name@.len() == 0 {
                    Some(empty_refusal("pathway name"@))
                } else if exists|k: int| 0 <= k < n - 1 && (#[trigger] ps[k]).name@ == p.name@ {
                    Some("repeated pathway '"@ + p.name@ + "'"@)
                } else if !crate::graph::pathway_valid(trace_pathway_view(p)) {
                    Some(crate::graph::pathway_error_text(trace_pathway_view(p)))
                } else {
                    None
                }
            },
        }
    }
}

/// A refusal among the first pathways stands for them all.
proof fn lemma_pathways_refusal_stays(ps: Seq<TracePathway>, m: nat, n: nat)
    requires
        m <= n <= ps.len(),
    ensures
        pathways_refusal(ps, m) is Some ==> pathways_refusal(ps, n) == pathways_refusal(ps, m),
    decreases n,
{
    if m < n {
        lemma_pathways_refusal_stays(ps, m, (n - 1) as nat);
    }
}

fn header_get<'a>(h: &'a Vec<(String, String)>, key: &str) -> (r: Option<&'a String>)
    ensures
        match r {
            Some(v) => header_value(h@, key@) == Some(v@),
            None => header_value(h@, key@) is None,
        },
{
    let mut i: usize = 0;
    assert(h@.skip(0) =~= h@);
    while i < h.len()
        invariant
            i <= h.len(),
            header_value(h@, key@) == header_value(h@.skip(i as int), key@),
        decreases h.len() - i,
    {
        assert(h@.skip(i as int)[0] == h@[i as int]);
        assert(h@.skip(i as int).drop_first() =~= h@.skip(i + 1));
        if str_eq(h[i].0.as_str(), key) {
            return Some(&h[i].1);
        }
        i += 1;
    }
    None
}

fn first_bad(fs: &Vec<TraceFinding>) -> (r: Option<usize>)
    ensures
        match r {
            Some(i) => i < fs.len() && bad_severity(fs@) == Some(fs@[i as int].severity@),
            None => bad_severity(fs@) is None && severities_ok(fs@),
        },
{
    let ghost p = |f: TraceFinding| severity_of_text(f.severity@) is None;
    let mut k: usize = 0;
    while k < fs.len()
        invariant
            k <= fs.len(),
            p == (|f: TraceFinding| severity_of_text(f.severity@) is None),
            forall|q: int| 0 <= q < k ==> !p(#[trigger] fs@[q]),
        decreases fs.len() - k,
    {
        if Severity::parse(fs[k].severity.as_str()).is_none() {
            proof {
                crate::seqs::lemma_first_index_at(fs@, p, k as int);
            }
            return Some(k);
        }
        k += 1;
    }
    proof {
        crate::seqs::lemma_first_index_at(fs@, p, k as int);
        assert forall|q: int| 0 <= q < fs.len() implies severity_of_text((#[trigger] fs@[q]).severity@) is Some by {
            assert(!p(fs@[q]));
        }
    }
    None
}

fn check_severities(trace: &SourceTrace) -> (r: Result<(), String>)
    ensures
        match r {
            Ok(()) => severity_refusal(*trace) is None && trace_severities_ok(*trace),
            Err(e) => severity_refusal(*trace) == Some(e@),
        },
{
    let mut i: usize = 0;
    while i < trace.entries.len()
        invariant
            i <= trace.entries.len(),
            nodes_bad_severity(trace.entries@, i as nat) is None,
            forall|q: int| 0 <= q < i ==> severities_ok((#[trigger] trace.entries@[q]).findings@),
        decreases trace.entries.len() - i,
    {
        match first_bad(&trace.entries[i].findings) {
            Some(k) => {
                proof {
                    lemma_bad_stable(trace.entries@, (i + 1) as nat, trace.entries.len() as nat);
                }
                return Err(msg3("invalid finding severity '", trace.entries[i].findings[k].severity.as_str(), "'"));
            },
            None => {},
        }
        i += 1;
    }
    match first_bad(&trace.unattachable_findings) {
        Some(k) => {
            return Err(msg3("invalid finding severity '", trace.unattachable_findings[k].severity.as_str(), "'"));
        },
        None => {},
    }
    Ok(())
}

/// Check a source's decoded trace document: a trace version of 1 or 2,
/// non-empty and distinct node IDs, non-empty kinds and edge ends, wire
/// severities, and pathways a graph accepts. `decoded` is the outcome of
/// decoding the JSON text; any fault is reported against the source.
pub fn parse_trace(decoded: Result<SourceTrace, String>, source: &str) -> (r: Result<SourceTrace, String>)
    ensures
        match r {
            Ok(t) => decoded matches Ok(d) && t == d && trace_refusal(t) is None && trace_severities_ok(t),
            Err(e) => exists|detail: Seq<char>|
                e@ == "source '"@ + source@ + "' emitted invalid trace JSON: "@ + detail && (match decoded {
                    Ok(d) => trace_refusal(d) == Some(detail),
                    Err(m) => detail == m@,
                }),
        },
        decoded matches Ok(d) && trace_refusal(d) is None ==> r is Ok,
{
    match check_trace(decoded) {
        Ok(t) => Ok(t),
        Err(detail) => {
            let mut e = msg3("source '", source, "' emitted invalid trace JSON: ");
            push_str(&mut e, detail.as_str());
            Err(e)
        },
    }
}

fn check_trace(decoded: Result<SourceTrace, String>) -> (r: Result<SourceTrace, String>)
    ensures
        match r {
            Ok(t) => decoded matches Ok(d) && t == d && trace_refusal(t) is None && trace_severities_ok(t),
            Err(e) => match decoded {
                Ok(d) => trace_refusal(d) == Some(e@),
                Err(m) => e@ == m@,
            },
        },
{
    let trace = decoded?;
    let version_ok = match header_get(&trace.header, "trace_version") {
        Some(v) => str_eq(v.as_str(), "1") || str_eq(v.as_str(), "2"),
        None => false,
    };
    if !version_ok {
        return Err(copy_str("unsupported or missing trace_version"));
    }
    check_nodes(&trace.entries)?;
    check_severities(&trace)?;
    let ghost ps = trace.pathways@;
    let mut graph = LatticeGraph::new();
    let mut i: usize = 0;
    #[verifier::loop_isolation(false)]
    while i < trace.pathways.len()
        invariant
            i <= trace.pathways.len(),
            ps == trace.pathways@,
            graph.wf(),
            pathways_refusal(ps, i as nat) is None,
            forall|name: Seq<char>|
                #![trigger crate::graph::pathway_lookup(graph.spec_pathways(), name)]
                crate::graph::pathway_lookup(graph.spec_pathways(), name) is Some <==> exists|k: int|
                    0 <= k < i && (#[trigger] ps[k]).name@ == name,
        decreases trace.pathways.len() - i,
    {
        let p = &trace.pathways[i];
        proof {
            lemma_pathways_refusal_stays(ps, (i + 1) as nat, ps.len());
        }
        if let Err(e) = nonempty(p.name.as_str(), "pathway name") {
            return Err(e);
        }
        if graph.pathway(p.name.as_str()).is_some() {
            return Err(msg3("repeated pathway '", p.name.as_str(), "'"));
        }
        let ghost before = graph.spec_pathways();
        let order = crate::graph::copy_strings(&p.order);
        let name = p.name.clone();
        let current = p.current.clone();
        proof {
            assert(PathwayView { name: name@, order: texts(order@), current: current@ } == trace_pathway_view(ps[i as int]));
        }
        match graph.set_pathway(name, order, current) {
            Ok(()) => {},
            Err(e) => {
                return Err(e.0);
            },
        }
        proof {
            assert forall|nm: Seq<char>|
                crate::graph::pathway_lookup(graph.spec_pathways(), nm) is Some <==> exists|k: int|
                    0 <= k < i + 1 && (#[trigger] ps[k]).name@ == nm by {
                if nm != ps[i as int].name@ {
                    assert(crate::graph::pathway_lookup(graph.spec_pathways(), nm) == crate::graph::pathway_lookup(before, nm));
                    if exists|k: int| 0 <= k < i + 1 && (#[trigger] ps[k]).name@ == nm {
                        let k = choose|k: int| 0 <= k < i + 1 && (#[trigger] ps[k]).name@ == nm;
                        assert(k < i);
                    }
                }
            }
        }
        i += 1;
    }
    Ok(trace)
}

} // verus!
