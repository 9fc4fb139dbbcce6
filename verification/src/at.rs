//! `query at`: the register entries and findings that originate at one path.

use vstd::prelude::*;

use std::path::Path;

use crate::graph::{edges_view, nodes_view, LatticeGraph};
use crate::profile::Profile;
use crate::text::{msg3, starts_with, str_eq, trim_end_char, trim_end_char_str};
use crate::trace::{build_trace_report_for_nodes, entries_view, trace_holds, TraceEntry, TraceEntryView, TraceReport};
use crate::types::{issues_sorted, issues_view, sort_issues, Issue, IssueView};

verus! {

/// A query refused: the path names nothing the run knows of.
pub struct QueryError(pub String);

/// What `query at` reports for one path.
pub struct AtReport {
    /// The path as asked, before any target-joining.
    pub path: String,
    /// Entries whose node is declared at the path, edges and findings attached.
    pub entries: Vec<TraceEntry>,
    /// Findings at the path that sit inside none of those entries.
    pub findings: Vec<Issue>,
}

/// What `Path::join` gives for a base and a relative path, as text.
pub uninterp spec fn path_joined(base: Seq<char>, rel: Seq<char>) -> Seq<char>;

/// What `Path::strip_prefix` leaves of a path below a base, as text.
pub uninterp spec fn path_stripped(p: Seq<char>, base: Seq<char>) -> Option<Seq<char>>;

/// `Path::join`, read back as text: the contract claims only that the result
/// is `path_joined` of the two texts.
#[verifier::external_body]
fn join_path(base: &str, rel: &str) -> (r: String)
    ensures
        r@ == path_joined(base@, rel@),
{
    Path::new(base).join(rel).to_string_lossy().into_owned()
}

/// `Path::strip_prefix`, read back as text: the contract claims only that the
/// result is `path_stripped` of the two texts.
#[verifier::external_body]
fn strip_path(p: &str, base: &str) -> (r: Option<String>)
    ensures
        match r {
            Some(t) => path_stripped(p@, base@) == Some(t@),
            None => path_stripped(p@, base@) is None,
        },
{
    Path::new(p).strip_prefix(base).ok().map(|rel| rel.to_string_lossy().into_owned())
}

/// The texts a provenance file is matched against: the path as given (without
/// trailing slashes), joined to the target, and relative to the target when
/// it lies beneath it.
pub open spec fn at_candidates(target: Seq<char>, path_arg: Seq<char>) -> Seq<Seq<char>> {
    let arg = trim_end_char(path_arg, '/');
    let base = seq![arg, path_joined(target, arg)];
    match path_stripped(arg, target) {
        Some(rel) => base.push(rel),
        None => base,
    }
}

/// A file equal to a candidate, or beneath one.
pub open spec fn at_path(cands: Seq<Seq<char>>, file: Seq<char>) -> bool {
    exists|i: int|
        0 <= i < cands.len() && (file == #[trigger] cands[i] || (file.len() > cands[i].len() && file.take(
            cands[i].len() as int,
        ) == cands[i] && file[cands[i].len() as int] == '/'))
}

/// Whether the question is posed: the path exists, or some provenance names it.
pub open spec fn at_posed(g: LatticeGraph, is: Seq<IssueView>, cands: Seq<Seq<char>>, path_exists: bool) -> bool {
    ||| path_exists
    ||| exists|i: int| 0 <= i < g.spec_nodes().len() && at_path(cands, (#[trigger] g.spec_nodes()[i]).provenance.file)
    ||| exists|i: int| 0 <= i < g.spec_edges().len() && at_path(cands, (#[trigger] g.spec_edges()[i]).provenance.file)
    ||| exists|i: int| 0 <= i < is.len() && at_path(cands, (#[trigger] is[i]).provenance.file)
}

/// The IDs of the first `n` nodes declared at the path, in graph order.
pub open spec fn at_node_ids(g: LatticeGraph, cands: Seq<Seq<char>>, n: nat) -> Seq<Seq<char>>
    decreases n,
{
    if n == 0 || n > g.spec_nodes().len() {
        Seq::empty()
    } else if at_path(cands, g.spec_nodes()[n - 1].provenance.file) {
        at_node_ids(g, cands, (n - 1) as nat).push(g.spec_nodes()[n - 1].id)
    } else {
        at_node_ids(g, cands, (n - 1) as nat)
    }
}

/// The first `n` entries declared at the path.
pub open spec fn at_entries(es: Seq<TraceEntryView>, cands: Seq<Seq<char>>, n: nat) -> Seq<TraceEntryView>
    decreases n,
{
    if n == 0 || n > es.len() {
        Seq::empty()
    } else if at_path(cands, es[n - 1].provenance.file) {
        at_entries(es, cands, (n - 1) as nat).push(es[n - 1])
    } else {
        at_entries(es, cands, (n - 1) as nat)
    }
}

/// The first `n` findings at the path.
pub open spec fn at_issues(is: Seq<IssueView>, cands: Seq<Seq<char>>, n: nat) -> Seq<IssueView>
    decreases n,
{
    if n == 0 || n > is.len() {
        Seq::empty()
    } else if at_path(cands, is[n - 1].provenance.file) {
        at_issues(is, cands, (n - 1) as nat).push(is[n - 1])
    } else {
        at_issues(is, cands, (n - 1) as nat)
    }
}

/// The findings at the path inside the first `n` entries declared elsewhere.
pub open spec fn at_stray(es: Seq<TraceEntryView>, cands: Seq<Seq<char>>, n: nat) -> Seq<IssueView>
    decreases n,
{
    if n == 0 || n > es.len() {
        Seq::empty()
    } else if at_path(cands, es[n - 1].provenance.file) {
        at_stray(es, cands, (n - 1) as nat)
    } else {
        at_stray(es, cands, (n - 1) as nat) + at_issues(es[n - 1].findings, cands, es[n - 1].findings.len())
    }
}

/// Whether a file is at the path.
fn at_path_exec(cands: &Vec<String>, file: &str) -> (r: bool)
    ensures
        r == at_path(crate::text::texts(cands@), file@),
{
    let ghost cs = crate::text::texts(cands@);
    let mut i: usize = 0;
    while i < cands.len()
        invariant
            i <= cands.len(),
            cs == crate::text::texts(cands@),
            cs.len() == cands.len(),
            forall|q: int| 0 <= q < cands.len() ==> #[trigger] cs[q] == cands@[q]@,
            forall|q: int|
                0 <= q < i ==> !(file@ == #[trigger] cs[q] || (file@.len() > cs[q].len() && file@.take(cs[q].len() as int)
                    == cs[q] && file@[cs[q].len() as int] == '/')),
        decreases cands.len() - i,
    {
        let c = cands[i].as_str();
        assert(cs[i as int] == c@);
        if str_eq(file, c) {
            return true;
        }
        let v = crate::text::chars_of(file);
        let n = crate::text::chars_of(c).len();
        if v.len() > n && starts_with(file, c) && v[n] == '/' {
            return true;
        }
        i += 1;
    }
    false
}

/// Register entries and findings originating at one path. The question is
/// posed when the path exists (`path_exists`, which the caller establishes)
/// or any provenance in the run names it; anything else is a mistyped path.
pub fn at(
    graph: &LatticeGraph,
    profile: &Profile,
    issues: Vec<Issue>,
    target: &str,
    path_arg: &str,
    path_exists: bool,
    lattice_version: &str,
) -> (r: Result<AtReport, QueryError>)
    requires
        graph.wf(),
    ensures
        ({
            let cands = at_candidates(target@, path_arg@);
            let is = issues_view(issues@);
            match r {
                Err(e) => !at_posed(*graph, is, cands, path_exists) && e.0@ == "path '"@ + path_arg@
                    + "' does not exist under the target and no provenance names it"@,
                Ok(rep) => {
                    &&& at_posed(*graph, is, cands, path_exists)
                    &&& rep.path@ == path_arg@
                    &&& exists|tr: TraceReport|
                        #[trigger] trace_holds(
                            profile,
                            graph,
                            is,
                            lattice_version@,
                            Some(at_node_ids(*graph, cands, graph.spec_nodes().len())),
                            tr,
                        ) && entries_view(rep.entries@) == at_entries(entries_view(tr.entries@), cands, tr.entries@.len())
                            && issues_view(rep.findings@).to_multiset() == (at_stray(
                            entries_view(tr.entries@),
                            cands,
                            tr.entries@.len(),
                        ) + at_issues(
                            issues_view(tr.unattachable_findings@),
                            cands,
                            tr.unattachable_findings@.len(),
                        )).to_multiset()
                    &&& issues_sorted(issues_view(rep.findings@))
                },
            }
        }),
{
    let arg = trim_end_char_str(path_arg, '/');
    let joined = join_path(target, arg.as_str());
    let stripped = strip_path(arg.as_str(), target);
    let mut cands: Vec<String> = Vec::new();
    cands.push(arg);
    cands.push(joined);
    if let Some(rel) = stripped {
        cands.push(rel);
    }
    let ghost cs = at_candidates(target@, path_arg@);
    assert(crate::text::texts(cands@) =~= cs);
    let ghost is = issues_view(issues@);
    let nodes = graph.iter_nodes();
    let edges = graph.iter_edges();
    let mut posed = path_exists;
    let mut ids: Vec<String> = Vec::new();
    let mut i: usize = 0;
    while i < nodes.len()
        invariant
            i <= nodes.len(),
            cs == crate::text::texts(cands@),
            nodes_view(nodes@) == graph.spec_nodes(),
            crate::text::texts(ids@) == at_node_ids(*graph, cs, i as nat),
            posed == (path_exists || exists|k: int|
                0 <= k < i && at_path(cs, (#[trigger] graph.spec_nodes()[k]).provenance.file)),
        decreases nodes.len() - i,
    {
        assert(graph.spec_nodes()[i as int] == nodes@[i as int]@);
        if at_path_exec(&cands, nodes[i].provenance.file.as_str()) {
            posed = true;
            let ghost before = ids@;
            ids.push(nodes[i].id.clone());
            assert(crate::text::texts(ids@) =~= crate::text::texts(before).push(nodes@[i as int].id@));
        }
        i += 1;
    }
    let mut k: usize = 0;
    while k < edges.len()
        invariant
            k <= edges.len(),
            cs == crate::text::texts(cands@),
            edges_view(edges@) == graph.spec_edges(),
            posed == (path_exists || (exists|q: int|
                0 <= q < graph.spec_nodes().len() && at_path(cs, (#[trigger] graph.spec_nodes()[q]).provenance.file))
                || exists|q: int| 0 <= q < k && at_path(cs, (#[trigger] graph.spec_edges()[q]).provenance.file)),
        decreases edges.len() - k,
    {
        assert(graph.spec_edges()[k as int] == edges@[k as int]@);
        if at_path_exec(&cands, edges[k].provenance.file.as_str()) {
            posed = true;
        }
        k += 1;
    }
    let mut k: usize = 0;
    while k < issues.len()
        invariant
            k <= issues.len(),
            cs == crate::text::texts(cands@),
            is == issues_view(issues@),
            posed == (path_exists || (exists|q: int|
                0 <= q < graph.spec_nodes().len() && at_path(cs, (#[trigger] graph.spec_nodes()[q]).provenance.file))
                || (exists|q: int| 0 <= q < graph.spec_edges().len() && at_path(cs, (#[trigger] graph.spec_edges()[q]).provenance.file))
                || exists|q: int| 0 <= q < k && at_path(cs, (#[trigger] is[q]).provenance.file)),
        decreases issues.len() - k,
    {
        assert(is[k as int] == issues@[k as int]@);
        if at_path_exec(&cands, issues[k].provenance.file.as_str()) {
            posed = true;
        }
        k += 1;
    }
    if !posed {
        return Err(QueryError(msg3("path '", path_arg, "' does not exist under the target and no provenance names it")));
    }
    let report = build_trace_report_for_nodes(profile, graph, issues, lattice_version, Some(&ids));
    let ghost tr = report;
    let ghost ev = entries_view(report.entries@);
    let TraceReport { header: _, entries: all_entries, unattachable_findings: unattached, pathways: _ } = report;
    let mut entries: Vec<TraceEntry> = Vec::new();
    let mut findings: Vec<Issue> = Vec::new();
    let mut rest = all_entries;
    let n = rest.len();
    let mut q: usize = 0;
    assert(rest@ == tr.entries@);
    assert(tr.entries@.skip(0) =~= tr.entries@);
    while q < n
        invariant
            q <= n,
            n == ev.len(),
            n == tr.entries@.len(),
            ev == entries_view(tr.entries@),
            cs == crate::text::texts(cands@),
            rest@ == tr.entries@.skip(q as int),
            entries_view(entries@) == at_entries(ev, cs, q as nat),
            issues_view(findings@) == at_stray(ev, cs, q as nat),
        decreases n - q,
    {
        let entry = rest.remove(0);
        assert(entry == tr.entries@[q as int]);
        assert(entry@ == ev[q as int]);
        assert(rest@ =~= tr.entries@.skip(q + 1));
        if at_path_exec(&cands, entry.provenance.file.as_str()) {
            let ghost before = entries_view(entries@);
            entries.push(entry);
            assert(entries_view(entries@) =~= before.push(ev[q as int]));
        } else {
            let ghost before = issues_view(findings@);
            let own = entry.findings;
            let ghost ov = issues_view(own@);
            assert(ov == ev[q as int].findings);
            let mut j: usize = 0;
            while j < own.len()
                invariant
                    j <= own.len(),
                    ov == issues_view(own@),
                    cs == crate::text::texts(cands@),
                    issues_view(findings@) == before + at_issues(ov, cs, j as nat),
                decreases own.len() - j,
            {
                assert(ov[j as int] == own@[j as int]@);
                if at_path_exec(&cands, own[j].provenance.file.as_str()) {
                    let ghost b2 = issues_view(findings@);
                    findings.push(own[j].copy());
                    assert(issues_view(findings@) =~= b2.push(ov[j as int]));
                    assert(before + at_issues(ov, cs, (j + 1) as nat) =~= (before + at_issues(ov, cs, j as nat)).push(ov[j as int]));
                }
                j += 1;
            }
        }
        q += 1;
    }
    let ghost uv = issues_view(unattached@);
    let ghost before = issues_view(findings@);
    let mut j: usize = 0;
    while j < unattached.len()
        invariant
            j <= unattached.len(),
            uv == issues_view(unattached@),
            cs == crate::text::texts(cands@),
            issues_view(findings@) == before + at_issues(uv, cs, j as nat),
        decreases unattached.len() - j,
    {
        assert(uv[j as int] == unattached@[j as int]@);
        if at_path_exec(&cands, unattached[j].provenance.file.as_str()) {
            let ghost b2 = issues_view(findings@);
            findings.push(unattached[j].copy());
            assert(issues_view(findings@) =~= b2.push(uv[j as int]));
            assert(before + at_issues(uv, cs, (j + 1) as nat) =~= (before + at_issues(uv, cs, j as nat)).push(uv[j as int]));
        }
        j += 1;
    }
    let ghost collected = issues_view(findings@);
    sort_issues(&mut findings);
    assert(trace_holds(profile, graph, is, lattice_version@, Some(at_node_ids(*graph, cs, graph.spec_nodes().len())), tr));
    Ok(AtReport { path: crate::text::copy_str(path_arg), entries, findings })
}

} // verus!
