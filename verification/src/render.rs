//! The `plain` and `rich` text formats. `plain` is uncoloured text for
//! whatever reads the pipe; `rich` lays out columns and colours severities for
//! a human at a terminal. Both leave out what the profile suppressed.

use vstd::prelude::*;

use crate::text::{
    i64_text, int_text, join, join_texts, ljust, rjust, repeat, msg8, msg9, msg2, msg3, msg4, msg5, msg6, msg7, push_str, spec_ljust, spec_rjust,
    texts, usize_text,
};
use crate::query::{CountsReport, NodeRef, NodeRefView, OrphanEntry, OrphanView, OrphansReport, PathReport, ReachReport};
use crate::assoc::assoc_get;
use crate::diff::{edge_refs_view, DiffReport, EdgeChangedRef, NodeChangedRef};
use crate::summary::{column, column_sum, sums_fit, FindingTally, StatusRollup, StructuralSummary};
use crate::text::spec_capitalize;
use crate::types::{issues_view, provenance_text, severity_text, severity_upper, Issue, IssueView, Severity};
use crate::compose::{FuseEdgeView, FuseFindingView, FuseNodeView, FuseReport, fuse_nodes_view, fuse_edges_view, findings_view};
use crate::graph::PathwayView;
use crate::trace::PathwayEntry;
use crate::assoc::assoc;
use crate::json::{get, json_text, lookup, to_json_text, Json, JsonValue};
use crate::trace::{TraceEntry, TraceEntryView, TraceReport};

verus! {

/// The escape that resets colour.
pub const RESET: &'static str = "\u{1b}[0m";

/// The colour escape of a severity.
pub open spec fn color_of(s: Severity) -> Seq<char> {
    match s {
        Severity::Error => "\u{1b}[31m"@,
        Severity::Warning => "\u{1b}[33m"@,
        Severity::Info => "\u{1b}[36m"@,
        Severity::Hint => "\u{1b}[35m"@,
    }
}

pub fn color_for(s: Severity) -> (r: &'static str)
    ensures
        r@ == color_of(s),
{
    match s {
        Severity::Error => "\u{1b}[31m",
        Severity::Warning => "\u{1b}[33m",
        Severity::Info => "\u{1b}[36m",
        Severity::Hint => "\u{1b}[35m",
    }
}

/// The lines of the first `k` items that `keep` keeps, each as `line` writes it.
pub open spec fn lines_of<T>(items: Seq<T>, k: nat, keep: spec_fn(T) -> bool, line: spec_fn(T) -> Seq<char>) -> Seq<Seq<char>>
    decreases k,
{
    if k == 0 || k > items.len() {
        Seq::empty()
    } else {
        let prev = lines_of(items, (k - 1) as nat, keep, line);
        if keep(items[k - 1]) {
            prev.push(line(items[k - 1]))
        } else {
            prev
        }
    }
}

/// A finding the human formats show.
pub open spec fn shown(i: IssueView) -> bool {
    !i.suppressed
}

/// How `plain` writes a finding.
pub open spec fn plain_finding(i: IssueView) -> Seq<char> {
    severity_upper(i.severity) + " "@ + i.code + " "@ + provenance_text(i.provenance) + " "@ + i.message
}

/// How `rich` writes a finding.
pub open spec fn rich_finding(i: IssueView) -> Seq<char> {
    color_of(i.severity) + spec_ljust(severity_upper(i.severity), 7) + RESET@ + " "@ + spec_ljust(i.code, 20) + " "@
        + spec_ljust(provenance_text(i.provenance), 30) + " "@ + i.message
}

/// Findings in `plain`: one line each.
pub fn format_findings_plain(issues: &Vec<Issue>) -> (r: String)
    ensures
        r@ == join(
            lines_of(issues_view(issues@), issues@.len(), |i: IssueView| shown(i), |i: IssueView| plain_finding(i)),
            "\n"@,
        ),
{
    let ghost iv = issues_view(issues@);
    let mut lines: Vec<String> = Vec::new();
    let mut k: usize = 0;
    while k < issues.len()
        invariant
            k <= issues.len(),
            iv == issues_view(issues@),
            texts(lines@) == lines_of(iv, k as nat, |i: IssueView| shown(i), |i: IssueView| plain_finding(i)),
        decreases issues.len() - k,
    {
        let i = &issues[k];
        assert(iv[k as int] == i@);
        if !i.suppressed {
            let place = i.provenance.to_text();
            let line = msg7(i.severity.as_upper(), " ", i.code.as_str(), " ", place.as_str(), " ", i.message.as_str());
            let ghost before = texts(lines@);
            lines.push(line);
            assert(texts(lines@) =~= before.push(plain_finding(iv[k as int])));
        }
        k += 1;
    }
    join_texts(&lines, "\n")
}

/// How many shown findings among the first `k` have severity `s`.
pub open spec fn shown_count(is: Seq<IssueView>, k: nat, s: Severity) -> nat
    decreases k,
{
    if k == 0 || k > is.len() {
        0
    } else {
        shown_count(is, (k - 1) as nat, s) + if shown(is[k - 1]) && is[k - 1].severity == s {
            1nat
        } else {
            0nat
        }
    }
}

/// The tally `rich` closes with: `N error(s)` and so on, most severe first,
/// leaving out severities with none.
pub open spec fn tally_parts(is: Seq<IssueView>) -> Seq<Seq<char>> {
    let part = |s: Severity| nat_text_of(shown_count(is, is.len(), s)) + " "@ + severity_text(s) + "(s)"@;
    let keep = |s: Severity| shown_count(is, is.len(), s) > 0;
    lines_of(seq![Severity::Error, Severity::Warning, Severity::Info, Severity::Hint], 4, keep, part)
}

pub open spec fn nat_text_of(n: nat) -> Seq<char> {
    crate::text::nat_text(n)
}

/// Findings in `rich`: aligned columns, then the tally; `No findings.` when
/// none is shown.
pub fn format_findings_rich(issues: &Vec<Issue>) -> (r: String)
    ensures
        ({
            let iv = issues_view(issues@);
            let lines = lines_of(iv, iv.len(), |i: IssueView| shown(i), |i: IssueView| rich_finding(i));
            r@ == if lines.len() == 0 {
                "No findings."@
            } else {
                join(lines.push("\n"@ + join(tally_parts(iv), ", "@)), "\n"@)
            }
        }),
{
    let ghost iv = issues_view(issues@);
    let mut lines: Vec<String> = Vec::new();
    let mut c0: usize = 0;
    let mut c1: usize = 0;
    let mut c2: usize = 0;
    let mut c3: usize = 0;
    let mut k: usize = 0;
    while k < issues.len()
        invariant
            k <= issues.len(),
            iv == issues_view(issues@),
            texts(lines@) == lines_of(iv, k as nat, |i: IssueView| shown(i), |i: IssueView| rich_finding(i)),
            lines.len() <= k,
            c0 == shown_count(iv, k as nat, Severity::Error),
            c1 == shown_count(iv, k as nat, Severity::Warning),
            c2 == shown_count(iv, k as nat, Severity::Info),
            c3 == shown_count(iv, k as nat, Severity::Hint),
            c0 <= k && c1 <= k && c2 <= k && c3 <= k,
        decreases issues.len() - k,
    {
        let i = &issues[k];
        assert(iv[k as int] == i@);
        if !i.suppressed {
            let place = i.provenance.to_text();
            let sev = ljust(i.severity.as_upper(), 7);
            let code = ljust(i.code.as_str(), 20);
            let at = ljust(place.as_str(), 30);
            let head = msg4(color_for(i.severity), sev.as_str(), RESET, " ");
            let line = msg6(head.as_str(), code.as_str(), " ", at.as_str(), " ", i.message.as_str());
            let ghost before = texts(lines@);
            lines.push(line);
            assert(texts(lines@) =~= before.push(rich_finding(iv[k as int])));
            match i.severity {
                Severity::Error => c0 += 1,
                Severity::Warning => c1 += 1,
                Severity::Info => c2 += 1,
                Severity::Hint => c3 += 1,
            }
        }
        k += 1;
    }
    if lines.len() == 0 {
        return crate::text::copy_str("No findings.");
    }
    let ghost sevs = seq![Severity::Error, Severity::Warning, Severity::Info, Severity::Hint];
    let ghost part = |s: Severity| nat_text_of(shown_count(iv, iv.len(), s)) + " "@ + severity_text(s) + "(s)"@;
    let ghost keep = |s: Severity| shown_count(iv, iv.len(), s) > 0;
    let mut parts: Vec<String> = Vec::new();
    let mut z: usize = 0;
    while z < 4
        invariant
            z <= 4,
            iv == issues_view(issues@),
            sevs == seq![Severity::Error, Severity::Warning, Severity::Info, Severity::Hint],
            part == (|s: Severity| nat_text_of(shown_count(iv, iv.len(), s)) + " "@ + severity_text(s) + "(s)"@),
            keep == (|s: Severity| shown_count(iv, iv.len(), s) > 0),
            c0 == shown_count(iv, iv.len(), Severity::Error),
            c1 == shown_count(iv, iv.len(), Severity::Warning),
            c2 == shown_count(iv, iv.len(), Severity::Info),
            c3 == shown_count(iv, iv.len(), Severity::Hint),
            texts(parts@) == lines_of(sevs, z as nat, keep, part),
        decreases 4 - z,
    {
        let s = match z {
            0 => Severity::Error,
            1 => Severity::Warning,
            2 => Severity::Info,
            _ => Severity::Hint,
        };
        assert(sevs[z as int] == s);
        let n = match z {
            0 => c0,
            1 => c1,
            2 => c2,
            _ => c3,
        };
        if n > 0 {
            let t = usize_text(n);
            let p = msg4(t.as_str(), " ", s.as_str(), "(s)");
            let ghost before = texts(parts@);
            parts.push(p);
            assert(texts(parts@) =~= before.push(part(s)));
        }
        z += 1;
    }
    let tally = join_texts(&parts, ", ");
    let last = msg2("\n", tally.as_str());
    let ghost before = texts(lines@);
    lines.push(last);
    assert(texts(lines@) =~= before.push("\n"@ + join(tally_parts(iv), ", "@)));
    join_texts(&lines, "\n")
}

// ---------------------------------------------------------------- queries

/// The suffix of a node every path to which crosses a vacancy.
pub open spec fn tainted_marker(n: NodeRefView) -> Seq<char> {
    if n.tainted == Some(true) {
        " (tainted)"@
    } else {
        ""@
    }
}

pub open spec fn refs_view(s: Seq<NodeRef>) -> Seq<NodeRefView> {
    s.map_values(|n: NodeRef| n@)
}

fn marker(n: &NodeRef) -> (r: &'static str)
    ensures
        r@ == tainted_marker(n@),
{
    match n.tainted {
        Some(true) => " (tainted)",
        _ => "",
    }
}

/// Reach in `plain`: `id kind` per node, or `No nodes.`.
pub fn format_reach_plain(report: &ReachReport) -> (r: String)
    ensures
        r@ == if report.nodes.len() == 0 {
            "No nodes."@
        } else {
            join(
                lines_of(
                    refs_view(report.nodes@),
                    report.nodes.len() as nat,
                    |n: NodeRefView| true,
                    |n: NodeRefView| n.id + " "@ + n.kind + tainted_marker(n),
                ),
                "\n"@,
            )
        },
{
    if report.nodes.len() == 0 {
        return crate::text::copy_str("No nodes.");
    }
    let ghost nv = refs_view(report.nodes@);
    let mut lines: Vec<String> = Vec::new();
    let mut k: usize = 0;
    while k < report.nodes.len()
        invariant
            k <= report.nodes.len(),
            nv == refs_view(report.nodes@),
            texts(lines@) == lines_of(nv, k as nat, |n: NodeRefView| true, |n: NodeRefView| n.id + " "@ + n.kind + tainted_marker(n)),
        decreases report.nodes.len() - k,
    {
        let n = &report.nodes[k];
        assert(nv[k as int] == n@);
        let line = msg4(n.id.as_str(), " ", n.kind.as_str(), marker(n));
        let ghost before = texts(lines@);
        lines.push(line);
        assert(texts(lines@) =~= before.push(nv[k as int].id + " "@ + nv[k as int].kind + tainted_marker(nv[k as int])));
        k += 1;
    }
    join_texts(&lines, "\n")
}

/// How many nodes among the first `k` are tainted.
pub open spec fn tainted_count(ns: Seq<NodeRefView>, k: nat) -> nat
    decreases k,
{
    if k == 0 || k > ns.len() {
        0
    } else {
        tainted_count(ns, (k - 1) as nat) + if ns[k - 1].tainted == Some(true) {
            1nat
        } else {
            0nat
        }
    }
}

/// The rich reach closing line's tally of tainted nodes, when the walk was
/// asked to tell.
pub open spec fn taint_tally(ns: Seq<NodeRefView>) -> Seq<char> {
    if ns.len() > 0 && ns[0].tainted is Some {
        ", "@ + crate::text::nat_text(tainted_count(ns, ns.len())) + " tainted"@
    } else {
        ""@
    }
}

/// Reach in `rich`: a heading naming the walk, a row per node, a count.
pub fn format_reach_rich(report: &ReachReport) -> (r: String)
    ensures
        ({
            let nv = refs_view(report.nodes@);
            let restriction = if report.edge_kinds.len() == 0 {
                "all edge kinds"@
            } else {
                join(texts(report.edge_kinds@), ", "@)
            };
            let head = report.direction@ + " "@ + report.origin@ + " ("@ + restriction + ")"@;
            r@ == if nv.len() == 0 {
                join(seq![head, "No nodes."@], "\n"@)
            } else {
                join(
                    seq![head] + lines_of(nv, nv.len(), |n: NodeRefView| true, |n: NodeRefView| spec_ljust(n.id, 20) + " "@ + n.kind + tainted_marker(n))
                        + seq!["\n"@ + crate::text::nat_text(nv.len()) + " node(s)"@ + taint_tally(nv)],
                    "\n"@,
                )
            }
        }),
{
    let ghost nv = refs_view(report.nodes@);
    let restriction = if report.edge_kinds.len() == 0 {
        crate::text::copy_str("all edge kinds")
    } else {
        join_texts(&report.edge_kinds, ", ")
    };
    let head = msg5(report.direction.as_str(), " ", report.origin.as_str(), " (", restriction.as_str());
    let head = msg2(head.as_str(), ")");
    let ghost hv = head@;
    let mut lines: Vec<String> = Vec::new();
    lines.push(head);
    let ghost first = texts(lines@);
    assert(first =~= seq![hv]);
    if report.nodes.len() == 0 {
        lines.push(crate::text::copy_str("No nodes."));
        assert(texts(lines@) =~= seq![first[0], "No nodes."@]);
        return join_texts(&lines, "\n");
    }
    let mut tainted: usize = 0;
    let mut k: usize = 0;
    while k < report.nodes.len()
        invariant
            k <= report.nodes.len(),
            nv == refs_view(report.nodes@),
            first.len() == 1,
            texts(lines@) == first + lines_of(nv, k as nat, |n: NodeRefView| true, |n: NodeRefView| spec_ljust(n.id, 20) + " "@ + n.kind + tainted_marker(n)),
            tainted == tainted_count(nv, k as nat),
            tainted <= k,
        decreases report.nodes.len() - k,
    {
        let n = &report.nodes[k];
        assert(nv[k as int] == n@);
        let id = ljust(n.id.as_str(), 20);
        let line = msg4(id.as_str(), " ", n.kind.as_str(), marker(n));
        let ghost before = texts(lines@);
        lines.push(line);
        assert(texts(lines@) =~= before.push(spec_ljust(nv[k as int].id, 20) + " "@ + nv[k as int].kind + tainted_marker(nv[k as int])));
        if n.tainted == Some(true) {
            tainted += 1;
        }
        k += 1;
    }
    let count = usize_text(report.nodes.len());
    let tally = if report.nodes[0].tainted.is_some() {
        let t = usize_text(tainted);
        msg3(", ", t.as_str(), " tainted")
    } else {
        proof {
            reveal_strlit("");
        }
        crate::text::copy_str("")
    };
    assert(nv[0] == report.nodes@[0]@);
    let last = msg4("\n", count.as_str(), " node(s)", tally.as_str());
    let ghost before = texts(lines@);
    lines.push(last);
    assert(texts(lines@) =~= before.push("\n"@ + crate::text::nat_text(nv.len()) + " node(s)"@ + taint_tally(nv)));
    assert(texts(lines@) =~= seq![hv] + lines_of(nv, nv.len(), |n: NodeRefView| true, |n: NodeRefView| spec_ljust(n.id, 20) + " "@ + n.kind + tainted_marker(n))
        + seq!["\n"@ + crate::text::nat_text(nv.len()) + " node(s)"@ + taint_tally(nv)]);
    join_texts(&lines, "\n")
}

/// A path as `a -[kind]-> b -[kind]-> c`.
pub open spec fn chain(nodes: Seq<Seq<char>>, edges: Seq<Seq<char>>, k: nat) -> Seq<char>
    decreases k,
{
    if nodes.len() == 0 {
        Seq::empty()
    } else if k == 0 || k > edges.len() || k >= nodes.len() {
        nodes[0]
    } else {
        chain(nodes, edges, (k - 1) as nat) + " -["@ + edges[k - 1] + "]-> "@ + nodes[k as int]
    }
}

/// The number of steps a chain shows: as many as there are edges and next nodes.
pub open spec fn steps(nodes: Seq<Seq<char>>, edges: Seq<Seq<char>>) -> nat {
    if nodes.len() == 0 {
        0
    } else if edges.len() < nodes.len() - 1 {
        edges.len()
    } else {
        (nodes.len() - 1) as nat
    }
}

fn path_chain(nodes: &[String], edges: &[String]) -> (r: String)
    ensures
        r@ == chain(texts(nodes@), texts(edges@), steps(texts(nodes@), texts(edges@))),
{
    let ghost nv = texts(nodes@);
    let ghost ev = texts(edges@);
    if nodes.len() == 0 {
        return String::new();
    }
    let mut out = nodes[0].clone();
    let mut k: usize = 0;
    while k < edges.len() && k + 1 < nodes.len()
        invariant
            k <= edges.len(),
            k < nodes.len(),
            nv == texts(nodes@),
            ev == texts(edges@),
            nodes.len() > 0,
            out@ == chain(nv, ev, k as nat),
        decreases edges.len() - k,
    {
        push_str(&mut out, " -[");
        push_str(&mut out, edges[k].as_str());
        push_str(&mut out, "]-> ");
        push_str(&mut out, nodes[k + 1].as_str());
        proof {
            assert(ev[k as int] == edges@[k as int]@);
            assert(nv[k + 1] == nodes@[k + 1]@);
        }
        k += 1;
        assert(out@ =~= chain(nv, ev, k as nat));
    }
    out
}

/// Path in `plain`: the chain, or `No path from a to b.`.
pub fn format_path_plain(report: &PathReport) -> (r: String)
    ensures
        r@ == match report.spec_found() {
            Some((n, e)) => chain(n, e, steps(n, e)),
            None => "No path from "@ + report.spec_src() + " to "@ + report.spec_tgt() + "."@,
        },
{
    match report.found_path() {
        Some((nodes, edges)) => path_chain(nodes, edges),
        None => msg5("No path from ", report.src(), " to ", report.tgt(), "."),
    }
}

/// Path in `rich`: the chain and its length.
pub fn format_path_rich(report: &PathReport) -> (r: String)
    ensures
        r@ == match report.spec_found() {
            Some((n, e)) => chain(n, e, steps(n, e)) + "\n\n"@ + crate::text::nat_text(e.len()) + " edge(s)"@,
            None => "No path from "@ + report.spec_src() + " to "@ + report.spec_tgt() + "."@,
        },
{
    match report.found_path() {
        Some((nodes, edges)) => {
            let c = path_chain(nodes, edges);
            let n = usize_text(edges.len());
            msg4(c.as_str(), "\n\n", n.as_str(), " edge(s)")
        },
        None => msg5("No path from ", report.src(), " to ", report.tgt(), "."),
    }
}

pub open spec fn orphans_view(s: Seq<OrphanEntry>) -> Seq<OrphanView> {
    s.map_values(|o: OrphanEntry| o@)
}

/// Orphans in `plain`: `id kind file:line` per orphan, or `No orphans.`.
pub fn format_orphans_plain(report: &OrphansReport) -> (r: String)
    ensures
        r@ == if report.orphans.len() == 0 {
            "No orphans."@
        } else {
            join(
                lines_of(
                    orphans_view(report.orphans@),
                    report.orphans.len() as nat,
                    |o: OrphanView| true,
                    |o: OrphanView| o.id + " "@ + o.kind + " "@ + provenance_text(o.provenance),
                ),
                "\n"@,
            )
        },
{
    if report.orphans.len() == 0 {
        return crate::text::copy_str("No orphans.");
    }
    let ghost ov = orphans_view(report.orphans@);
    let mut lines: Vec<String> = Vec::new();
    let mut k: usize = 0;
    while k < report.orphans.len()
        invariant
            k <= report.orphans.len(),
            ov == orphans_view(report.orphans@),
            texts(lines@) == lines_of(ov, k as nat, |o: OrphanView| true, |o: OrphanView| o.id + " "@ + o.kind + " "@ + provenance_text(o.provenance)),
        decreases report.orphans.len() - k,
    {
        let o = &report.orphans[k];
        assert(ov[k as int] == o@);
        let place = o.provenance.to_text();
        let line = msg5(o.id.as_str(), " ", o.kind.as_str(), " ", place.as_str());
        let ghost before = texts(lines@);
        lines.push(line);
        assert(texts(lines@) =~= before.push(ov[k as int].id + " "@ + ov[k as int].kind + " "@ + provenance_text(ov[k as int].provenance)));
        k += 1;
    }
    join_texts(&lines, "\n")
}

/// Orphans in `rich`: aligned rows and a count.
pub fn format_orphans_rich(report: &OrphansReport) -> (r: String)
    ensures
        r@ == if report.orphans.len() == 0 {
            "No orphans."@
        } else {
            join(
                lines_of(
                    orphans_view(report.orphans@),
                    report.orphans.len() as nat,
                    |o: OrphanView| true,
                    |o: OrphanView| spec_ljust(o.id, 20) + " "@ + spec_ljust(o.kind, 10) + " "@ + provenance_text(o.provenance),
                ).push("\n"@ + crate::text::nat_text(report.orphans.len() as nat) + " orphan(s)"@),
                "\n"@,
            )
        },
{
    if report.orphans.len() == 0 {
        return crate::text::copy_str("No orphans.");
    }
    let ghost ov = orphans_view(report.orphans@);
    let mut lines: Vec<String> = Vec::new();
    let mut k: usize = 0;
    while k < report.orphans.len()
        invariant
            k <= report.orphans.len(),
            ov == orphans_view(report.orphans@),
            texts(lines@) == lines_of(ov, k as nat, |o: OrphanView| true, |o: OrphanView| spec_ljust(o.id, 20) + " "@ + spec_ljust(o.kind, 10) + " "@ + provenance_text(o.provenance)),
        decreases report.orphans.len() - k,
    {
        let o = &report.orphans[k];
        assert(ov[k as int] == o@);
        let place = o.provenance.to_text();
        let id = ljust(o.id.as_str(), 20);
        let kind = ljust(o.kind.as_str(), 10);
        let line = msg5(id.as_str(), " ", kind.as_str(), " ", place.as_str());
        let ghost before = texts(lines@);
        lines.push(line);
        assert(texts(lines@) =~= before.push(spec_ljust(ov[k as int].id, 20) + " "@ + spec_ljust(ov[k as int].kind, 10) + " "@ + provenance_text(ov[k as int].provenance)));
        k += 1;
    }
    let n = usize_text(report.orphans.len());
    let last = msg3("\n", n.as_str(), " orphan(s)");
    let ghost before = texts(lines@);
    lines.push(last);
    assert(texts(lines@) =~= before.push("\n"@ + crate::text::nat_text(report.orphans.len() as nat) + " orphan(s)"@));
    join_texts(&lines, "\n")
}

pub open spec fn tally_view(s: Seq<(String, i64)>) -> Seq<(Seq<char>, i64)> {
    s.map_values(|e: (String, i64)| (e.0@, e.1))
}

/// One tally entry as a line: `prefix kind n`, or in `rich` the kind padded
/// and the count right-aligned.
pub open spec fn tally_line(prefix: Seq<char>, width: nat, rich: bool, e: (Seq<char>, i64)) -> Seq<char> {
    if rich {
        prefix + spec_ljust(e.0, width) + " "@ + spec_rjust(int_text(e.1 as int), 5)
    } else {
        prefix + e.0 + " "@ + int_text(e.1 as int)
    }
}

/// Push one line per tally entry.
fn tally_lines(lines: &mut Vec<String>, t: &Vec<(String, i64)>, prefix: &str, width: usize, rich: bool)
    ensures
        texts(final(lines)@) == texts(old(lines)@) + tally_view(t@).map_values(|e: (Seq<char>, i64)| tally_line(prefix@, width as nat, rich, e)),
{
    let ghost start = texts(lines@);
    let ghost tv = tally_view(t@);
    let mut k: usize = 0;
    while k < t.len()
        invariant
            k <= t.len(),
            tv == tally_view(t@),
            texts(lines@) == start + tv.take(k as int).map_values(|e: (Seq<char>, i64)| tally_line(prefix@, width as nat, rich, e)),
        decreases t.len() - k,
    {
        let n = i64_text(t[k].1);
        let text = if rich {
            let name = ljust(t[k].0.as_str(), width);
            let num = crate::text::rjust(n.as_str(), 5);
            msg4(prefix, name.as_str(), " ", num.as_str())
        } else {
            msg4(prefix, t[k].0.as_str(), " ", n.as_str())
        };
        let ghost before = texts(lines@);
        lines.push(text);
        proof {
            assert(tv[k as int] == (t@[k as int].0@, t@[k as int].1));
            assert(tv.take(k + 1) =~= tv.take(k as int).push(tv[k as int]));
            assert(tv.take(k + 1).map_values(|e: (Seq<char>, i64)| tally_line(prefix@, width as nat, rich, e)) =~= tv.take(
                k as int,
            ).map_values(|e: (Seq<char>, i64)| tally_line(prefix@, width as nat, rich, e)).push(tally_line(prefix@, width as nat, rich, tv[k as int])));
            assert(texts(lines@) =~= before.push(tally_line(prefix@, width as nat, rich, tv[k as int])));
        }
        k += 1;
    }
    assert(tv.take(t.len() as int) =~= tv);
}

/// Counts in `plain`: `node kind n` then `edge kind n`.
pub fn format_counts_plain(report: &CountsReport) -> (r: String)
    ensures
        r@ == join(
            tally_view(report.nodes@).map_values(|e: (Seq<char>, i64)| tally_line("node "@, 20, false, e)) + tally_view(
                report.edges@,
            ).map_values(|e: (Seq<char>, i64)| tally_line("edge "@, 20, false, e)),
            "\n"@,
        ),
{
    let mut lines: Vec<String> = Vec::new();
    assert(texts(lines@) =~= Seq::<Seq<char>>::empty());
    tally_lines(&mut lines, &report.nodes, "node ", 20, false);
    tally_lines(&mut lines, &report.edges, "edge ", 20, false);
    join_texts(&lines, "\n")
}

/// Counts in `rich`: a `Nodes` block and an `Edges` block of aligned rows.
pub fn format_counts_rich(report: &CountsReport) -> (r: String)
    ensures
        r@ == join(
            seq!["Nodes"@] + tally_view(report.nodes@).map_values(|e: (Seq<char>, i64)| tally_line("  "@, 20, true, e))
                + seq!["Edges"@] + tally_view(report.edges@).map_values(|e: (Seq<char>, i64)| tally_line("  "@, 20, true, e)),
            "\n"@,
        ),
{
    let mut lines: Vec<String> = Vec::new();
    lines.push(crate::text::copy_str("Nodes"));
    assert(texts(lines@) =~= seq!["Nodes"@]);
    tally_lines(&mut lines, &report.nodes, "  ", 20, true);
    let ghost before = texts(lines@);
    lines.push(crate::text::copy_str("Edges"));
    assert(texts(lines@) =~= before.push("Edges"@));
    tally_lines(&mut lines, &report.edges, "  ", 20, true);
    proof {
        let a = tally_view(report.nodes@).map_values(|e: (Seq<char>, i64)| tally_line("  "@, 20, true, e));
        let b = tally_view(report.edges@).map_values(|e: (Seq<char>, i64)| tally_line("  "@, 20, true, e));
        assert(texts(lines@) =~= seq!["Nodes"@] + a + seq!["Edges"@] + b);
    }
    join_texts(&lines, "\n")
}

// ---------------------------------------------------------------- summary

/// One status's cell: `k=n` in `plain`, the count right-aligned in `rich`.
pub open spec fn status_cell(k: Seq<char>, row: Seq<(String, i64)>, rich: bool) -> Seq<char> {
    if rich {
        spec_rjust(int_text(column(row, k)), 5)
    } else {
        k + "="@ + int_text(column(row, k))
    }
}

/// A row's status cells, space-separated.
pub open spec fn status_cells(keys: Seq<Seq<char>>, row: Seq<(String, i64)>, rich: bool) -> Seq<char> {
    join(keys.map_values(|k: Seq<char>| status_cell(k, row, rich)), " "@)
}

/// A row's count under `k`, zero where it holds none.
fn count_in(row: &Vec<(String, i64)>, k: &str) -> (n: i64)
    ensures
        n == column(row@, k@),
{
    match assoc_get(row, k) {
        Some(v) => *v,
        None => 0,
    }
}

fn cells(keys: &Vec<String>, row: &Vec<(String, i64)>, rich: bool) -> (r: String)
    ensures
        r@ == status_cells(texts(keys@), row@, rich),
{
    let ghost kv = texts(keys@);
    let mut parts: Vec<String> = Vec::new();
    let mut k: usize = 0;
    while k < keys.len()
        invariant
            k <= keys.len(),
            kv == texts(keys@),
            texts(parts@) == kv.take(k as int).map_values(|x: Seq<char>| status_cell(x, row@, rich)),
        decreases keys.len() - k,
    {
        let n = i64_text(count_in(row, keys[k].as_str()));
        let part = if rich {
            crate::text::rjust(n.as_str(), 5)
        } else {
            msg3(keys[k].as_str(), "=", n.as_str())
        };
        let ghost before = texts(parts@);
        parts.push(part);
        proof {
            assert(kv[k as int] == keys@[k as int]@);
            assert(kv.take(k + 1) =~= kv.take(k as int).push(kv[k as int]));
            assert(kv.take(k + 1).map_values(|x: Seq<char>| status_cell(x, row@, rich)) =~= kv.take(k as int).map_values(
                |x: Seq<char>| status_cell(x, row@, rich),
            ).push(status_cell(kv[k as int], row@, rich)));
            assert(texts(parts@) =~= before.push(status_cell(kv[k as int], row@, rich)));
        }
        k += 1;
    }
    assert(kv.take(keys.len() as int) =~= kv);
    join_texts(&parts, " ")
}

/// How `plain` writes a group's row.
pub open spec fn rollup_line(g: (String, Vec<(String, i64)>), keys: Seq<Seq<char>>) -> Seq<char> {
    g.0@ + ": "@ + status_cells(keys, g.1@, false) + " total="@ + int_text(column(g.1@, "total"@))
}

/// The rollup in `plain`: one line per group.
pub fn format_summary_plain(report: &StatusRollup) -> (r: String)
    ensures
        r@ == join(
            report.groups@.map_values(|g: (String, Vec<(String, i64)>)| rollup_line(g, texts(report.status_keys@))),
            "\n"@,
        ),
{
    let ghost kv = texts(report.status_keys@);
    let ghost gs = report.groups@;
    let mut lines: Vec<String> = Vec::new();
    let mut k: usize = 0;
    while k < report.groups.len()
        invariant
            k <= report.groups.len(),
            kv == texts(report.status_keys@),
            gs == report.groups@,
            texts(lines@) == gs.take(k as int).map_values(|g: (String, Vec<(String, i64)>)| rollup_line(g, kv)),
        decreases report.groups.len() - k,
    {
        let g = &report.groups[k];
        let parts = cells(&report.status_keys, &g.1, false);
        let total = i64_text(count_in(&g.1, "total"));
        let line = msg5(g.0.as_str(), ": ", parts.as_str(), " total=", total.as_str());
        let ghost before = texts(lines@);
        lines.push(line);
        proof {
            assert(gs[k as int] == *g);
            assert(gs.take(k + 1) =~= gs.take(k as int).push(gs[k as int]));
            assert(gs.take(k + 1).map_values(|g: (String, Vec<(String, i64)>)| rollup_line(g, kv)) =~= gs.take(
                k as int,
            ).map_values(|g: (String, Vec<(String, i64)>)| rollup_line(g, kv)).push(rollup_line(gs[k as int], kv)));
            assert(texts(lines@) =~= before.push(rollup_line(gs[k as int], kv)));
        }
        k += 1;
    }
    assert(gs.take(report.groups.len() as int) =~= gs);
    join_texts(&lines, "\n")
}

/// A status's column label: capitalised, at most five characters.
pub open spec fn label(k: Seq<char>) -> Seq<char> {
    let c = spec_capitalize(k);
    c.take(if 5 < c.len() {
        5
    } else {
        c.len() as int
    })
}

/// The rich rollup's header: the group key, then a right-aligned label per
/// status and `Total`.
pub open spec fn rollup_header(group_key: Seq<char>, keys: Seq<Seq<char>>) -> Seq<char> {
    spec_ljust(spec_capitalize(group_key), 30) + " "@ + join(
        keys.map_values(|k: Seq<char>| spec_rjust(label(k), 5)).push(spec_rjust("Total"@, 5)),
        " "@,
    )
}

/// How `rich` writes a group's row.
pub open spec fn rich_row(name: Seq<char>, keys: Seq<Seq<char>>, row: Seq<(String, i64)>) -> Seq<char> {
    spec_ljust(name, 30) + " "@ + status_cells(keys, row, true) + " "@ + spec_rjust(int_text(column(row, "total"@)), 5)
}

/// The rich rollup's closing row: the column totals.
pub open spec fn totals_row(keys: Seq<Seq<char>>, groups: Seq<(String, Vec<(String, i64)>)>) -> Seq<char> {
    spec_ljust("TOTAL"@, 30) + " "@ + join(
        keys.map_values(|k: Seq<char>| spec_rjust(int_text(column_sum(groups, groups.len(), k)), 5)),
        " "@,
    ) + " "@ + spec_rjust(int_text(column_sum(groups, groups.len(), "total"@)), 5)
}

/// The rollup in `rich`: header, rule, a row per group, rule, totals.
pub fn format_summary_rich(report: &StatusRollup) -> (r: String)
    requires
        sums_fit(report.groups@, texts(report.status_keys@)),
    ensures
        ({
            let kv = texts(report.status_keys@);
            let header = rollup_header(report.group_key@, kv);
            let rule = crate::text::repeat('-', header.len());
            r@ == join(
                seq![header, rule] + report.groups@.map_values(|g: (String, Vec<(String, i64)>)| rich_row(g.0@, kv, g.1@))
                    + seq![rule, totals_row(kv, report.groups@)],
                "\n"@,
            )
        }),
{
    let ghost kv = texts(report.status_keys@);
    let ghost gs = report.groups@;
    // header
    let mut labels: Vec<String> = Vec::new();
    let mut k: usize = 0;
    while k < report.status_keys.len()
        invariant
            k <= report.status_keys.len(),
            kv == texts(report.status_keys@),
            texts(labels@) == kv.take(k as int).map_values(|x: Seq<char>| spec_rjust(label(x), 5)),
        decreases report.status_keys.len() - k,
    {
        let c = crate::text::capitalize(report.status_keys[k].as_str());
        let t = crate::text::truncate(c.as_str(), 5);
        let l = crate::text::rjust(t.as_str(), 5);
        let ghost before = texts(labels@);
        labels.push(l);
        proof {
            assert(kv[k as int] == report.status_keys@[k as int]@);
            assert(kv.take(k + 1) =~= kv.take(k as int).push(kv[k as int]));
            assert(kv.take(k + 1).map_values(|x: Seq<char>| spec_rjust(label(x), 5)) =~= kv.take(k as int).map_values(
                |x: Seq<char>| spec_rjust(label(x), 5),
            ).push(spec_rjust(label(kv[k as int]), 5)));
            assert(texts(labels@) =~= before.push(spec_rjust(label(kv[k as int]), 5)));
        }
        k += 1;
    }
    assert(kv.take(report.status_keys.len() as int) =~= kv);
    let ghost before_total = texts(labels@);
    labels.push(crate::text::rjust("Total", 5));
    assert(texts(labels@) =~= before_total.push(spec_rjust("Total"@, 5)));
    let key = crate::text::capitalize(report.group_key.as_str());
    let key = ljust(key.as_str(), 30);
    let joined = join_texts(&labels, " ");
    let header = msg3(key.as_str(), " ", joined.as_str());
    let width = crate::text::chars_of(header.as_str()).len();
    let mut rule = String::new();
    let mut w: usize = 0;
    while w < width
        invariant
            w <= width,
            rule@ == crate::text::repeat('-', w as nat),
        decreases width - w,
    {
        crate::text::push_char(&mut rule, '-');
        w += 1;
        assert(rule@ =~= crate::text::repeat('-', w as nat));
    }
    let ghost hv = header@;
    let ghost rv = rule@;
    let mut lines: Vec<String> = Vec::new();
    lines.push(header);
    lines.push(rule.clone());
    assert(texts(lines@) =~= seq![hv, rv]);
    // rows
    let mut g: usize = 0;
    while g < report.groups.len()
        invariant
            g <= report.groups.len(),
            kv == texts(report.status_keys@),
            gs == report.groups@,
            texts(lines@) == seq![hv, rv] + gs.take(g as int).map_values(|x: (String, Vec<(String, i64)>)| rich_row(x.0@, kv, x.1@)),
        decreases report.groups.len() - g,
    {
        let row = &report.groups[g];
        let name = ljust(row.0.as_str(), 30);
        let parts = cells(&report.status_keys, &row.1, true);
        let t = i64_text(count_in(&row.1, "total"));
        let total = crate::text::rjust(t.as_str(), 5);
        let line = msg5(name.as_str(), " ", parts.as_str(), " ", total.as_str());
        let ghost before = texts(lines@);
        lines.push(line);
        proof {
            assert(gs[g as int] == *row);
            assert(gs.take(g + 1) =~= gs.take(g as int).push(gs[g as int]));
            assert(gs.take(g + 1).map_values(|x: (String, Vec<(String, i64)>)| rich_row(x.0@, kv, x.1@)) =~= gs.take(
                g as int,
            ).map_values(|x: (String, Vec<(String, i64)>)| rich_row(x.0@, kv, x.1@)).push(rich_row(gs[g as int].0@, kv, gs[g as int].1@)));
            assert(texts(lines@) =~= before.push(rich_row(gs[g as int].0@, kv, gs[g as int].1@)));
        }
        g += 1;
    }
    assert(gs.take(report.groups.len() as int) =~= gs);
    // totals
    let totals = report.totals();
    let parts = cells(&report.status_keys, &totals, true);
    proof {
        assert(kv.map_values(|x: Seq<char>| status_cell(x, totals@, true)) =~= kv.map_values(
            |x: Seq<char>| spec_rjust(int_text(column_sum(gs, gs.len(), x)), 5),
        )) by {
            assert forall|i: int| 0 <= i < kv.len() implies column(totals@, #[trigger] kv[i]) == column_sum(gs, gs.len(), kv[i]) by {
                assert(kv.contains(kv[i]));
            }
        }
    }
    let t = i64_text(count_in(&totals, "total"));
    let total = crate::text::rjust(t.as_str(), 5);
    let last = msg5(ljust("TOTAL", 30).as_str(), " ", parts.as_str(), " ", total.as_str());
    let ghost before = texts(lines@);
    lines.push(rule);
    lines.push(last);
    assert(texts(lines@) =~= seq![hv, rv] + gs.map_values(|x: (String, Vec<(String, i64)>)| rich_row(x.0@, kv, x.1@))
        + seq![rv, totals_row(kv, gs)]);
    join_texts(&lines, "\n")
}

pub open spec fn findings_tally_view(s: Seq<FindingTally>) -> Seq<(Seq<char>, Severity, i64)> {
    s.map_values(|t: FindingTally| (t.code@, t.severity, t.count))
}

/// The structural counts in `plain`: nodes, edges, then finding tallies.
pub fn format_structural_plain(report: &StructuralSummary) -> (r: String)
    ensures
        r@ == join(
            tally_view(report.node_counts@).map_values(|e: (Seq<char>, i64)| tally_line("node "@, 20, false, e))
                + tally_view(report.edge_counts@).map_values(|e: (Seq<char>, i64)| tally_line("edge "@, 20, false, e))
                + findings_tally_view(report.finding_counts@).map_values(
                |t: (Seq<char>, Severity, i64)| "finding "@ + t.0 + " "@ + severity_text(t.1) + " "@ + int_text(t.2 as int),
            ),
            "\n"@,
        ),
{
    let mut lines: Vec<String> = Vec::new();
    assert(texts(lines@) =~= Seq::<Seq<char>>::empty());
    tally_lines(&mut lines, &report.node_counts, "node ", 20, false);
    tally_lines(&mut lines, &report.edge_counts, "edge ", 20, false);
    let ghost start = texts(lines@);
    let ghost fv = findings_tally_view(report.finding_counts@);
    let mut k: usize = 0;
    while k < report.finding_counts.len()
        invariant
            k <= report.finding_counts.len(),
            fv == findings_tally_view(report.finding_counts@),
            texts(lines@) == start + fv.take(k as int).map_values(
                |t: (Seq<char>, Severity, i64)| "finding "@ + t.0 + " "@ + severity_text(t.1) + " "@ + int_text(t.2 as int),
            ),
        decreases report.finding_counts.len() - k,
    {
        let t = &report.finding_counts[k];
        let n = i64_text(t.count);
        let line = msg6("finding ", t.code.as_str(), " ", t.severity.as_str(), " ", n.as_str());
        let ghost before = texts(lines@);
        lines.push(line);
        proof {
            assert(fv[k as int] == (t.code@, t.severity, t.count));
            assert(fv.take(k + 1) =~= fv.take(k as int).push(fv[k as int]));
            assert(fv.take(k + 1).map_values(
                |t: (Seq<char>, Severity, i64)| "finding "@ + t.0 + " "@ + severity_text(t.1) + " "@ + int_text(t.2 as int),
            ) =~= fv.take(k as int).map_values(
                |t: (Seq<char>, Severity, i64)| "finding "@ + t.0 + " "@ + severity_text(t.1) + " "@ + int_text(t.2 as int),
            ).push("finding "@ + fv[k as int].0 + " "@ + severity_text(fv[k as int].1) + " "@ + int_text(fv[k as int].2 as int)));
            assert(texts(lines@) =~= before.push(
                "finding "@ + fv[k as int].0 + " "@ + severity_text(fv[k as int].1) + " "@ + int_text(fv[k as int].2 as int),
            ));
        }
        k += 1;
    }
    assert(fv.take(report.finding_counts.len() as int) =~= fv);
    join_texts(&lines, "\n")
}

/// A row of the structural counts in `rich`: the label padded to 30, the count
/// right-aligned in 5.
pub open spec fn structural_row(label: Seq<char>, n: i64) -> Seq<char> {
    "  "@ + spec_ljust(label, 30) + " "@ + spec_rjust(int_text(n as int), 5)
}

/// The rows of a tally in `rich`.
pub open spec fn structural_rows(t: Seq<(Seq<char>, i64)>) -> Seq<Seq<char>> {
    t.map_values(|e: (Seq<char>, i64)| structural_row(e.0, e.1))
}

/// The rows of the finding tallies in `rich`, labelled `code severity`.
pub open spec fn finding_rows(t: Seq<(Seq<char>, Severity, i64)>) -> Seq<Seq<char>> {
    t.map_values(|f: (Seq<char>, Severity, i64)| structural_row(f.0 + " "@ + severity_text(f.1), f.2))
}

fn structural_line(label: &str, n: i64) -> (r: String)
    ensures
        r@ == structural_row(label@, n),
{
    let padded = ljust(label, 30);
    let count = i64_text(n);
    let right = rjust(count.as_str(), 5);
    msg4("  ", padded.as_str(), " ", right.as_str())
}

fn push_structural_rows(lines: &mut Vec<String>, t: &Vec<(String, i64)>)
    ensures
        texts(final(lines)@) == texts(old(lines)@) + structural_rows(tally_view(t@)),
{
    let ghost start = texts(lines@);
    let ghost tv = tally_view(t@);
    let mut k: usize = 0;
    while k < t.len()
        invariant
            k <= t.len(),
            tv == tally_view(t@),
            texts(lines@) == start + structural_rows(tv.take(k as int)),
        decreases t.len() - k,
    {
        let line = structural_line(t[k].0.as_str(), t[k].1);
        let ghost before = texts(lines@);
        lines.push(line);
        proof {
            assert(tv.take(k + 1) =~= tv.take(k as int).push(tv[k as int]));
            assert(structural_rows(tv.take(k + 1)) =~= structural_rows(tv.take(k as int)).push(structural_row(tv[k as int].0, tv[k as int].1)));
            assert(texts(lines@) =~= before.push(structural_row(tv[k as int].0, tv[k as int].1)));
        }
        k += 1;
    }
    assert(tv.take(t.len() as int) =~= tv);
}

/// The structural counts in `rich`: `Nodes`, `Edges` and `Findings`, each
/// followed by its aligned rows.
pub fn format_structural_rich(report: &StructuralSummary) -> (r: String)
    ensures
        r@ == join(
            seq!["Nodes"@] + structural_rows(tally_view(report.node_counts@)) + seq!["Edges"@] + structural_rows(
                tally_view(report.edge_counts@),
            ) + seq!["Findings"@] + finding_rows(findings_tally_view(report.finding_counts@)),
            "\n"@,
        ),
{
    let mut lines: Vec<String> = Vec::new();
    lines.push(crate::text::copy_str("Nodes"));
    assert(texts(lines@) =~= seq!["Nodes"@]);
    push_structural_rows(&mut lines, &report.node_counts);
    let ghost before_edges = texts(lines@);
    lines.push(crate::text::copy_str("Edges"));
    assert(texts(lines@) =~= before_edges + seq!["Edges"@]);
    push_structural_rows(&mut lines, &report.edge_counts);
    let ghost before_findings = texts(lines@);
    lines.push(crate::text::copy_str("Findings"));
    assert(texts(lines@) =~= before_findings + seq!["Findings"@]);
    let ghost start = texts(lines@);
    let ghost fv = findings_tally_view(report.finding_counts@);
    let mut k: usize = 0;
    while k < report.finding_counts.len()
        invariant
            k <= report.finding_counts.len(),
            fv == findings_tally_view(report.finding_counts@),
            texts(lines@) == start + finding_rows(fv.take(k as int)),
        decreases report.finding_counts.len() - k,
    {
        let t = &report.finding_counts[k];
        let label = msg3(t.code.as_str(), " ", t.severity.as_str());
        let line = structural_line(label.as_str(), t.count);
        let ghost before = texts(lines@);
        lines.push(line);
        proof {
            assert(fv[k as int] == (t.code@, t.severity, t.count));
            assert(fv.take(k + 1) =~= fv.take(k as int).push(fv[k as int]));
            assert(finding_rows(fv.take(k + 1)) =~= finding_rows(fv.take(k as int)).push(
                structural_row(fv[k as int].0 + " "@ + severity_text(fv[k as int].1), fv[k as int].2),
            ));
            assert(texts(lines@) =~= before.push(structural_row(fv[k as int].0 + " "@ + severity_text(fv[k as int].1), fv[k as int].2)));
        }
        k += 1;
    }
    assert(fv.take(report.finding_counts.len() as int) =~= fv);
    assert(texts(lines@) =~= seq!["Nodes"@] + structural_rows(tally_view(report.node_counts@)) + seq!["Edges"@]
        + structural_rows(tally_view(report.edge_counts@)) + seq!["Findings"@] + finding_rows(fv));
    join_texts(&lines, "\n")
}

// ---------------------------------------------------------------- diff

/// One line per node ref: `prefix id kind`.
pub open spec fn node_lines(prefix: Seq<char>, s: Seq<NodeRefView>) -> Seq<Seq<char>> {
    s.map_values(|n: NodeRefView| prefix + n.id + " "@ + n.kind)
}

/// One line per edge: `prefix src kind tgt`.
pub open spec fn edge_lines(prefix: Seq<char>, s: Seq<(Seq<char>, Seq<char>, Seq<char>)>) -> Seq<Seq<char>> {
    s.map_values(|e: (Seq<char>, Seq<char>, Seq<char>)| prefix + e.0 + " "@ + e.2 + " "@ + e.1)
}

/// Every difference as a line: nodes added, removed, changed; edges added,
/// removed, changed; pathways changed.
pub open spec fn diff_lines(d: DiffReport) -> Seq<Seq<char>> {
    node_lines("node added "@, refs_view(d.nodes_added@)) + node_lines("node removed "@, refs_view(d.nodes_removed@))
        + d.nodes_changed@.map_values(|n: NodeChangedRef| "node changed "@ + n.id@ + " "@ + n.kind@) + edge_lines(
        "edge added "@,
        edge_refs_view(d.edges_added@),
    ) + edge_lines("edge removed "@, edge_refs_view(d.edges_removed@)) + edge_lines(
        "edge changed "@,
        d.edges_changed@.map_values(|e: EdgeChangedRef| (e.src@, e.tgt@, e.kind@)),
    ) + texts(d.pathways_changed@).map_values(|n: Seq<char>| "pathway changed "@ + n)
}

fn push_node_lines(lines: &mut Vec<String>, prefix: &str, s: &Vec<NodeRef>)
    ensures
        texts(final(lines)@) == texts(old(lines)@) + node_lines(prefix@, refs_view(s@)),
{
    let ghost start = texts(lines@);
    let ghost sv = refs_view(s@);
    let mut k: usize = 0;
    while k < s.len()
        invariant
            k <= s.len(),
            sv == refs_view(s@),
            texts(lines@) == start + node_lines(prefix@, sv.take(k as int)),
        decreases s.len() - k,
    {
        let line = msg4(prefix, s[k].id.as_str(), " ", s[k].kind.as_str());
        let ghost before = texts(lines@);
        lines.push(line);
        proof {
            assert(sv[k as int] == s@[k as int]@);
            assert(sv.take(k + 1) =~= sv.take(k as int).push(sv[k as int]));
            assert(node_lines(prefix@, sv.take(k + 1)) =~= node_lines(prefix@, sv.take(k as int)).push(
                prefix@ + sv[k as int].id + " "@ + sv[k as int].kind,
            ));
            assert(texts(lines@) =~= before.push(prefix@ + sv[k as int].id + " "@ + sv[k as int].kind));
        }
        k += 1;
    }
    assert(sv.take(s.len() as int) =~= sv);
}

fn push_edge_line(lines: &mut Vec<String>, prefix: &str, src: &String, tgt: &String, kind: &String)
    ensures
        texts(final(lines)@) == texts(old(lines)@).push(prefix@ + src@ + " "@ + kind@ + " "@ + tgt@),
{
    let line = msg6(prefix, src.as_str(), " ", kind.as_str(), " ", tgt.as_str());
    let ghost before = texts(lines@);
    lines.push(line);
    assert(texts(lines@) =~= before.push(prefix@ + src@ + " "@ + kind@ + " "@ + tgt@));
}

/// The lines of a diff.
fn diff_text_lines(d: &DiffReport) -> (lines: Vec<String>)
    ensures
        texts(lines@) == diff_lines(*d),
{
    let mut lines: Vec<String> = Vec::new();
    assert(texts(lines@) =~= Seq::<Seq<char>>::empty());
    push_node_lines(&mut lines, "node added ", &d.nodes_added);
    push_node_lines(&mut lines, "node removed ", &d.nodes_removed);
    let ghost a = texts(lines@);
    let ghost cv = d.nodes_changed@.map_values(|n: NodeChangedRef| "node changed "@ + n.id@ + " "@ + n.kind@);
    let mut k: usize = 0;
    while k < d.nodes_changed.len()
        invariant
            k <= d.nodes_changed.len(),
            cv == d.nodes_changed@.map_values(|n: NodeChangedRef| "node changed "@ + n.id@ + " "@ + n.kind@),
            texts(lines@) == a + cv.take(k as int),
        decreases d.nodes_changed.len() - k,
    {
        let n = &d.nodes_changed[k];
        let line = msg4("node changed ", n.id.as_str(), " ", n.kind.as_str());
        let ghost before = texts(lines@);
        lines.push(line);
        assert(cv.take(k + 1) =~= cv.take(k as int).push(cv[k as int]));
        assert(texts(lines@) =~= before.push(cv[k as int]));
        k += 1;
    }
    assert(cv.take(d.nodes_changed.len() as int) =~= cv);
    let ghost b = texts(lines@);
    let ghost ea = edge_lines("edge added "@, edge_refs_view(d.edges_added@));
    let mut k: usize = 0;
    while k < d.edges_added.len()
        invariant
            k <= d.edges_added.len(),
            ea == edge_lines("edge added "@, edge_refs_view(d.edges_added@)),
            texts(lines@) == b + ea.take(k as int),
        decreases d.edges_added.len() - k,
    {
        let e = &d.edges_added[k];
        push_edge_line(&mut lines, "edge added ", &e.src, &e.tgt, &e.kind);
        assert(ea.take(k + 1) =~= ea.take(k as int).push(ea[k as int]));
        k += 1;
    }
    assert(ea.take(d.edges_added.len() as int) =~= ea);
    let ghost c = texts(lines@);
    let ghost er = edge_lines("edge removed "@, edge_refs_view(d.edges_removed@));
    let mut k: usize = 0;
    while k < d.edges_removed.len()
        invariant
            k <= d.edges_removed.len(),
            er == edge_lines("edge removed "@, edge_refs_view(d.edges_removed@)),
            texts(lines@) == c + er.take(k as int),
        decreases d.edges_removed.len() - k,
    {
        let e = &d.edges_removed[k];
        push_edge_line(&mut lines, "edge removed ", &e.src, &e.tgt, &e.kind);
        assert(er.take(k + 1) =~= er.take(k as int).push(er[k as int]));
        k += 1;
    }
    assert(er.take(d.edges_removed.len() as int) =~= er);
    let ghost e0 = texts(lines@);
    let ghost ec = edge_lines("edge changed "@, d.edges_changed@.map_values(|e: EdgeChangedRef| (e.src@, e.tgt@, e.kind@)));
    let mut k: usize = 0;
    while k < d.edges_changed.len()
        invariant
            k <= d.edges_changed.len(),
            ec == edge_lines("edge changed "@, d.edges_changed@.map_values(|e: EdgeChangedRef| (e.src@, e.tgt@, e.kind@))),
            texts(lines@) == e0 + ec.take(k as int),
        decreases d.edges_changed.len() - k,
    {
        let e = &d.edges_changed[k];
        push_edge_line(&mut lines, "edge changed ", &e.src, &e.tgt, &e.kind);
        assert(ec.take(k + 1) =~= ec.take(k as int).push(ec[k as int]));
        k += 1;
    }
    assert(ec.take(d.edges_changed.len() as int) =~= ec);
    let ghost f = texts(lines@);
    let ghost pc = texts(d.pathways_changed@).map_values(|n: Seq<char>| "pathway changed "@ + n);
    let mut k: usize = 0;
    while k < d.pathways_changed.len()
        invariant
            k <= d.pathways_changed.len(),
            pc == texts(d.pathways_changed@).map_values(|n: Seq<char>| "pathway changed "@ + n),
            texts(lines@) == f + pc.take(k as int),
        decreases d.pathways_changed.len() - k,
    {
        let line = msg2("pathway changed ", d.pathways_changed[k].as_str());
        let ghost before = texts(lines@);
        lines.push(line);
        assert(pc.take(k + 1) =~= pc.take(k as int).push(pc[k as int]));
        assert(texts(lines@) =~= before.push(pc[k as int]));
        k += 1;
    }
    assert(pc.take(d.pathways_changed.len() as int) =~= pc);
    lines
}

/// A diff in `plain`: one line per difference, or `No differences.`.
pub fn format_diff_plain(d: &DiffReport) -> (r: String)
    ensures
        r@ == if diff_lines(*d).len() == 0 {
            "No differences."@
        } else {
            join(diff_lines(*d), "\n"@)
        },
{
    let lines = diff_text_lines(d);
    if lines.len() == 0 {
        return crate::text::copy_str("No differences.");
    }
    join_texts(&lines, "\n")
}

/// A diff in `rich`: the revisions, the differences and their count.
pub fn format_diff_rich(d: &DiffReport) -> (r: String)
    ensures
        r@ == if diff_lines(*d).len() == 0 {
            d.rev_a@ + " -> "@ + d.rev_b@ + "\nNo differences."@
        } else {
            d.rev_a@ + " -> "@ + d.rev_b@ + "\n"@ + join(diff_lines(*d), "\n"@) + "\n\n"@ + crate::text::nat_text(
                diff_lines(*d).len(),
            ) + " difference(s)"@
        },
{
    let lines = diff_text_lines(d);
    if lines.len() == 0 {
        return msg4(d.rev_a.as_str(), " -> ", d.rev_b.as_str(), "\nNo differences.");
    }
    let body = join_texts(&lines, "\n");
    let n = usize_text(lines.len());
    let head = msg4(d.rev_a.as_str(), " -> ", d.rev_b.as_str(), "\n");
    msg5(head.as_str(), body.as_str(), "\n\n", n.as_str(), " difference(s)")
}

// ---------------------------------------------------------------- escapes

/// A character that ends an escape sequence and is dropped with it.
pub open spec fn ends_escape(c: char) -> bool {
    ('a' <= c && c <= 'z') || ('A' <= c && c <= 'Z')
}

/// A parameter character inside an escape sequence.
pub open spec fn escape_param(c: char) -> bool {
    c == ';' || c == '?' || ('0' <= c && c <= '9')
}

/// How many parameter characters run from position `k`.
pub open spec fn param_run(s: Seq<char>, k: int) -> nat
    decreases s.len() - k,
{
    if 0 <= k < s.len() && escape_param(s[k]) {
        1 + param_run(s, k + 1)
    } else {
        0
    }
}

/// Whether a complete escape sequence starts at `i`: `ESC [`, parameters, then
/// one letter (the pattern `\x1b\[[;?0-9]*[a-zA-Z]`).
pub open spec fn escape_at(s: Seq<char>, i: int) -> bool {
    &&& 0 <= i
    &&& i + 1 < s.len()
    &&& s[i] == '\u{1b}'
    &&& s[i + 1] == '['
    &&& i + 2 + param_run(s, i + 2) < s.len()
    &&& ends_escape(s[i + 2 + param_run(s, i + 2)])
}

/// The text from position `i` on with every complete escape sequence removed,
/// leftmost first; every other character kept in order.
pub open spec fn stripped_from(s: Seq<char>, i: int) -> Seq<char>
    decreases s.len() - i,
{
    if i < 0 || i >= s.len() {
        Seq::empty()
    } else if escape_at(s, i) {
        stripped_from(s, i + 3 + param_run(s, i + 2))
    } else {
        seq![s[i]] + stripped_from(s, i + 1)
    }
}

pub open spec fn stripped(s: Seq<char>) -> Seq<char> {
    stripped_from(s, 0)
}

/// A run of parameters from `a` to `j` counts toward the run from `a`.
proof fn lemma_param_run(s: Seq<char>, a: int, j: int)
    requires
        0 <= a <= j <= s.len(),
        forall|k: int| a <= k < j ==> escape_param(#[trigger] s[k]),
    ensures
        param_run(s, a) == (j - a) + param_run(s, j),
    decreases j - a,
{
    if a < j {
        lemma_param_run(s, a + 1, j);
    }
}

/// Drop ANSI escape sequences from rendered output, as a terminal-less
/// stream needs.
pub fn strip_ansi(text: &str) -> (r: String)
    ensures
        r@ == stripped(text@),
{
    let v = crate::text::chars_of(text);
    let ghost all = v@;
    let mut out = String::new();
    let mut i: usize = 0;
    assert(out@ + stripped_from(all, 0) =~= stripped(all));
    while i < v.len()
        invariant
            all == v@,
            all == text@,
            i <= v.len(),
            out@ + stripped_from(all, i as int) == stripped(all),
        decreases v.len() - i,
    {
        let c = v[i];
        let ghost before = out@;
        let mut done = false;
        if c == '\u{1b}' && i + 1 < v.len() && v[i + 1] == '[' {
            let mut j: usize = i + 2;
            while j < v.len() && (v[j] == ';' || v[j] == '?' || ('0' <= v[j] && v[j] <= '9'))
                invariant
                    all == v@,
                    i + 2 <= j <= v.len(),
                    forall|k: int| i + 2 <= k < j ==> escape_param(#[trigger] all[k]),
                decreases v.len() - j,
            {
                j += 1;
            }
            proof {
                lemma_param_run(all, i + 2, j as int);
            }
            if j < v.len() && (('a' <= v[j] && v[j] <= 'z') || ('A' <= v[j] && v[j] <= 'Z')) {
                assert(escape_at(all, i as int));
                i = j + 1;
                done = true;
            } else {
                assert(!escape_at(all, i as int));
            }
        }
        if !done {
            assert(!escape_at(all, i as int));
            crate::text::push_char(&mut out, c);
            assert(before + (seq![c] + stripped_from(all, i + 1)) =~= out@ + stripped_from(all, i + 1));
            i += 1;
        }
    }
    proof {
        assert(stripped_from(all, i as int) =~= Seq::<char>::empty());
        assert(out@ =~= stripped(all));
    }
    out
}


// ---------------------------------------------------------------- fuse

/// A header field of a composed register, or `default` where it has none.
pub open spec fn header_field(h: Seq<(String, String)>, k: Seq<char>, default: Seq<char>) -> Seq<char> {
    match assoc(h, k) {
        Some(v) => v@,
        None => default,
    }
}

/// The first line of a composed register in text: its name, version and sizes.
pub open spec fn fuse_title(h: Seq<(String, String)>, nodes: nat, edges: nat, pathways: nat) -> Seq<char> {
    "Fuse "@ + header_field(h, "name"@, "<unknown>"@) + " "@ + header_field(h, "version"@, ""@) + ": "@
        + nat_text_of(nodes) + " nodes, "@ + nat_text_of(edges) + " edges, "@ + nat_text_of(pathways) + " pathways"@
}

/// `id [kind] file:line`.
pub open spec fn fuse_node_line(n: FuseNodeView) -> Seq<char> {
    n.id + " ["@ + n.kind + "] "@ + provenance_text(n.provenance.location)
}

/// `src --kind--> tgt`, marked `(unresolved)` where the target was not found.
pub open spec fn fuse_edge_line(e: FuseEdgeView) -> Seq<char> {
    e.src + " --"@ + e.kind + "--> "@ + e.tgt + if e.target_kind is Some {
        ""@
    } else {
        " (unresolved)"@
    }
}

/// `name: a -> b (current: c)`.
pub open spec fn pathway_line(p: PathwayView) -> Seq<char> {
    p.name + ": "@ + join(p.order, " -> "@) + " (current: "@ + p.current + ")"@
}

/// The source a composed finding names: its own, else those of its locations.
pub open spec fn fuse_finding_source(f: FuseFindingView) -> Seq<char> {
    match f.source {
        Some(s) => s,
        None => join(f.locations.map_values(|p: crate::compose::FuseProvenanceView| p.source), ", "@),
    }
}

/// A composed finding in text; `rich` colours the severity.
pub open spec fn fuse_finding_line(f: FuseFindingView, rich: bool) -> Seq<char> {
    let sev = if rich {
        color_of(f.issue.severity) + severity_upper(f.issue.severity) + RESET@
    } else {
        severity_upper(f.issue.severity)
    };
    sev + " "@ + f.issue.code + " ["@ + fuse_finding_source(f) + "] "@ + provenance_text(f.issue.provenance) + " "@
        + f.issue.message
}

/// The lines of a composed register in text, before they are joined.
pub open spec fn fuse_lines(
    h: Seq<(String, String)>,
    nodes: Seq<FuseNodeView>,
    edges: Seq<FuseEdgeView>,
    pathways: Seq<PathwayView>,
    findings: Seq<FuseFindingView>,
    rich: bool,
) -> Seq<Seq<char>> {
    let shown_lines = lines_of(
        findings,
        findings.len(),
        |f: FuseFindingView| shown(f.issue),
        |f: FuseFindingView| fuse_finding_line(f, rich),
    );
    let body = seq![fuse_title(h, nodes.len(), edges.len(), pathways.len())] + nodes.map_values(
        |n: FuseNodeView| fuse_node_line(n),
    ) + edges.map_values(|e: FuseEdgeView| fuse_edge_line(e)) + pathways.map_values(|p: PathwayView| pathway_line(p))
        + shown_lines;
    if shown_lines.len() == 0 {
        body.push("No findings."@)
    } else {
        body
    }
}

/// The header field under `k`, or `default`.
fn header_value(h: &Vec<(String, String)>, k: &str, default: &str) -> (r: String)
    ensures
        r@ == header_field(h@, k@, default@),
{
    match crate::assoc::assoc_get(h, k) {
        Some(v) => v.clone(),
        None => crate::text::copy_str(default),
    }
}

/// The source column of a composed finding.
fn fuse_source_text(f: &crate::compose::FuseFinding) -> (r: String)
    ensures
        r@ == fuse_finding_source(f@),
{
    match &f.source {
        Some(s) => s.clone(),
        None => {
            let ghost lv = f@.locations;
            let mut parts: Vec<String> = Vec::new();
            let mut k: usize = 0;
            while k < f.locations.len()
                invariant
                    k <= f.locations.len(),
                    lv == f@.locations,
                    lv.len() == f.locations.len(),
                    texts(parts@) == lv.take(k as int).map_values(|p: crate::compose::FuseProvenanceView| p.source),
                decreases f.locations.len() - k,
            {
                let ghost before = texts(parts@);
                parts.push(f.locations[k].source.clone());
                proof {
                    assert(lv[k as int] == f.locations@[k as int]@);
                    assert(lv.take(k + 1) =~= lv.take(k as int).push(lv[k as int]));
                    assert(texts(parts@) =~= before.push(lv[k as int].source));
                }
                k += 1;
            }
            assert(lv.take(k as int) =~= lv);
            join_texts(&parts, ", ")
        },
    }
}

/// A pathway as `name: a -> b (current: c)`.
fn pathway_text(p: &PathwayEntry) -> (r: String)
    ensures
        r@ == pathway_line(p@),
{
    let order = join_texts(&p.order, " -> ");
    msg6(p.name.as_str(), ": ", order.as_str(), " (current: ", p.current.as_str(), ")")
}

/// A composed register in text: the title line, one line per node, edge and
/// pathway, then the findings the profile did not suppress (`No findings.`
/// when there are none). `rich` colours the severities.
pub fn format_fuse_text(report: &FuseReport, rich: bool) -> (r: String)
    ensures
        r@ == join(
            fuse_lines(
                report.header@,
                fuse_nodes_view(report.nodes@),
                fuse_edges_view(report.edges@),
                report.pathways@.map_values(|p: PathwayEntry| p@),
                findings_view(report.findings@),
                rich,
            ),
            "\n"@,
        ),
{
    let ghost nv = fuse_nodes_view(report.nodes@);
    let ghost ev = fuse_edges_view(report.edges@);
    let ghost pv = report.pathways@.map_values(|p: PathwayEntry| p@);
    let ghost fv = findings_view(report.findings@);
    let name = header_value(&report.header, "name", "<unknown>");
    let version = header_value(&report.header, "version", "");
    let nn = usize_text(report.nodes.len());
    let ne = usize_text(report.edges.len());
    let np = usize_text(report.pathways.len());
    let head = msg6("Fuse ", name.as_str(), " ", version.as_str(), ": ", nn.as_str());
    let title = msg6(head.as_str(), " nodes, ", ne.as_str(), " edges, ", np.as_str(), " pathways");
    let mut lines: Vec<String> = Vec::new();
    lines.push(title);
    let ghost t0 = texts(lines@);
    assert(t0 =~= seq![fuse_title(report.header@, nv.len(), ev.len(), pv.len())]);
    let mut k: usize = 0;
    while k < report.nodes.len()
        invariant
            k <= report.nodes.len(),
            nv == fuse_nodes_view(report.nodes@),
            texts(lines@) == t0 + nv.take(k as int).map_values(|n: FuseNodeView| fuse_node_line(n)),
        decreases report.nodes.len() - k,
    {
        let n = &report.nodes[k];
        let at = n.provenance.location.to_text();
        let line = msg5(n.id.as_str(), " [", n.kind.as_str(), "] ", at.as_str());
        let ghost before = texts(lines@);
        lines.push(line);
        proof {
            assert(nv[k as int] == n@);
            assert(nv.take(k + 1) =~= nv.take(k as int).push(nv[k as int]));
            assert(texts(lines@) =~= before.push(fuse_node_line(nv[k as int])));
        }
        k += 1;
    }
    assert(nv.take(k as int) =~= nv);
    let ghost t1 = texts(lines@);
    let mut k: usize = 0;
    while k < report.edges.len()
        invariant
            k <= report.edges.len(),
            ev == fuse_edges_view(report.edges@),
            texts(lines@) == t1 + ev.take(k as int).map_values(|e: FuseEdgeView| fuse_edge_line(e)),
        decreases report.edges.len() - k,
    {
        let e = &report.edges[k];
        let tail = if e.target_kind.is_some() {
            ""
        } else {
            " (unresolved)"
        };
        let line = msg6(e.src.as_str(), " --", e.kind.as_str(), "--> ", e.tgt.as_str(), tail);
        let ghost before = texts(lines@);
        lines.push(line);
        proof {
            assert(ev[k as int] == e@);
            assert(ev.take(k + 1) =~= ev.take(k as int).push(ev[k as int]));
            assert(texts(lines@) =~= before.push(fuse_edge_line(ev[k as int])));
        }
        k += 1;
    }
    assert(ev.take(k as int) =~= ev);
    let ghost t2 = texts(lines@);
    let mut k: usize = 0;
    while k < report.pathways.len()
        invariant
            k <= report.pathways.len(),
            pv == report.pathways@.map_values(|p: PathwayEntry| p@),
            texts(lines@) == t2 + pv.take(k as int).map_values(|p: PathwayView| pathway_line(p)),
        decreases report.pathways.len() - k,
    {
        let line = pathway_text(&report.pathways[k]);
        let ghost before = texts(lines@);
        lines.push(line);
        proof {
            assert(pv[k as int] == report.pathways@[k as int]@);
            assert(pv.take(k + 1) =~= pv.take(k as int).push(pv[k as int]));
            assert(texts(lines@) =~= before.push(pathway_line(pv[k as int])));
        }
        k += 1;
    }
    assert(pv.take(k as int) =~= pv);
    let ghost t3 = texts(lines@);
    let mut shown_n: usize = 0;
    let mut k: usize = 0;
    while k < report.findings.len()
        invariant
            k <= report.findings.len(),
            fv == findings_view(report.findings@),
            texts(lines@) == t3 + lines_of(
                fv,
                k as nat,
                |f: FuseFindingView| shown(f.issue),
                |f: FuseFindingView| fuse_finding_line(f, rich),
            ),
            shown_n == lines_of(
                fv,
                k as nat,
                |f: FuseFindingView| shown(f.issue),
                |f: FuseFindingView| fuse_finding_line(f, rich),
            ).len(),
            shown_n <= k,
        decreases report.findings.len() - k,
    {
        let f = &report.findings[k];
        assert(fv[k as int] == f@);
        if !f.issue.suppressed {
            let sev = if rich {
                msg3(color_for(f.issue.severity), f.issue.severity.as_upper(), RESET)
            } else {
                crate::text::copy_str(f.issue.severity.as_upper())
            };
            let source = fuse_source_text(f);
            let at = f.issue.provenance.to_text();
            let head = msg5(sev.as_str(), " ", f.issue.code.as_str(), " [", source.as_str());
            let line = msg5(head.as_str(), "] ", at.as_str(), " ", f.issue.message.as_str());
            let ghost before = texts(lines@);
            lines.push(line);
            assert(texts(lines@) =~= before.push(fuse_finding_line(fv[k as int], rich)));
            shown_n += 1;
        }
        k += 1;
    }
    if shown_n == 0 {
        let ghost before = texts(lines@);
        lines.push(crate::text::copy_str("No findings."));
        assert(texts(lines@) =~= before.push("No findings."@));
    }
    join_texts(&lines, "\n")
}


// ---------------------------------------------------------------- trace

/// A string attr bare, anything else as compact JSON.
pub open spec fn scalar_of(j: Json) -> Seq<char> {
    match j {
        Json::Str(t) => t,
        _ => json_text(j),
    }
}

/// The key-attr cell of a trace row: the kind's summary attr, cut to 30
/// characters; empty where the kind names none or the node lacks it.
pub open spec fn key_cell(e: TraceEntryView) -> Seq<char> {
    match e.summary_attr {
        None => ""@,
        Some(a) => {
            let v = match lookup(e.attrs, a) {
                Some(j) => scalar_of(j),
                None => ""@,
            };
            v.take(if 30 < v.len() { 30 } else { v.len() as int })
        },
    }
}

/// A finding under its trace entry; `rich` colours and pads the severity.
pub open spec fn trace_finding_line(i: IssueView, rich: bool) -> Seq<char> {
    let sev = if rich {
        color_of(i.severity) + spec_ljust(severity_upper(i.severity), 7) + RESET@
    } else {
        severity_upper(i.severity)
    };
    "  "@ + sev + " "@ + i.code + " "@ + provenance_text(i.provenance) + " "@ + i.message
}

/// The lines of the findings a trace shows, in order.
pub open spec fn trace_finding_lines(is: Seq<IssueView>, rich: bool) -> Seq<Seq<char>> {
    lines_of(is, is.len(), |i: IssueView| shown(i), |i: IssueView| trace_finding_line(i, rich))
}

/// A trace row: ID, kind, key attr, edge count and shown-finding count.
pub open spec fn trace_row(e: TraceEntryView, rich: bool) -> Seq<char> {
    let shown_n = trace_finding_lines(e.findings, rich).len();
    let lead = spec_ljust(e.id, 20) + " "@ + spec_ljust(e.kind, 10) + " "@ + spec_ljust(key_cell(e), 30);
    if rich {
        lead + " "@ + spec_rjust(nat_text_of(e.edges.len()), 5) + " "@ + spec_rjust(nat_text_of(shown_n), 5)
    } else {
        lead + " edges:"@ + nat_text_of(e.edges.len()) + " findings:"@ + nat_text_of(shown_n)
    }
}

/// The rows of the first `k` entries, each followed by its findings.
pub open spec fn trace_entry_lines(es: Seq<TraceEntryView>, k: nat, rich: bool) -> Seq<Seq<char>>
    decreases k,
{
    if k == 0 || k > es.len() {
        Seq::empty()
    } else {
        trace_entry_lines(es, (k - 1) as nat, rich) + seq![trace_row(es[k - 1], rich)] + trace_finding_lines(
            es[k - 1].findings,
            rich,
        )
    }
}

/// The block of findings no entry holds, when any is shown.
pub open spec fn unattachable_lines(is: Seq<IssueView>, rich: bool) -> Seq<Seq<char>> {
    let fl = trace_finding_lines(is, rich);
    if fl.len() == 0 {
        Seq::empty()
    } else {
        seq![""@, "Unattachable findings:"@] + fl
    }
}

/// Shown findings of severity `s` over the first `k` entries.
pub open spec fn entries_count(es: Seq<TraceEntryView>, k: nat, s: Severity) -> nat
    decreases k,
{
    if k == 0 || k > es.len() {
        0
    } else {
        entries_count(es, (k - 1) as nat, s) + shown_count(es[k - 1].findings, es[k - 1].findings.len(), s)
    }
}

/// Shown findings of severity `s` over a whole trace.
pub open spec fn trace_count(es: Seq<TraceEntryView>, un: Seq<IssueView>, s: Severity) -> nat {
    entries_count(es, es.len(), s) + shown_count(un, un.len(), s)
}

/// The count of severity `s` among four counts, most severe first.
pub open spec fn count_of(c: (nat, nat, nat, nat), s: Severity) -> nat {
    match s {
        Severity::Error => c.0,
        Severity::Warning => c.1,
        Severity::Info => c.2,
        Severity::Hint => c.3,
    }
}

/// `N error(s), M warning(s)`: the severities with a nonzero count, most severe first.
pub open spec fn count_parts(c: (nat, nat, nat, nat)) -> Seq<Seq<char>> {
    let part = |s: Severity| nat_text_of(count_of(c, s)) + " "@ + severity_text(s) + "(s)"@;
    let keep = |s: Severity| count_of(c, s) > 0;
    lines_of(seq![Severity::Error, Severity::Warning, Severity::Info, Severity::Hint], 4, keep, part)
}

/// The tally of a trace's shown findings by severity.
pub open spec fn trace_tally_parts(es: Seq<TraceEntryView>, un: Seq<IssueView>) -> Seq<Seq<char>> {
    count_parts(
        (
            trace_count(es, un, Severity::Error),
            trace_count(es, un, Severity::Warning),
            trace_count(es, un, Severity::Info),
            trace_count(es, un, Severity::Hint),
        ),
    )
}

/// The column heads of `rich`.
pub open spec fn trace_head() -> Seq<char> {
    spec_ljust("ID"@, 20) + " "@ + spec_ljust("Kind"@, 10) + " "@ + spec_ljust("Key Attr"@, 30) + " "@ + spec_rjust(
        "Edges"@,
        5,
    ) + " "@ + spec_rjust("Finds"@, 5)
}

pub open spec fn trace_entries_view(s: Seq<TraceEntry>) -> Seq<TraceEntryView> {
    s.map_values(|e: TraceEntry| e@)
}

/// The key-attr cell of an entry.
pub fn key_value(entry: &TraceEntry) -> (r: String)
    ensures
        r@ == key_cell(entry@),
{
    match &entry.summary_attr {
        None => crate::text::copy_str(""),
        Some(a) => {
            let v = match get(&entry.attrs, a.as_str()) {
                Some(JsonValue::Str(t)) => t.clone(),
                Some(j) => {
                    assert(!(j.deep() is Str));
                    to_json_text(j)
                },
                None => crate::text::copy_str(""),
            };
            crate::text::truncate(v.as_str(), 30)
        },
    }
}

/// A finding under its trace entry.
pub fn trace_finding_text(issue: &Issue, rich: bool) -> (r: String)
    ensures
        r@ == trace_finding_line(issue@, rich),
{
    let sev = if rich {
        let padded = ljust(issue.severity.as_upper(), 7);
        msg3(color_for(issue.severity), padded.as_str(), RESET)
    } else {
        crate::text::copy_str(issue.severity.as_upper())
    };
    let at = issue.provenance.to_text();
    msg8("  ", sev.as_str(), " ", issue.code.as_str(), " ", at.as_str(), " ", issue.message.as_str())
}

/// The shown findings' lines, with the number of them of each severity.
fn trace_findings(issues: &Vec<Issue>, rich: bool) -> (r: (Vec<String>, (usize, usize, usize, usize)))
    ensures
        texts(r.0@) == trace_finding_lines(issues_view(issues@), rich),
        r.1.0 == shown_count(issues_view(issues@), issues@.len(), Severity::Error),
        r.1.1 == shown_count(issues_view(issues@), issues@.len(), Severity::Warning),
        r.1.2 == shown_count(issues_view(issues@), issues@.len(), Severity::Info),
        r.1.3 == shown_count(issues_view(issues@), issues@.len(), Severity::Hint),
        r.1.0 + r.1.1 + r.1.2 + r.1.3 == r.0@.len(),
{
    let ghost iv = issues_view(issues@);
    let mut lines: Vec<String> = Vec::new();
    let mut c0: usize = 0;
    let mut c1: usize = 0;
    let mut c2: usize = 0;
    let mut c3: usize = 0;
    let mut k: usize = 0;
    while k < issues.len()
        invariant
            k <= issues.len(),
            iv == issues_view(issues@),
            iv.len() == issues.len(),
            texts(lines@) == lines_of(iv, k as nat, |i: IssueView| shown(i), |i: IssueView| trace_finding_line(i, rich)),
            c0 == shown_count(iv, k as nat, Severity::Error),
            c1 == shown_count(iv, k as nat, Severity::Warning),
            c2 == shown_count(iv, k as nat, Severity::Info),
            c3 == shown_count(iv, k as nat, Severity::Hint),
            c0 + c1 + c2 + c3 == lines@.len(),
            lines@.len() <= k,
        decreases issues.len() - k,
    {
        let i = &issues[k];
        assert(iv[k as int] == i@);
        if !i.suppressed {
            let line = trace_finding_text(i, rich);
            let ghost before = texts(lines@);
            lines.push(line);
            assert(texts(lines@) =~= before.push(trace_finding_line(iv[k as int], rich)));
            match i.severity {
                Severity::Error => c0 += 1,
                Severity::Warning => c1 += 1,
                Severity::Info => c2 += 1,
                Severity::Hint => c3 += 1,
            }
        }
        k += 1;
    }
    (lines, (c0, c1, c2, c3))
}

/// Move `more` onto the end of `lines`.
fn append_lines(lines: &mut Vec<String>, more: Vec<String>)
    ensures
        final(lines)@ == old(lines)@ + more@,
        texts(final(lines)@) == texts(old(lines)@) + texts(more@),
{
    let mut more = more;
    let ghost a = lines@;
    let ghost b = more@;
    lines.append(&mut more);
    assert(texts(a + b) =~= texts(a) + texts(b));
}

/// The closing line of `rich`: the entry count and the tally.
fn trace_tail(entries: usize, c0: usize, c1: usize, c2: usize, c3: usize) -> (r: String)
    ensures
        ({
            let parts = count_parts((c0 as nat, c1 as nat, c2 as nat, c3 as nat));
            r@ == "\n"@ + nat_text_of(entries as nat) + " entries, "@ + if parts.len() == 0 {
                "no findings"@
            } else {
                join(parts, ", "@)
            }
        }),
{
    let ghost c = (c0 as nat, c1 as nat, c2 as nat, c3 as nat);
    let ghost sevs = seq![Severity::Error, Severity::Warning, Severity::Info, Severity::Hint];
    let ghost part = |s: Severity| nat_text_of(count_of(c, s)) + " "@ + severity_text(s) + "(s)"@;
    let ghost keep = |s: Severity| count_of(c, s) > 0;
    let mut parts: Vec<String> = Vec::new();
    let mut z: usize = 0;
    while z < 4
        invariant
            z <= 4,
            c == (c0 as nat, c1 as nat, c2 as nat, c3 as nat),
            sevs == seq![Severity::Error, Severity::Warning, Severity::Info, Severity::Hint],
            part == (|s: Severity| nat_text_of(count_of(c, s)) + " "@ + severity_text(s) + "(s)"@),
            keep == (|s: Severity| count_of(c, s) > 0),
            texts(parts@) == lines_of(sevs, z as nat, keep, part),
        decreases 4 - z,
    {
        let s = match z {
            0 => Severity::Error,
            1 => Severity::Warning,
            2 => Severity::Info,
            _ => Severity::Hint,
        };
        assert(sevs[z as int] == s);
        let n = match z {
            0 => c0,
            1 => c1,
            2 => c2,
            _ => c3,
        };
        assert(n == count_of(c, s));
        if n > 0 {
            let t = usize_text(n);
            let p = msg4(t.as_str(), " ", s.as_str(), "(s)");
            let ghost before = texts(parts@);
            parts.push(p);
            assert(texts(parts@) =~= before.push(part(s)));
        }
        z += 1;
    }
    let ne = usize_text(entries);
    let tally = if parts.len() == 0 {
        crate::text::copy_str("no findings")
    } else {
        join_texts(&parts, ", ")
    };
    msg4("\n", ne.as_str(), " entries, ", tally.as_str())
}

/// The `rich` column heads and their rule.
fn trace_head_lines() -> (r: Vec<String>)
    ensures
        texts(r@) == seq![trace_head(), repeat('-', trace_head().len())],
{
    let id = ljust("ID", 20);
    let kind = ljust("Kind", 10);
    let key = ljust("Key Attr", 30);
    let edges = rjust("Edges", 5);
    let finds = rjust("Finds", 5);
    let head = msg9(id.as_str(), " ", kind.as_str(), " ", key.as_str(), " ", edges.as_str(), " ", finds.as_str());
    let n = crate::text::chars_of(head.as_str()).len();
    let mut dashes = String::new();
    let mut z: usize = 0;
    while z < n
        invariant
            z <= n,
            dashes@ == repeat('-', z as nat),
        decreases n - z,
    {
        crate::text::push_char(&mut dashes, '-');
        assert(dashes@ =~= repeat('-', (z + 1) as nat));
        z += 1;
    }
    let mut lines: Vec<String> = Vec::new();
    lines.push(head);
    lines.push(dashes);
    assert(texts(lines@) =~= seq![trace_head(), repeat('-', trace_head().len())]);
    lines
}

/// The entry rows with their findings, then the unattachable block, with the
/// shown findings counted by severity.
fn trace_body(report: &TraceReport, rich: bool) -> (r: (Vec<String>, (usize, usize, usize, usize)))
    ensures
        ({
            let es = trace_entries_view(report.entries@);
            let un = issues_view(report.unattachable_findings@);
            &&& texts(r.0@) == trace_entry_lines(es, es.len(), rich) + unattachable_lines(un, rich)
            &&& r.1.0 == trace_count(es, un, Severity::Error)
            &&& r.1.1 == trace_count(es, un, Severity::Warning)
            &&& r.1.2 == trace_count(es, un, Severity::Info)
            &&& r.1.3 == trace_count(es, un, Severity::Hint)
        }),
{
    let ghost es = trace_entries_view(report.entries@);
    let ghost un = issues_view(report.unattachable_findings@);
    let mut lines: Vec<String> = Vec::new();
    let mut c0: usize = 0;
    let mut c1: usize = 0;
    let mut c2: usize = 0;
    let mut c3: usize = 0;
    let mut k: usize = 0;
    while k < report.entries.len()
        invariant
            k <= report.entries.len(),
            es == trace_entries_view(report.entries@),
            es.len() == report.entries.len(),
            texts(lines@) == trace_entry_lines(es, k as nat, rich),
            c0 == entries_count(es, k as nat, Severity::Error),
            c1 == entries_count(es, k as nat, Severity::Warning),
            c2 == entries_count(es, k as nat, Severity::Info),
            c3 == entries_count(es, k as nat, Severity::Hint),
            c0 + c1 + c2 + c3 <= lines@.len(),
        decreases report.entries.len() - k,
    {
        let e = &report.entries[k];
        assert(es[k as int] == e@);
        let (fl, (d0, d1, d2, d3)) = trace_findings(&e.findings, rich);
        let key = key_value(e);
        let id = ljust(e.id.as_str(), 20);
        let kind = ljust(e.kind.as_str(), 10);
        let cell = ljust(key.as_str(), 30);
        let ne = usize_text(e.edge_count());
        let nf = usize_text(fl.len());
        let lead = msg5(id.as_str(), " ", kind.as_str(), " ", cell.as_str());
        let row = if rich {
            let a = rjust(ne.as_str(), 5);
            let b = rjust(nf.as_str(), 5);
            msg5(lead.as_str(), " ", a.as_str(), " ", b.as_str())
        } else {
            msg5(lead.as_str(), " edges:", ne.as_str(), " findings:", nf.as_str())
        };
        assert(row@ == trace_row(es[k as int], rich));
        let ghost before = texts(lines@);
        let ghost flt = texts(fl@);
        lines.push(row);
        assert(texts(lines@) =~= before.push(row@));
        append_lines(&mut lines, fl);
        let total = lines.len();
        assert(flt == trace_finding_lines(es[k as int].findings, rich));
        assert(trace_entry_lines(es, (k + 1) as nat, rich) == trace_entry_lines(es, k as nat, rich) + seq![
            trace_row(es[k as int], rich),
        ] + trace_finding_lines(es[k as int].findings, rich));
        assert(texts(lines@) =~= trace_entry_lines(es, (k + 1) as nat, rich));
        c0 = c0 + d0;
        c1 = c1 + d1;
        c2 = c2 + d2;
        c3 = c3 + d3;
        k += 1;
    }
    let (ul, (d0, d1, d2, d3)) = trace_findings(&report.unattachable_findings, rich);
    let nu = ul.len();
    let ghost mid = texts(lines@);
    let ghost ult = texts(ul@);
    assert(ult == trace_finding_lines(un, rich));
    if nu > 0 {
        lines.push(crate::text::copy_str(""));
        lines.push(crate::text::copy_str("Unattachable findings:"));
        assert(texts(lines@) =~= mid + seq![""@, "Unattachable findings:"@]);
    }
    append_lines(&mut lines, ul);
    let total = lines.len();
    assert(unattachable_lines(un, rich) == if nu > 0 {
        seq![""@, "Unattachable findings:"@] + ult
    } else {
        Seq::<Seq<char>>::empty()
    });
    assert(texts(lines@) =~= trace_entry_lines(es, es.len(), rich) + unattachable_lines(un, rich));
    (lines, (c0 + d0, c1 + d1, c2 + d2, c3 + d3))
}

/// A trace in `plain` (`rich == false`) or `rich`: one row per entry with its
/// shown findings beneath, then the findings no entry holds. `rich` adds the
/// column heads and a closing tally, and answers `No trace entries.` for an
/// empty trace.
pub fn format_trace_text(report: &TraceReport, rich: bool) -> (r: String)
    ensures
        ({
            let es = trace_entries_view(report.entries@);
            let un = issues_view(report.unattachable_findings@);
            let body = trace_entry_lines(es, es.len(), rich) + unattachable_lines(un, rich);
            let parts = trace_tally_parts(es, un);
            let tail = "\n"@ + nat_text_of(es.len()) + " entries, "@ + if parts.len() == 0 {
                "no findings"@
            } else {
                join(parts, ", "@)
            };
            r@ == if !rich {
                join(body, "\n"@)
            } else if es.len() == 0 && un.len() == 0 {
                "No trace entries."@
            } else {
                join(seq![trace_head(), repeat('-', trace_head().len())] + body + seq![tail], "\n"@)
            }
        }),
{
    let ghost es = trace_entries_view(report.entries@);
    if rich && report.entries.len() == 0 && report.unattachable_findings.len() == 0 {
        return crate::text::copy_str("No trace entries.");
    }
    let (body, (c0, c1, c2, c3)) = trace_body(report, rich);
    if !rich {
        return join_texts(&body, "\n");
    }
    let mut lines = trace_head_lines();
    let ghost head = texts(lines@);
    let ghost bt = texts(body@);
    append_lines(&mut lines, body);
    let tail = trace_tail(report.entries.len(), c0, c1, c2, c3);
    let ghost before = texts(lines@);
    lines.push(tail);
    assert(texts(lines@) =~= head + bt + seq![tail@]);
    join_texts(&lines, "\n")
}

} // verus!
