//! COVERAGE_DEEP: a node of the target kind is covered when evidence reaches
//! it directly, or when it has children along `via` and every one of them is
//! covered. Coverage is the least fixed point, so a cycle with no evidence
//! stays uncovered, and each uncovered node names its immediate cause.

use vstd::prelude::*;

use crate::assoc::{assoc, assoc_get};
use crate::checks::{node_issue, profile_provenance};
use crate::closure::{deep_covered, links_ok, reachable};
use crate::coverage::{
    attributed, covered, key_read, missing_finding, population, sources, state_text, text_put, unattributed,
    unknown_finding, with_state,
};
use crate::graph::{edges_view, nodes_view, same_text, Edge, EdgeView, LatticeGraph, Node, NodeView};
use crate::profile::{allowed_pairs, conds_view, decl_block, Condition, ConditionView, Profile, ValidationConfig};
use crate::rules::{cond_ok, spec_eval_all, FindingCode};
use crate::seqs::{first_index, lemma_first_index, lemma_first_index_at};
use crate::text::{join, msg2, msg3, msg5, msg6, msg7, str_eq, texts};
use crate::types::{issues_view, Issue, IssueView, Severity};
use crate::yaml::YamlValue;

verus! {

/// The IDs of the first `k` nodes of kind `target`, in node order.
pub open spec fn target_ids(ns: Seq<NodeView>, k: nat, target: Seq<char>) -> Seq<Seq<char>>
    decreases k,
{
    if k == 0 || k > ns.len() {
        Seq::empty()
    } else if ns[k - 1].kind == target {
        target_ids(ns, (k - 1) as nat, target).push(ns[k - 1].id)
    } else {
        target_ids(ns, (k - 1) as nat, target)
    }
}

/// Where `id` sits among the targets.
pub open spec fn id_index(ts: Seq<Seq<char>>, id: Seq<char>) -> Option<int> {
    first_index(ts, same_text(id))
}

/// The child links of the first `k` edges: a `via` edge that is not evidence,
/// between two targets, from child to parent.
pub open spec fn deep_links(
    es: Seq<EdgeView>,
    k: nat,
    via: Seq<char>,
    evidence: Seq<char>,
    ts: Seq<Seq<char>>,
) -> Seq<(usize, usize)>
    decreases k,
{
    if k == 0 || k > es.len() {
        Seq::empty()
    } else {
        let e = es[k - 1];
        let rest = deep_links(es, (k - 1) as nat, via, evidence, ts);
        if e.kind != evidence && e.kind == via && id_index(ts, e.src) is Some && id_index(ts, e.tgt) is Some {
            rest.push(((id_index(ts, e.src)->0) as usize, (id_index(ts, e.tgt)->0) as usize))
        } else {
            rest
        }
    }
}

/// Which targets evidence reaches directly.
pub open spec fn evidence_flags(ts: Seq<Seq<char>>, es: Seq<EdgeView>, ns: Seq<NodeView>, evidence: Seq<char>) -> Seq<bool> {
    Seq::new(ts.len(), |i: int| covered(es, ns, evidence, ts[i]))
}

/// The uncovered targets.
pub open spec fn uncovered_flags(links: Seq<(usize, usize)>, ev: Seq<bool>) -> Seq<bool> {
    Seq::new(ev.len(), |i: int| !deep_covered(links, ev, i))
}

/// Whether `b` shares `a`'s component among the uncovered targets.
pub open spec fn same_component(links: Seq<(usize, usize)>, ok: Seq<bool>, a: int, b: int) -> bool {
    ok[b] && reachable(links, ok, a, b) && reachable(links, ok, b, a)
}

/// Whether an uncovered target lies on an uncovered cycle: its component has
/// another member, or a link runs from it to itself.
pub open spec fn on_cycle(links: Seq<(usize, usize)>, ok: Seq<bool>, a: int) -> bool {
    (exists|b: int| 0 <= b < ok.len() && b != a && #[trigger] same_component(links, ok, a, b)) || (exists|j: int|
        0 <= j < links.len() && #[trigger] links[j] == (a as usize, a as usize))
}

/// The IDs of `a`'s component among the first `k` targets, sorted.
pub open spec fn component_ids(links: Seq<(usize, usize)>, ok: Seq<bool>, a: int, ts: Seq<Seq<char>>, k: nat) -> Seq<
    Seq<char>,
>
    decreases k,
{
    if k == 0 || k > ts.len() {
        Seq::empty()
    } else if same_component(links, ok, a, k - 1) {
        text_put(component_ids(links, ok, a, ts, (k - 1) as nat), ts[k - 1])
    } else {
        component_ids(links, ok, a, ts, (k - 1) as nat)
    }
}

/// The IDs of `a`'s uncovered children among the first `k` links, sorted.
pub open spec fn uncovered_kids(links: Seq<(usize, usize)>, ok: Seq<bool>, a: int, ts: Seq<Seq<char>>, k: nat) -> Seq<
    Seq<char>,
>
    decreases k,
{
    if k == 0 || k > links.len() {
        Seq::empty()
    } else if links[k - 1].1 == a && ok[links[k - 1].0 as int] {
        text_put(uncovered_kids(links, ok, a, ts, (k - 1) as nat), ts[links[k - 1].0 as int])
    } else {
        uncovered_kids(links, ok, a, ts, (k - 1) as nat)
    }
}

/// Why an uncovered target is uncovered: its cycle, its uncovered children,
/// or that it has neither evidence nor children.
pub open spec fn deep_detail(links: Seq<(usize, usize)>, ok: Seq<bool>, a: int, ts: Seq<Seq<char>>, via: Seq<char>) -> Seq<
    char,
> {
    if on_cycle(links, ok, a) {
        "in an uncovered '"@ + via + "' cycle: "@ + join(component_ids(links, ok, a, ts, ts.len()), ", "@)
    } else if exists|j: int| 0 <= j < links.len() && (#[trigger] links[j]).1 == a {
        "uncovered children: "@ + crate::coverage::quoted_kinds(uncovered_kids(links, ok, a, ts, links.len()))
    } else {
        "no evidence and no children"@
    }
}

/// The graph seen as targets and child links.
pub struct DeepGraph {
    pub ts: Seq<Seq<char>>,
    pub links: Seq<(usize, usize)>,
    pub ev: Seq<bool>,
    pub ok: Seq<bool>,
}

pub open spec fn deep_graph(g: LatticeGraph, target: Seq<char>, via: Seq<char>, evidence: Seq<char>) -> DeepGraph {
    let ns = g.spec_nodes();
    let es = g.spec_edges();
    let ts = target_ids(ns, ns.len(), target);
    let links = deep_links(es, es.len(), via, evidence, ts);
    let ev = evidence_flags(ts, es, ns, evidence);
    DeepGraph { ts, links, ev, ok: uncovered_flags(links, ev) }
}

/// The COVERAGE_DEEP finding for one node.
pub open spec fn deep_node_findings(
    n: NodeView,
    d: DeepGraph,
    target: Seq<char>,
    via: Seq<char>,
    conds: Seq<ConditionView>,
    state: Seq<char>,
    ov: Seq<(String, Severity)>,
) -> Seq<IssueView> {
    match id_index(d.ts, n.id) {
        Some(a) => if n.kind == target && spec_eval_all(conds, n.attrs, true) && d.ok[a] {
            seq![
                with_state(
                    node_issue(
                        FindingCode::CoverageDeep,
                        "node '"@ + n.id + "' (kind '"@ + target + "') is not deep-covered: "@ + deep_detail(
                            d.links,
                            d.ok,
                            a,
                            d.ts,
                            via,
                        ),
                        n,
                        ov,
                    ),
                    state,
                ),
            ]
        } else {
            Seq::empty()
        },
        None => Seq::empty(),
    }
}

/// The COVERAGE_DEEP findings for the first `k` nodes.
pub open spec fn deep_nodes_findings(
    ns: Seq<NodeView>,
    k: nat,
    d: DeepGraph,
    target: Seq<char>,
    via: Seq<char>,
    conds: Seq<ConditionView>,
    state: Seq<char>,
    ov: Seq<(String, Severity)>,
) -> Seq<IssueView>
    decreases k,
{
    if k == 0 || k > ns.len() {
        Seq::empty()
    } else {
        deep_nodes_findings(ns, (k - 1) as nat, d, target, via, conds, state, ov) + deep_node_findings(
            ns[k - 1],
            d,
            target,
            via,
            conds,
            state,
            ov,
        )
    }
}

/// Every finding one COVERAGE_DEEP configuration gives, once its keys name a
/// declared target kind and edge kinds.
pub open spec fn deep_body(
    target: Seq<char>,
    via: Seq<char>,
    evidence: Seq<char>,
    conds: Seq<ConditionView>,
    g: LatticeGraph,
    p: Profile,
) -> Seq<IssueView> {
    let ns = g.spec_nodes();
    let es = g.spec_edges();
    let d = deep_graph(g, target, via, evidence);
    let ek = assoc(p.spec_edge_kinds(), evidence)->0;
    let srcs = sources(allowed_pairs(ek), allowed_pairs(ek).len(), target);
    let pop = population(ns, ns.len(), srcs);
    let un = unattributed(ns, ns.len(), srcs, es, evidence);
    deep_nodes_findings(ns, ns.len(), d, target, via, conds, state_text(un), p.spec_overrides()) + unknown_finding(
        un,
        pop,
        srcs,
        evidence,
        target,
        true,
        p.spec_overrides(),
    )
}

/// Every finding one COVERAGE_DEEP configuration gives.
pub open spec fn deep_config_findings(cfg: Seq<(String, YamlValue)>, g: LatticeGraph, p: Profile) -> Seq<IssueView> {
    let code = "COVERAGE_DEEP"@;
    let r1 = key_read(code, cfg, "target_kind"@, true, p);
    let r2 = key_read(code, cfg, "via"@, false, p);
    let r3 = key_read(code, cfg, "evidence"@, false, p);
    let missing = (if r1.missing {
        seq!["target_kind"@]
    } else {
        Seq::empty()
    }) + (if r2.missing {
        seq!["via"@]
    } else {
        Seq::empty()
    }) + (if r3.missing {
        seq!["evidence"@]
    } else {
        Seq::empty()
    });
    r1.errors + r2.errors + r3.errors + missing_finding(code, missing, p.spec_overrides()) + match (
        r1.value,
        r2.value,
        r3.value,
    ) {
        (Some(t), Some(v), Some(e)) => deep_body(t, v, e, decl_block(assoc(cfg, "where"@))->0, g, p),
        _ => Seq::empty(),
    }
}

/// Where `id` sits among the targets.
fn index_of(ts: &Vec<String>, id: &str) -> (r: Option<usize>)
    ensures
        match r {
            Some(i) => id_index(texts(ts@), id@) == Some(i as int) && i < ts.len(),
            None => id_index(texts(ts@), id@) is None,
        },
{
    let ghost tv = texts(ts@);
    let mut i: usize = 0;
    while i < ts.len()
        invariant
            i <= ts.len(),
            tv == texts(ts@),
            forall|k: int| 0 <= k < i ==> !same_text(id@)(#[trigger] tv[k]),
        decreases ts.len() - i,
    {
        assert(tv[i as int] == ts@[i as int]@);
        if str_eq(ts[i].as_str(), id) {
            proof {
                lemma_first_index_at(tv, same_text(id@), i as int);
            }
            return Some(i);
        }
        i += 1;
    }
    proof {
        lemma_first_index_at(tv, same_text(id@), i as int);
    }
    None
}

/// The IDs of the nodes of kind `target`, in node order.
fn collect_targets(graph: &LatticeGraph, target: &str) -> (r: Vec<String>)
    requires
        graph.wf(),
    ensures
        texts(r@) == target_ids(graph.spec_nodes(), graph.spec_nodes().len(), target@),
{
    let nodes = graph.iter_nodes();
    let ghost ns = graph.spec_nodes();
    let mut out: Vec<String> = Vec::new();
    let mut i: usize = 0;
    while i < nodes.len()
        invariant
            i <= nodes.len(),
            nodes_view(nodes@) == ns,
            texts(out@) == target_ids(ns, i as nat, target@),
        decreases nodes.len() - i,
    {
        assert(ns[i as int] == nodes@[i as int]@);
        if str_eq(nodes[i].kind.as_str(), target) {
            out.push(nodes[i].id.clone());
            assert(texts(out@) =~= target_ids(ns, (i + 1) as nat, target@));
        }
        i += 1;
    }
    out
}

/// The child links between targets.
fn collect_links(graph: &LatticeGraph, ts: &Vec<String>, via: &str, evidence: &str) -> (r: Vec<(usize, usize)>)
    ensures
        r@ == deep_links(graph.spec_edges(), graph.spec_edges().len(), via@, evidence@, texts(ts@)),
        links_ok(ts.len() as nat, r@),
{
    let edges = graph.iter_edges();
    let ghost es = graph.spec_edges();
    let mut out: Vec<(usize, usize)> = Vec::new();
    let mut i: usize = 0;
    while i < edges.len()
        invariant
            i <= edges.len(),
            edges_view(edges@) == es,
            out@ == deep_links(es, i as nat, via@, evidence@, texts(ts@)),
            links_ok(ts.len() as nat, out@),
        decreases edges.len() - i,
    {
        assert(es[i as int] == edges@[i as int]@);
        let e = &edges[i];
        if !str_eq(e.kind.as_str(), evidence) && str_eq(e.kind.as_str(), via) {
            match (index_of(ts, e.src.as_str()), index_of(ts, e.tgt.as_str())) {
                (Some(s), Some(t)) => {
                    out.push((s, t));
                },
                _ => {},
            }
        }
        i += 1;
    }
    out
}

/// Which targets evidence reaches directly.
fn collect_evidence(graph: &LatticeGraph, ts: &Vec<String>, evidence: &str) -> (r: Vec<bool>)
    ensures
        r@ == evidence_flags(texts(ts@), graph.spec_edges(), graph.spec_nodes(), evidence@),
{
    let mut out: Vec<bool> = Vec::new();
    let mut i: usize = 0;
    while i < ts.len()
        invariant
            i <= ts.len(),
            out.len() == i,
            forall|k: int| 0 <= k < i ==> #[trigger] out@[k] == covered(
                graph.spec_edges(),
                graph.spec_nodes(),
                evidence@,
                ts@[k]@,
            ),
        decreases ts.len() - i,
    {
        out.push(crate::coverage::is_covered(graph, evidence, ts[i].as_str()));
        i += 1;
    }
    assert(out@ =~= evidence_flags(texts(ts@), graph.spec_edges(), graph.spec_nodes(), evidence@));
    out
}

/// The IDs of `a`'s component, sorted.
fn component_list(
    ts: &Vec<String>,
    rows: &Vec<Vec<bool>>,
    ok: &Vec<bool>,
    a: usize,
    Ghost(links): Ghost<Seq<(usize, usize)>>,
) -> (r: Vec<String>)
    requires
        a < ts.len(),
        ok.len() == ts.len(),
        ok@[a as int],
        rows.len() == ts.len(),
        forall|x: int| 0 <= x < ts.len() ==> (#[trigger] rows@[x]).len() == ts.len(),
        forall|x: int, y: int|
            0 <= x < ts.len() && 0 <= y < ts.len() && ok@[x] ==> #[trigger] rows@[x]@[y] == reachable(links, ok@, x, y),
    ensures
        texts(r@) == component_ids(links, ok@, a as int, texts(ts@), ts.len() as nat),
{
    let mut out: Vec<String> = Vec::new();
    let mut b: usize = 0;
    while b < ts.len()
        invariant
            b <= ts.len(),
            a < ts.len(),
            ok.len() == ts.len(),
            ok@[a as int],
            rows.len() == ts.len(),
            forall|x: int| 0 <= x < ts.len() ==> (#[trigger] rows@[x]).len() == ts.len(),
            forall|x: int, y: int|
                0 <= x < ts.len() && 0 <= y < ts.len() && ok@[x] ==> #[trigger] rows@[x]@[y] == reachable(links, ok@, x, y),
            texts(out@) == component_ids(links, ok@, a as int, texts(ts@), b as nat),
        decreases ts.len() - b,
    {
        proof {
            assert(texts(ts@)[b as int] == ts@[b as int]@);
        }
        if ok[b] && rows[a][b] && rows[b][a] {
            crate::coverage::insert_text_sorted(&mut out, ts[b].clone());
        }
        b += 1;
    }
    out
}

/// The IDs of `a`'s uncovered children, sorted.
fn kids_list(ts: &Vec<String>, links: &Vec<(usize, usize)>, ok: &Vec<bool>, a: usize) -> (r: Vec<String>)
    requires
        ok.len() == ts.len(),
        links_ok(ts.len() as nat, links@),
    ensures
        texts(r@) == uncovered_kids(links@, ok@, a as int, texts(ts@), links.len() as nat),
{
    let mut out: Vec<String> = Vec::new();
    let mut j: usize = 0;
    while j < links.len()
        invariant
            j <= links.len(),
            ok.len() == ts.len(),
            links_ok(ts.len() as nat, links@),
            texts(out@) == uncovered_kids(links@, ok@, a as int, texts(ts@), j as nat),
        decreases links.len() - j,
    {
        let (x, y) = links[j];
        assert(links@[j as int] == (x, y));
        if y == a && ok[x] {
            assert(texts(ts@)[x as int] == ts@[x as int]@);
            crate::coverage::insert_text_sorted(&mut out, ts[x].clone());
        }
        j += 1;
    }
    out
}

/// Whether any link enters `a`.
fn has_children(links: &Vec<(usize, usize)>, a: usize) -> (r: bool)
    ensures
        r == exists|j: int| 0 <= j < links.len() && (#[trigger] links@[j]).1 == a,
{
    let mut j: usize = 0;
    while j < links.len()
        invariant
            j <= links.len(),
            forall|x: int| 0 <= x < j ==> (#[trigger] links@[x]).1 != a,
        decreases links.len() - j,
    {
        if links[j].1 == a {
            assert(links@[j as int].1 == a);
            return true;
        }
        j += 1;
    }
    false
}

/// Whether an uncovered target lies on an uncovered cycle.
fn cycle_at(
    ts_len: usize,
    rows: &Vec<Vec<bool>>,
    ok: &Vec<bool>,
    links: &Vec<(usize, usize)>,
    a: usize,
) -> (r: bool)
    requires
        a < ts_len,
        ok.len() == ts_len,
        ok@[a as int],
        rows.len() == ts_len,
        forall|x: int| 0 <= x < ts_len ==> (#[trigger] rows@[x]).len() == ts_len,
        forall|x: int, y: int|
            0 <= x < ts_len && 0 <= y < ts_len && ok@[x] ==> #[trigger] rows@[x]@[y] == reachable(links@, ok@, x, y),
    ensures
        r == on_cycle(links@, ok@, a as int),
{
    let mut b: usize = 0;
    while b < ts_len
        invariant
            b <= ts_len,
            a < ts_len,
            ok.len() == ts_len,
            ok@[a as int],
            rows.len() == ts_len,
            forall|x: int| 0 <= x < ts_len ==> (#[trigger] rows@[x]).len() == ts_len,
            forall|x: int, y: int|
                0 <= x < ts_len && 0 <= y < ts_len && ok@[x] ==> #[trigger] rows@[x]@[y] == reachable(links@, ok@, x, y),
            forall|c: int| 0 <= c < b && c != a ==> !#[trigger] same_component(links@, ok@, a as int, c),
        decreases ts_len - b,
    {
        if b != a && ok[b] && rows[a][b] && rows[b][a] {
            assert(same_component(links@, ok@, a as int, b as int));
            return true;
        }
        b += 1;
    }
    let mut j: usize = 0;
    while j < links.len()
        invariant
            j <= links.len(),
            forall|x: int| 0 <= x < j ==> #[trigger] links@[x] != (a, a),
        decreases links.len() - j,
    {
        if links[j].0 == a && links[j].1 == a {
            assert(links@[j as int] == (a, a));
            return true;
        }
        j += 1;
    }
    proof {
        if exists|c: int| 0 <= c < ok@.len() && c != a && #[trigger] same_component(links@, ok@, a as int, c) {
            let c = choose|c: int| 0 <= c < ok@.len() && c != a && #[trigger] same_component(links@, ok@, a as int, c);
            assert(!same_component(links@, ok@, a as int, c));
        }
    }
    false
}

/// Reachability among the uncovered targets, one row per uncovered start.
fn reach_rows(n: usize, links: &Vec<(usize, usize)>, ok: &Vec<bool>) -> (r: Vec<Vec<bool>>)
    requires
        ok.len() == n,
        links_ok(n as nat, links@),
    ensures
        r.len() == n,
        forall|x: int| 0 <= x < n ==> (#[trigger] r@[x]).len() == n,
        forall|x: int, y: int| 0 <= x < n && 0 <= y < n && ok@[x] ==> #[trigger] r@[x]@[y] == reachable(links@, ok@, x, y),
{
    let mut rows: Vec<Vec<bool>> = Vec::new();
    let mut x: usize = 0;
    while x < n
        invariant
            x <= n,
            ok.len() == n,
            links_ok(n as nat, links@),
            rows.len() == x,
            forall|i: int| 0 <= i < x ==> (#[trigger] rows@[i]).len() == n,
            forall|i: int, y: int| 0 <= i < x && 0 <= y < n && ok@[i] ==> #[trigger] rows@[i]@[y] == reachable(links@, ok@, i, y),
        decreases n - x,
    {
        if ok[x] {
            let row = crate::closure::reach_from(n, links, ok, x);
            rows.push(row);
        } else {
            let mut row: Vec<bool> = Vec::new();
            let mut k: usize = 0;
            while k < n
                invariant
                    k <= n,
                    row.len() == k,
                decreases n - k,
            {
                row.push(false);
                k += 1;
            }
            rows.push(row);
        }
        x += 1;
    }
    rows
}

/// Why an uncovered target is uncovered.
fn detail(
    ts: &Vec<String>,
    links: &Vec<(usize, usize)>,
    ok: &Vec<bool>,
    rows: &Vec<Vec<bool>>,
    a: usize,
    via: &str,
) -> (r: String)
    requires
        a < ts.len(),
        ok.len() == ts.len(),
        ok@[a as int],
        links_ok(ts.len() as nat, links@),
        rows.len() == ts.len(),
        forall|x: int| 0 <= x < ts.len() ==> (#[trigger] rows@[x]).len() == ts.len(),
        forall|x: int, y: int|
            0 <= x < ts.len() && 0 <= y < ts.len() && ok@[x] ==> #[trigger] rows@[x]@[y] == reachable(links@, ok@, x, y),
    ensures
        r@ == deep_detail(links@, ok@, a as int, texts(ts@), via@),
{
    if cycle_at(ts.len(), rows, ok, links, a) {
        let members = component_list(ts, rows, ok, a, Ghost(links@));
        let list = crate::text::join_texts(&members, ", ");
        proof {
            assert(texts(ts@).len() == ts.len());
        }
        crate::text::msg4("in an uncovered '", via, "' cycle: ", list.as_str())
    } else if has_children(links, a) {
        let kids = kids_list(ts, links, ok, a);
        msg2("uncovered children: ", crate::coverage::quote_kinds(&kids).as_str())
    } else {
        crate::text::copy_str("no evidence and no children")
    }
}

/// Report the COVERAGE_DEEP findings for every uncovered node of the target kind.
fn check_deep_nodes(
    graph: &LatticeGraph,
    ts: &Vec<String>,
    links: &Vec<(usize, usize)>,
    ok: &Vec<bool>,
    rows: &Vec<Vec<bool>>,
    target: &str,
    via: &str,
    conds: &Vec<Condition>,
    un: usize,
    profile: &Profile,
    out: &mut Vec<Issue>,
    Ghost(d): Ghost<DeepGraph>,
)
    requires
        graph.wf(),
        d.ts == texts(ts@),
        d.links == links@,
        d.ok == ok@,
        ok.len() == ts.len(),
        links_ok(ts.len() as nat, links@),
        rows.len() == ts.len(),
        forall|x: int| 0 <= x < ts.len() ==> (#[trigger] rows@[x]).len() == ts.len(),
        forall|x: int, y: int|
            0 <= x < ts.len() && 0 <= y < ts.len() && ok@[x] ==> #[trigger] rows@[x]@[y] == reachable(links@, ok@, x, y),
        forall|i: int| 0 <= i < conds.len() ==> cond_ok(#[trigger] conds@[i]@),
    ensures
        issues_view(final(out)@) == issues_view(old(out)@) + deep_nodes_findings(
            graph.spec_nodes(),
            graph.spec_nodes().len(),
            d,
            target@,
            via@,
            conds_view(conds@),
            state_text(un as nat),
            profile.spec_overrides(),
        ),
{
    let nodes = graph.iter_nodes();
    let ghost ns = graph.spec_nodes();
    let ghost start = issues_view(out@);
    let ghost ov = profile.spec_overrides();
    let mut i: usize = 0;
    while i < nodes.len()
        invariant
            i <= nodes.len(),
            nodes_view(nodes@) == ns,
            ns == graph.spec_nodes(),
            ov == profile.spec_overrides(),
            d.ts == texts(ts@),
            d.links == links@,
            d.ok == ok@,
            ok.len() == ts.len(),
            links_ok(ts.len() as nat, links@),
            rows.len() == ts.len(),
            forall|x: int| 0 <= x < ts.len() ==> (#[trigger] rows@[x]).len() == ts.len(),
            forall|x: int, y: int|
                0 <= x < ts.len() && 0 <= y < ts.len() && ok@[x] ==> #[trigger] rows@[x]@[y] == reachable(links@, ok@, x, y),
            forall|x: int| 0 <= x < conds.len() ==> cond_ok(#[trigger] conds@[x]@),
            issues_view(out@) == start + deep_nodes_findings(
                ns,
                i as nat,
                d,
                target@,
                via@,
                conds_view(conds@),
                state_text(un as nat),
                ov,
            ),
        decreases nodes.len() - i,
    {
        let node = &nodes[i];
        let ghost before = issues_view(out@);
        proof {
            assert(ns[i as int] == node@);
        }
        match index_of(ts, node.id.as_str()) {
            Some(a) => {
                if str_eq(node.kind.as_str(), target) && crate::rules::eval_conditions(conds, &node.attrs, true) && ok[a] {
                    let why = detail(ts, links, ok, rows, a, via);
                    let m = msg6("node '", node.id.as_str(), "' (kind '", target, "') is not deep-covered: ", why.as_str());
                    let mut f = crate::rules::issue(FindingCode::CoverageDeep, m, node.provenance.copy(), profile,
                        Some(node.id.clone()));
                    f.state = Some(crate::text::copy_str(if un == 0 {
                        "unverified"
                    } else {
                        "unknown"
                    }));
                    assert(f@ == with_state(node_issue(FindingCode::CoverageDeep, m@, node@, ov), state_text(un as nat)));
                    out.push(f);
                    assert(issues_view(out@) =~= before.push(f@));
                } else {
                    assert(issues_view(out@) =~= before);
                }
            },
            None => {
                assert(issues_view(out@) =~= before);
            },
        }
        proof {
            assert(issues_view(out@) =~= start + deep_nodes_findings(
                ns,
                (i + 1) as nat,
                d,
                target@,
                via@,
                conds_view(conds@),
                state_text(un as nat),
                ov,
            ));
        }
        i += 1;
    }
}

/// Report every finding one COVERAGE_DEEP configuration gives.
pub fn check_deep_config(config: &ValidationConfig, graph: &LatticeGraph, profile: &Profile, out: &mut Vec<Issue>)
    requires
        graph.wf(),
        decl_block(assoc(config@, "where"@)) is Some,
    ensures
        issues_view(final(out)@) == issues_view(old(out)@) + deep_config_findings(config@, *graph, *profile),
{
    let ghost start = issues_view(out@);
    proof {
        crate::rules::lemma_block_conds_ok(assoc(config@, "where"@));
    }
    let w = assoc_get(config, "where");
    assert(crate::yaml::opt_val(w) == assoc(config@, "where"@));
    let conds = match crate::profile::parse_condition_block(w, "COVERAGE_DEEP", "where") {
        Ok(c) => c,
        Err(_) => {
            proof {
                assert(false);
            }
            Vec::new()
        },
    };
    assert(decl_block(assoc(config@, "where"@)) == Some(conds_view(conds@)));
    assert forall|i: int| 0 <= i < conds.len() implies cond_ok(#[trigger] conds@[i]@) by {
        let cs = decl_block(assoc(config@, "where"@))->0;
        assert(cs[i] == conds@[i]@);
        assert(cond_ok(cs[i]));
    }
    let (target, t_missing) = crate::coverage::read_kind_key("COVERAGE_DEEP", config, "target_kind", true, profile, out);
    let (via, v_missing) = crate::coverage::read_kind_key("COVERAGE_DEEP", config, "via", false, profile, out);
    let (evidence, e_missing) = crate::coverage::read_kind_key("COVERAGE_DEEP", config, "evidence", false, profile, out);
    let mut missing: Vec<String> = Vec::new();
    if t_missing {
        missing.push(crate::text::copy_str("target_kind"));
    }
    if v_missing {
        missing.push(crate::text::copy_str("via"));
    }
    if e_missing {
        missing.push(crate::text::copy_str("evidence"));
    }
    proof {
        let m1: Seq<Seq<char>> = if t_missing { seq!["target_kind"@] } else { Seq::empty() };
        let m2: Seq<Seq<char>> = if v_missing { seq!["via"@] } else { Seq::empty() };
        let m3: Seq<Seq<char>> = if e_missing { seq!["evidence"@] } else { Seq::empty() };
        assert(texts(missing@) =~= m1 + m2 + m3);
    }
    crate::coverage::report_missing("COVERAGE_DEEP", &missing, profile, out);
    let (target, via, evidence) = match (target, via, evidence) {
        (Some(t), Some(v), Some(e)) => (t, v, e),
        _ => {
            assert(issues_view(out@) =~= start + deep_config_findings(config@, *graph, *profile));
            return;
        },
    };
    let ghost d = deep_graph(*graph, target@, via@, evidence@);
    let ts = collect_targets(graph, target.as_str());
    let links = collect_links(graph, &ts, via.as_str(), evidence.as_str());
    let ev = collect_evidence(graph, &ts, evidence.as_str());
    let cov = crate::closure::deep_cover(ts.len(), &links, &ev);
    let mut ok: Vec<bool> = Vec::new();
    let mut i: usize = 0;
    while i < ts.len()
        invariant
            i <= ts.len(),
            cov.len() == ts.len(),
            ok.len() == i,
            forall|k: int| 0 <= k < i ==> #[trigger] ok@[k] == !cov@[k],
        decreases ts.len() - i,
    {
        ok.push(!cov[i]);
        i += 1;
    }
    proof {
        assert(ok@ =~= uncovered_flags(links@, ev@));
        assert(d.ok == ok@);
    }
    let rows = reach_rows(ts.len(), &links, &ok);
    let ek = match assoc_get(profile.edge_kinds(), evidence.as_str()) {
        Some(k) => k,
        None => {
            proof {
                assert(false);
            }
            return;
        },
    };
    let srcs = crate::coverage::source_kinds(ek, target.as_str());
    let (pop, un) = crate::coverage::count_sources(graph, &srcs, evidence.as_str());
    proof {
        crate::coverage::lemma_counts_bounded_pub(graph.spec_nodes(), graph.spec_nodes().len(), texts(srcs@),
            graph.spec_edges(), evidence@);
    }
    check_deep_nodes(graph, &ts, &links, &ok, &rows, target.as_str(), via.as_str(), &conds, un, profile, out, Ghost(d));
    crate::coverage::report_unknown(un, pop, &srcs, evidence.as_str(), target.as_str(), true, profile, out);
    proof {
        assert(issues_view(out@) =~= start + deep_config_findings(config@, *graph, *profile));
    }
}

} // verus!
