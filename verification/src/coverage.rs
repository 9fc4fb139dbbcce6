//! COVERAGE: every node of a target kind meeting the `where` conditions must
//! have an incoming edge of a given kind, from a declared node.

use vstd::prelude::*;

use crate::assoc::{assoc, assoc_get};
use crate::checks::{node_issue, profile_provenance};
use crate::graph::{declares, edges_view, nodes_view, Edge, EdgeView, LatticeGraph, Node, NodeView};
use crate::json::Json;
use crate::profile::{allowed_pairs, conds_view, decl_block, Condition, ConditionView, EdgeKind, Profile, ValidationConfig};
use crate::rules::{code_text, cond_ok, spec_eval_all, spec_severity_for, FindingCode};
use crate::text::{digit_char, join, msg2, msg3, msg4, msg5, msg6, msg7, msg8, msg9, nat_text, str_eq, text_lt, texts};
use crate::types::{issues_view, new_issue, Issue, IssueView, Provenance, Severity};
use crate::yaml::{type_of, yaml_type_name, YamlValue};

verus! {

/// A CONFIG_ERROR about the profile.
pub open spec fn config_error(message: Seq<char>, ov: Seq<(String, Severity)>) -> IssueView {
    new_issue(
        spec_severity_for(FindingCode::ConfigError, ov),
        code_text(FindingCode::ConfigError),
        message,
        profile_provenance(),
        None,
    )
}

fn config_error_issue(message: String, profile: &Profile) -> (r: Issue)
    ensures
        r@ == config_error(message@, profile.spec_overrides()),
{
    let r = crate::rules::issue(FindingCode::ConfigError, message, Provenance::new("<profile>", 0), profile, None);
    proof {
        reveal_strlit("<profile>");
    }
    r
}

/// A config key's value: a string, absent, or the type name of what it is.
pub open spec fn spec_config_str(cfg: Seq<(String, YamlValue)>, key: Seq<char>) -> Result<Option<Seq<char>>, Seq<char>> {
    match assoc(cfg, key) {
        None => Ok(None),
        Some(YamlValue::Str(s)) => Ok(Some(s@)),
        Some(other) => Err(yaml_type_name(other)),
    }
}

/// A config key's value. Wrong type and absence are distinct on purpose: a
/// mistyped value read as missing would report the wrong fault.
pub fn config_str(config: &ValidationConfig, key: &str) -> (r: Result<Option<String>, &'static str>)
    ensures
        match r {
            Ok(Some(s)) => spec_config_str(config@, key@) == Ok::<Option<Seq<char>>, Seq<char>>(Some(s@)),
            Ok(None) => spec_config_str(config@, key@) == Ok::<Option<Seq<char>>, Seq<char>>(None),
            Err(t) => spec_config_str(config@, key@) == Err::<Option<Seq<char>>, Seq<char>>(t@),
        },
{
    match assoc_get(config, key) {
        None => Ok(None),
        Some(YamlValue::Str(s)) => Ok(Some(s.clone())),
        Some(other) => Err(type_of(other)),
    }
}

/// What reading one kind-naming key of a config gives: the findings about
/// it, its value when it names a declared kind, and whether it was absent.
pub struct KeyRead {
    pub errors: Seq<IssueView>,
    pub value: Option<Seq<char>>,
    pub missing: bool,
}

/// Read one key that must name a declared node kind (`node`) or edge kind.
pub open spec fn key_read(code: Seq<char>, cfg: Seq<(String, YamlValue)>, key: Seq<char>, node: bool, p: Profile) -> KeyRead {
    let ov = p.spec_overrides();
    match spec_config_str(cfg, key) {
        Ok(None) => KeyRead { errors: Seq::empty(), value: None, missing: true },
        Err(got) => KeyRead {
            errors: seq![config_error(code + " config: '"@ + key + "' must be a string, got "@ + got, ov)],
            value: None,
            missing: false,
        },
        Ok(Some(v)) => if (if node {
            assoc(p.spec_node_kinds(), v) is Some
        } else {
            assoc(p.spec_edge_kinds(), v) is Some
        }) {
            KeyRead { errors: Seq::empty(), value: Some(v), missing: false }
        } else {
            KeyRead {
                errors: seq![
                    config_error(
                        code + " config: "@ + key + " '"@ + v + "' not in profile "@ + (if node {
                            "node"@
                        } else {
                            "edge"@
                        }) + " kinds"@,
                        ov,
                    ),
                ],
                value: None,
                missing: false,
            }
        },
    }
}

/// Read one kind-naming key, reporting a mistyped value or an undeclared kind.
pub fn read_kind_key(code: &str, config: &ValidationConfig, key: &str, node: bool, profile: &Profile, out: &mut Vec<Issue>) -> (r: (
    Option<String>,
    bool,
))
    ensures
        issues_view(final(out)@) == issues_view(old(out)@) + key_read(code@, config@, key@, node, *profile).errors,
        crate::types::opt_view(r.0) == key_read(code@, config@, key@, node, *profile).value,
        r.1 == key_read(code@, config@, key@, node, *profile).missing,
{
    let ghost start = issues_view(out@);
    match config_str(config, key) {
        Ok(None) => {
            assert(issues_view(out@) =~= start + key_read(code@, config@, key@, node, *profile).errors);
            (None, true)
        },
        Err(got) => {
            let m = msg4(code, " config: '", key, "' must be a string, got ");
            let m = msg2(m.as_str(), got);
            out.push(config_error_issue(m, profile));
            assert(issues_view(out@) =~= start + key_read(code@, config@, key@, node, *profile).errors);
            (None, false)
        },
        Ok(Some(v)) => {
            let declared = if node {
                crate::assoc::assoc_has(profile.node_kinds(), v.as_str())
            } else {
                crate::assoc::assoc_has(profile.edge_kinds(), v.as_str())
            };
            if declared {
                assert(issues_view(out@) =~= start + key_read(code@, config@, key@, node, *profile).errors);
                (Some(v), false)
            } else {
                let noun = if node {
                    "node"
                } else {
                    "edge"
                };
                let m = msg8(code, " config: ", key, " '", v.as_str(), "' not in profile ", noun, " kinds");
                out.push(config_error_issue(m, profile));
                assert(issues_view(out@) =~= start + key_read(code@, config@, key@, node, *profile).errors);
                (None, false)
            }
        },
    }
}

/// The finding naming every required key a config left out.
pub open spec fn missing_finding(code: Seq<char>, names: Seq<Seq<char>>, ov: Seq<(String, Severity)>) -> Seq<IssueView> {
    if names.len() > 0 {
        seq![config_error(code + " config missing required keys: "@ + join(names, ", "@), ov)]
    } else {
        Seq::empty()
    }
}

/// Report the required keys a config left out.
pub fn report_missing(code: &str, names: &Vec<String>, profile: &Profile, out: &mut Vec<Issue>)
    ensures
        issues_view(final(out)@) == issues_view(old(out)@) + missing_finding(code@, texts(names@), profile.spec_overrides()),
{
    let ghost start = issues_view(out@);
    if names.len() > 0 {
        let list = crate::text::join_texts(names, ", ");
        let m = msg3(code, " config missing required keys: ", list.as_str());
        out.push(config_error_issue(m, profile));
    }
    assert(issues_view(out@) =~= start + missing_finding(code@, texts(names@), profile.spec_overrides()));
}

/// Whether a member does not sort before `x`.
pub open spec fn text_not_before(x: Seq<char>) -> spec_fn(Seq<char>) -> bool {
    |t: Seq<char>| !text_lt(t, x)
}

/// A sorted list of distinct texts after adding `x`: `BTreeSet::insert`.
pub open spec fn text_put(s: Seq<Seq<char>>, x: Seq<char>) -> Seq<Seq<char>> {
    let i = match crate::seqs::first_index(s, text_not_before(x)) {
        Some(i) => i,
        None => s.len() as int,
    };
    if 0 <= i < s.len() && s[i] == x {
        s
    } else {
        s.insert(i, x)
    }
}

/// What `text_put` holds: what the list held, and `x`.
pub proof fn lemma_text_put_contains(s: Seq<Seq<char>>, x: Seq<char>, y: Seq<char>)
    ensures
        text_put(s, x).contains(y) <==> s.contains(y) || y == x,
{
    let i = match crate::seqs::first_index(s, text_not_before(x)) {
        Some(i) => i,
        None => s.len() as int,
    };
    crate::seqs::lemma_first_index(s, text_not_before(x));
    if 0 <= i < s.len() && s[i] == x {
    } else {
        let t = s.insert(i, x);
        if s.contains(y) {
            let k = choose|k: int| 0 <= k < s.len() && s[k] == y;
            if k < i {
                assert(t[k] == y);
            } else {
                assert(t[k + 1] == y);
            }
        }
        if y == x {
            assert(t[i] == y);
        }
        if t.contains(y) {
            let k = choose|k: int| 0 <= k < t.len() && t[k] == y;
            if k < i {
                assert(s[k] == y);
            } else if k > i {
                assert(s[k - 1] == y);
            }
        }
    }
}

/// `text_put` keeps a strictly increasing list strictly increasing.
pub proof fn lemma_text_put_sorted(s: Seq<Seq<char>>, x: Seq<char>)
    requires
        crate::query::strictly_sorted(s),
    ensures
        crate::query::strictly_sorted(text_put(s, x)),
{
    let i = match crate::seqs::first_index(s, text_not_before(x)) {
        Some(i) => i,
        None => s.len() as int,
    };
    crate::seqs::lemma_first_index(s, text_not_before(x));
    if 0 <= i < s.len() && s[i] == x {
    } else {
        assert forall|j: int| 0 <= j < i implies text_lt(#[trigger] s[j], x) by {
            assert(!text_not_before(x)(s[j]));
        }
        if i < s.len() {
            assert(text_not_before(x)(s[i]));
            crate::text::lemma_text_lt_total(s[i], x);
        }
        let n = s.insert(i, x);
        assert forall|a: int, b: int| 0 <= a < b < n.len() implies text_lt(#[trigger] n[a], #[trigger] n[b]) by {
            if b < i {
            } else if a > i {
                assert(n[a] == s[a - 1] && n[b] == s[b - 1]);
            } else if a == i {
                assert(n[b] == s[b - 1]);
                if b - 1 > i {
                    crate::text::lemma_text_lt_transitive(x, s[i], s[b - 1]);
                }
            } else if b == i {
                assert(n[a] == s[a]);
            } else {
                assert(n[a] == s[a] && n[b] == s[b - 1]);
                if b - 1 > i {
                    crate::text::lemma_text_lt_transitive(x, s[i], s[b - 1]);
                }
                crate::text::lemma_text_lt_transitive(s[a], x, s[b - 1]);
            }
        }
    }
}

/// Add `x` to a sorted list of distinct strings.
pub fn insert_text_sorted(v: &mut Vec<String>, x: String)
    ensures
        texts(final(v)@) == text_put(texts(old(v)@), x@),
{
    let ghost before = texts(v@);
    let mut i: usize = 0;
    while i < v.len()
        invariant
            i <= v.len(),
            before == texts(v@),
            forall|k: int| 0 <= k < i ==> !text_not_before(x@)(#[trigger] before[k]),
        ensures
            i <= v.len(),
            forall|k: int| 0 <= k < i ==> !text_not_before(x@)(#[trigger] before[k]),
            i < v.len() ==> text_not_before(x@)(before[i as int]),
        decreases v.len() - i,
    {
        assert(before[i as int] == v@[i as int]@);
        if crate::text::compare_text(v[i].as_str(), x.as_str()) != -1 {
            break;
        }
        i += 1;
    }
    proof {
        crate::seqs::lemma_first_index_at(before, text_not_before(x@), i as int);
    }
    if i < v.len() && str_eq(v[i].as_str(), x.as_str()) {
        assert(before[i as int] == v@[i as int]@);
        return;
    }
    let ghost xv = x@;
    v.insert(i, x);
    assert(texts(v@) =~= before.insert(i as int, xv));
}

/// The source kinds an edge kind admits toward `target`, for the first `k`
/// allowed pairs, sorted and without repeats.
pub open spec fn sources(pairs: Seq<(Seq<char>, Seq<char>)>, k: nat, target: Seq<char>) -> Seq<Seq<char>>
    decreases k,
{
    if k == 0 || k > pairs.len() {
        Seq::empty()
    } else if pairs[k - 1].1 == target {
        text_put(sources(pairs, (k - 1) as nat, target), pairs[k - 1].0)
    } else {
        sources(pairs, (k - 1) as nat, target)
    }
}

/// The source kinds `ek` admits toward `target`.
pub fn source_kinds(ek: &EdgeKind, target: &str) -> (r: Vec<String>)
    ensures
        texts(r@) == sources(allowed_pairs(*ek), allowed_pairs(*ek).len(), target@),
{
    let ghost pairs = allowed_pairs(*ek);
    let mut out: Vec<String> = Vec::new();
    let mut i: usize = 0;
    while i < ek.allowed.len()
        invariant
            i <= ek.allowed.len(),
            pairs == allowed_pairs(*ek),
            texts(out@) == sources(pairs, i as nat, target@),
        decreases ek.allowed.len() - i,
    {
        assert(pairs[i as int] == (ek.allowed@[i as int].0@, ek.allowed@[i as int].1@));
        if str_eq(ek.allowed[i].1.as_str(), target) {
            insert_text_sorted(&mut out, ek.allowed[i].0.clone());
        }
        i += 1;
    }
    out
}

/// Whether an edge of kind `edge` ends at `t`, both of its endpoints declared.
pub open spec fn covered(es: Seq<EdgeView>, ns: Seq<NodeView>, edge: Seq<char>, t: Seq<char>) -> bool {
    exists|i: int|
        0 <= i < es.len() && #[trigger] es[i].kind == edge && es[i].tgt == t && declares(ns, es[i].tgt) && declares(
            ns,
            es[i].src,
        )
}

/// Whether an edge of kind `edge` leaves `s`, wherever it ends.
pub open spec fn attributed(es: Seq<EdgeView>, edge: Seq<char>, s: Seq<char>) -> bool {
    exists|i: int| 0 <= i < es.len() && #[trigger] es[i].kind == edge && es[i].src == s
}

pub fn is_covered(graph: &LatticeGraph, edge: &str, t: &str) -> (r: bool)
    ensures
        r == covered(graph.spec_edges(), graph.spec_nodes(), edge@, t@),
{
    let edges = graph.iter_edges();
    let ghost es = graph.spec_edges();
    let mut i: usize = 0;
    while i < edges.len()
        invariant
            i <= edges.len(),
            edges_view(edges@) == es,
            es == graph.spec_edges(),
            forall|k: int|
                0 <= k < i ==> !(#[trigger] es[k].kind == edge@ && es[k].tgt == t@ && declares(graph.spec_nodes(), es[k].tgt)
                    && declares(graph.spec_nodes(), es[k].src)),
        decreases edges.len() - i,
    {
        assert(es[i as int] == edges@[i as int]@);
        if str_eq(edges[i].kind.as_str(), edge) && str_eq(edges[i].tgt.as_str(), t) && graph.has_node(edges[i].tgt.as_str())
            && graph.has_node(edges[i].src.as_str()) {
            assert(es[i as int].kind == edge@ && es[i as int].tgt == t@ && declares(graph.spec_nodes(), es[i as int].tgt)
                && declares(graph.spec_nodes(), es[i as int].src));
            return true;
        }
        i += 1;
    }
    proof {
        if covered(es, graph.spec_nodes(), edge@, t@) {
            let k = choose|k: int|
                0 <= k < es.len() && #[trigger] es[k].kind == edge@ && es[k].tgt == t@ && declares(graph.spec_nodes(), es[k].tgt)
                    && declares(graph.spec_nodes(), es[k].src);
            assert(!(es[k].kind == edge@ && es[k].tgt == t@ && declares(graph.spec_nodes(), es[k].tgt) && declares(
                graph.spec_nodes(),
                es[k].src,
            )));
        }
    }
    false
}

pub fn is_attributed(edges: &Vec<Edge>, edge: &str, s: &str) -> (r: bool)
    ensures
        r == attributed(edges_view(edges@), edge@, s@),
{
    let ghost es = edges_view(edges@);
    let mut i: usize = 0;
    while i < edges.len()
        invariant
            i <= edges.len(),
            edges_view(edges@) == es,
            forall|k: int| 0 <= k < i ==> !(#[trigger] es[k].kind == edge@ && es[k].src == s@),
        decreases edges.len() - i,
    {
        assert(es[i as int] == edges@[i as int]@);
        if str_eq(edges[i].kind.as_str(), edge) && str_eq(edges[i].src.as_str(), s) {
            assert(es[i as int].kind == edge@ && es[i as int].src == s@);
            return true;
        }
        i += 1;
    }
    proof {
        if attributed(es, edge@, s@) {
            let k = choose|k: int| 0 <= k < es.len() && #[trigger] es[k].kind == edge@ && es[k].src == s@;
            assert(!(es[k].kind == edge@ && es[k].src == s@));
        }
    }
    false
}

/// How many of the first `k` nodes are of a source kind, and how many of
/// those no edge of kind `edge` leaves.
pub open spec fn population(ns: Seq<NodeView>, k: nat, srcs: Seq<Seq<char>>) -> nat
    decreases k,
{
    if k == 0 || k > ns.len() {
        0
    } else {
        population(ns, (k - 1) as nat, srcs) + if srcs.contains(ns[k - 1].kind) {
            1nat
        } else {
            0nat
        }
    }
}

pub open spec fn unattributed(ns: Seq<NodeView>, k: nat, srcs: Seq<Seq<char>>, es: Seq<EdgeView>, edge: Seq<char>) -> nat
    decreases k,
{
    if k == 0 || k > ns.len() {
        0
    } else {
        unattributed(ns, (k - 1) as nat, srcs, es, edge) + if srcs.contains(ns[k - 1].kind) && !attributed(
            es,
            edge,
            ns[k - 1].id,
        ) {
            1nat
        } else {
            0nat
        }
    }
}

pub proof fn lemma_counts_bounded_pub(ns: Seq<NodeView>, k: nat, srcs: Seq<Seq<char>>, es: Seq<EdgeView>, edge: Seq<char>)
    requires
        k <= ns.len(),
    ensures
        unattributed(ns, k, srcs, es, edge) <= population(ns, k, srcs),
{
    lemma_counts_bounded(ns, k, srcs, es, edge);
}

proof fn lemma_counts_bounded(ns: Seq<NodeView>, k: nat, srcs: Seq<Seq<char>>, es: Seq<EdgeView>, edge: Seq<char>)
    requires
        k <= ns.len(),
    ensures
        unattributed(ns, k, srcs, es, edge) <= population(ns, k, srcs),
        population(ns, k, srcs) <= k,
    decreases k,
{
    if k > 0 {
        lemma_counts_bounded(ns, (k - 1) as nat, srcs, es, edge);
    }
}

/// Count the source-kind nodes and those with no outgoing edge of `edge`.
pub fn count_sources(graph: &LatticeGraph, srcs: &Vec<String>, edge: &str) -> (r: (usize, usize))
    requires
        graph.wf(),
    ensures
        r.0 == population(graph.spec_nodes(), graph.spec_nodes().len(), texts(srcs@)),
        r.1 == unattributed(graph.spec_nodes(), graph.spec_nodes().len(), texts(srcs@), graph.spec_edges(), edge@),
{
    let nodes = graph.iter_nodes();
    let edges = graph.iter_edges();
    let ghost ns = graph.spec_nodes();
    let ghost es = graph.spec_edges();
    let mut pop: usize = 0;
    let mut un: usize = 0;
    let mut i: usize = 0;
    while i < nodes.len()
        invariant
            i <= nodes.len(),
            nodes_view(nodes@) == ns,
            edges_view(edges@) == es,
            pop == population(ns, i as nat, texts(srcs@)),
            un == unattributed(ns, i as nat, texts(srcs@), es, edge@),
        decreases nodes.len() - i,
    {
        proof {
            lemma_counts_bounded(ns, i as nat, texts(srcs@), es, edge@);
            assert(ns[i as int] == nodes@[i as int]@);
        }
        if crate::assoc::contains_text(srcs, nodes[i].kind.as_str()) {
            pop += 1;
            if !is_attributed(edges, edge, nodes[i].id.as_str()) {
                un += 1;
            }
        }
        i += 1;
    }
    (pop, un)
}

/// `u` of `p` as a percentage with one decimal, rounded half to even.
pub open spec fn pct_text(u: nat, p: nat) -> Seq<char> {
    let n = u * 1000;
    let q = n / p;
    let r = n % p;
    let t = if 2 * r > p || (2 * r == p && q % 2 == 1) {
        q + 1
    } else {
        q
    };
    nat_text(t / 10) + "."@ + seq![digit_char(t % 10)]
}

/// The percentage of `p` that `u` is, to one decimal. Computed exactly in
/// integers and rounded half to even.
pub fn percent(u: usize, p: usize) -> (r: String)
    requires
        p > 0,
        u <= p,
    ensures
        r@ == pct_text(u as nat, p as nat),
{
    let n: u128 = (u as u128) * 1000;
    let q: u128 = n / (p as u128);
    let rem: u128 = n % (p as u128);
    let t: u128 = if 2 * rem > (p as u128) || (2 * rem == (p as u128) && q % 2 == 1) {
        q + 1
    } else {
        q
    };
    let whole = crate::text::u128_text(t / 10);
    let tenth = crate::text::u128_text(t % 10);
    proof {
        reveal_with_fuel(nat_text, 2);
        assert(tenth@ == seq![digit_char((t % 10) as nat)]);
    }
    msg3(whole.as_str(), ".", tenth.as_str())
}

/// Each source kind in quotes, comma-separated.
pub open spec fn quoted_kinds(srcs: Seq<Seq<char>>) -> Seq<char> {
    join(Seq::new(srcs.len(), |i: int| "'"@ + srcs[i] + "'"@), ", "@)
}

pub fn quote_kinds(srcs: &Vec<String>) -> (r: String)
    ensures
        r@ == quoted_kinds(texts(srcs@)),
{
    let mut parts: Vec<String> = Vec::new();
    let mut i: usize = 0;
    while i < srcs.len()
        invariant
            i <= srcs.len(),
            parts.len() == i,
            forall|k: int| 0 <= k < i ==> #[trigger] parts@[k]@ == "'"@ + srcs@[k]@ + "'"@,
        decreases srcs.len() - i,
    {
        parts.push(msg3("'", srcs[i].as_str(), "'"));
        i += 1;
    }
    assert(texts(parts@) =~= Seq::new(texts(srcs@).len(), |i: int| "'"@ + texts(srcs@)[i] + "'"@));
    crate::text::join_texts(&parts, ", ")
}

/// The finding that says coverage cannot be decided while source-kind nodes
/// carry no outgoing edge of the kind at all.
pub open spec fn unknown_finding(
    un: nat,
    pop: nat,
    srcs: Seq<Seq<char>>,
    edge: Seq<char>,
    target: Seq<char>,
    deep: bool,
    ov: Seq<(String, Severity)>,
) -> Seq<IssueView> {
    if un > 0 {
        seq![
            new_issue(
                spec_severity_for(FindingCode::CoverageUnknown, ov),
                code_text(FindingCode::CoverageUnknown),
                nat_text(un) + " of "@ + nat_text(pop) + " node(s) of "@ + (if srcs.len() == 1 {
                    "kind"@
                } else {
                    "kinds"@
                }) + " "@ + quoted_kinds(srcs) + " ("@ + pct_text(un, pop) + "%) carry no outgoing '"@ + edge
                    + "' edge; "@ + (if deep {
                    "deep coverage"@
                } else {
                    "coverage"@
                }) + " state for '"@ + target + "' is unknown"@,
                profile_provenance(),
                None,
            ),
        ]
    } else {
        Seq::empty()
    }
}

/// Report that coverage is unknown, when it is.
pub fn report_unknown(
    un: usize,
    pop: usize,
    srcs: &Vec<String>,
    edge: &str,
    target: &str,
    deep: bool,
    profile: &Profile,
    out: &mut Vec<Issue>,
)
    requires
        un <= pop,
    ensures
        issues_view(final(out)@) == issues_view(old(out)@) + unknown_finding(
            un as nat,
            pop as nat,
            texts(srcs@),
            edge@,
            target@,
            deep,
            profile.spec_overrides(),
        ),
{
    let ghost start = issues_view(out@);
    if un > 0 {
        let noun = if srcs.len() == 1 {
            "kind"
        } else {
            "kinds"
        };
        let what = if deep {
            "deep coverage"
        } else {
            "coverage"
        };
        let m = msg9(crate::text::usize_text(un).as_str(), " of ", crate::text::usize_text(pop).as_str(), " node(s) of ",
            noun, " ", quote_kinds(srcs).as_str(), " (", percent(un, pop).as_str());
        let m = msg7(m.as_str(), "%) carry no outgoing '", edge, "' edge; ", what, " state for '", target);
        let m = msg2(m.as_str(), "' is unknown");
        let f = crate::rules::issue(FindingCode::CoverageUnknown, m, Provenance::new("<profile>", 0), profile, None);
        proof {
            reveal_strlit("<profile>");
        }
        out.push(f);
    }
    assert(issues_view(out@) =~= start + unknown_finding(
        un as nat,
        pop as nat,
        texts(srcs@),
        edge@,
        target@,
        deep,
        profile.spec_overrides(),
    ));
}

/// A finding that carries the state coverage established.
pub open spec fn with_state(i: IssueView, state: Seq<char>) -> IssueView {
    IssueView { state: Some(state), ..i }
}

/// The COVERAGE finding for one node.
pub open spec fn coverage_node_findings(
    n: NodeView,
    target: Seq<char>,
    edge: Seq<char>,
    conds: Seq<ConditionView>,
    es: Seq<EdgeView>,
    ns: Seq<NodeView>,
    state: Seq<char>,
    ov: Seq<(String, Severity)>,
) -> Seq<IssueView> {
    if n.kind == target && spec_eval_all(conds, n.attrs, true) && !covered(es, ns, edge, n.id) {
        seq![
            with_state(
                node_issue(
                    FindingCode::Coverage,
                    "node '"@ + n.id + "' (kind '"@ + target + "') has no incoming '"@ + edge + "' edge"@,
                    n,
                    ov,
                ),
                state,
            ),
        ]
    } else {
        Seq::empty()
    }
}

/// The COVERAGE findings for the first `k` nodes.
pub open spec fn coverage_nodes_findings(
    ns: Seq<NodeView>,
    k: nat,
    target: Seq<char>,
    edge: Seq<char>,
    conds: Seq<ConditionView>,
    es: Seq<EdgeView>,
    state: Seq<char>,
    ov: Seq<(String, Severity)>,
) -> Seq<IssueView>
    decreases k,
{
    if k == 0 || k > ns.len() {
        Seq::empty()
    } else {
        coverage_nodes_findings(ns, (k - 1) as nat, target, edge, conds, es, state, ov) + coverage_node_findings(
            ns[k - 1],
            target,
            edge,
            conds,
            es,
            ns,
            state,
            ov,
        )
    }
}

/// What coverage established for the whole population: `unverified` when
/// every source-kind node carries an edge of the kind, else `unknown`.
pub open spec fn state_text(un: nat) -> Seq<char> {
    if un == 0 {
        "unverified"@
    } else {
        "unknown"@
    }
}

/// Every finding one COVERAGE configuration gives, once its keys name a
/// declared target kind and edge kind.
pub open spec fn coverage_body(
    target: Seq<char>,
    edge: Seq<char>,
    conds: Seq<ConditionView>,
    g: LatticeGraph,
    p: Profile,
) -> Seq<IssueView> {
    let ns = g.spec_nodes();
    let es = g.spec_edges();
    let ek = assoc(p.spec_edge_kinds(), edge)->0;
    let srcs = sources(allowed_pairs(ek), allowed_pairs(ek).len(), target);
    let pop = population(ns, ns.len(), srcs);
    let un = unattributed(ns, ns.len(), srcs, es, edge);
    coverage_nodes_findings(ns, ns.len(), target, edge, conds, es, state_text(un), p.spec_overrides()) + unknown_finding(
        un,
        pop,
        srcs,
        edge,
        target,
        false,
        p.spec_overrides(),
    )
}

/// Every finding one COVERAGE configuration gives.
pub open spec fn coverage_config_findings(cfg: Seq<(String, YamlValue)>, g: LatticeGraph, p: Profile) -> Seq<IssueView> {
    let code = "COVERAGE"@;
    let r1 = key_read(code, cfg, "target_kind"@, true, p);
    let r2 = key_read(code, cfg, "edge_kind"@, false, p);
    let missing = (if r1.missing {
        seq!["target_kind"@]
    } else {
        Seq::empty()
    }) + (if r2.missing {
        seq!["edge_kind"@]
    } else {
        Seq::empty()
    });
    r1.errors + r2.errors + missing_finding(code, missing, p.spec_overrides()) + match (r1.value, r2.value) {
        (Some(t), Some(e)) => coverage_body(t, e, decl_block(assoc(cfg, "where"@))->0, g, p),
        _ => Seq::empty(),
    }
}

/// The state string a finding carries.
fn state_string(un: usize) -> (r: String)
    ensures
        r@ == state_text(un as nat),
{
    if un == 0 {
        crate::text::copy_str("unverified")
    } else {
        crate::text::copy_str("unknown")
    }
}

/// Report the COVERAGE findings for every node of the target kind.
fn check_coverage_nodes(
    graph: &LatticeGraph,
    target: &str,
    edge: &str,
    conds: &Vec<Condition>,
    un: usize,
    profile: &Profile,
    out: &mut Vec<Issue>,
)
    requires
        graph.wf(),
        forall|i: int| 0 <= i < conds.len() ==> cond_ok(#[trigger] conds@[i]@),
    ensures
        issues_view(final(out)@) == issues_view(old(out)@) + coverage_nodes_findings(
            graph.spec_nodes(),
            graph.spec_nodes().len(),
            target@,
            edge@,
            conds_view(conds@),
            graph.spec_edges(),
            state_text(un as nat),
            profile.spec_overrides(),
        ),
{
    let nodes = graph.iter_nodes();
    let ghost ns = graph.spec_nodes();
    let ghost start = issues_view(out@);
    let ghost ov = profile.spec_overrides();
    let mut i: usize = 0;
    while i < nodes.len()
        invariant
            i <= nodes.len(),
            nodes_view(nodes@) == ns,
            ns == graph.spec_nodes(),
            ov == profile.spec_overrides(),
            forall|x: int| 0 <= x < conds.len() ==> cond_ok(#[trigger] conds@[x]@),
            issues_view(out@) == start + coverage_nodes_findings(
                ns,
                i as nat,
                target@,
                edge@,
                conds_view(conds@),
                graph.spec_edges(),
                state_text(un as nat),
                ov,
            ),
        decreases nodes.len() - i,
    {
        let node = &nodes[i];
        let ghost before = issues_view(out@);
        proof {
            assert(ns[i as int] == node@);
        }
        if str_eq(node.kind.as_str(), target) && crate::rules::eval_conditions(conds, &node.attrs, true)
            && !is_covered(graph, edge, node.id.as_str()) {
            let m = msg7("node '", node.id.as_str(), "' (kind '", target, "') has no incoming '", edge, "' edge");
            let mut f = crate::rules::issue(FindingCode::Coverage, m, node.provenance.copy(), profile, Some(node.id.clone()));
            f.state = Some(state_string(un));
            assert(f@ == with_state(node_issue(FindingCode::Coverage, m@, node@, ov), state_text(un as nat)));
            out.push(f);
            assert(issues_view(out@) =~= before.push(f@));
        } else {
            assert(issues_view(out@) =~= before);
        }
        proof {
            assert(issues_view(out@) =~= start + coverage_nodes_findings(
                ns,
                (i + 1) as nat,
                target@,
                edge@,
                conds_view(conds@),
                graph.spec_edges(),
                state_text(un as nat),
                ov,
            ));
        }
        i += 1;
    }
}

/// Report every finding one COVERAGE configuration gives.
pub fn check_coverage_config(config: &ValidationConfig, graph: &LatticeGraph, profile: &Profile, out: &mut Vec<Issue>)
    requires
        graph.wf(),
        decl_block(assoc(config@, "where"@)) is Some,
    ensures
        issues_view(final(out)@) == issues_view(old(out)@) + coverage_config_findings(config@, *graph, *profile),
{
    let ghost start = issues_view(out@);
    proof {
        crate::rules::lemma_block_conds_ok(assoc(config@, "where"@));
    }
    let w = assoc_get(config, "where");
    assert(crate::yaml::opt_val(w) == assoc(config@, "where"@));
    let conds = match crate::profile::parse_condition_block(w, "COVERAGE", "where") {
        Ok(c) => c,
        Err(_) => {
            proof {
                assert(false);
            }
            Vec::new()
        },
    };
    assert(decl_block(assoc(config@, "where"@)) == Some(conds_view(conds@)));
    assert forall|i: int| 0 <= i < conds.len() implies cond_ok(#[trigger] conds@[i]@) by {
        let cs = decl_block(assoc(config@, "where"@))->0;
        assert(cs[i] == conds@[i]@);
        assert(cond_ok(cs[i]));
    }
    let (target, t_missing) = read_kind_key("COVERAGE", config, "target_kind", true, profile, out);
    let (edge, e_missing) = read_kind_key("COVERAGE", config, "edge_kind", false, profile, out);
    let mut missing: Vec<String> = Vec::new();
    if t_missing {
        missing.push(crate::text::copy_str("target_kind"));
    }
    if e_missing {
        missing.push(crate::text::copy_str("edge_kind"));
    }
    proof {
        let m1: Seq<Seq<char>> = if t_missing { seq!["target_kind"@] } else { Seq::empty() };
        let m2: Seq<Seq<char>> = if e_missing { seq!["edge_kind"@] } else { Seq::empty() };
        assert(texts(missing@) =~= m1 + m2);
    }
    report_missing("COVERAGE", &missing, profile, out);
    let ghost after_keys = issues_view(out@);
    let (target, edge) = match (target, edge) {
        (Some(t), Some(e)) => (t, e),
        _ => {
            assert(issues_view(out@) =~= start + coverage_config_findings(config@, *graph, *profile));
            return;
        },
    };
    let ek = match assoc_get(profile.edge_kinds(), edge.as_str()) {
        Some(k) => k,
        None => {
            proof {
                assert(false);
            }
            return;
        },
    };
    let srcs = source_kinds(ek, target.as_str());
    let (pop, un) = count_sources(graph, &srcs, edge.as_str());
    proof {
        lemma_counts_bounded(graph.spec_nodes(), graph.spec_nodes().len(), texts(srcs@), graph.spec_edges(), edge@);
    }
    check_coverage_nodes(graph, target.as_str(), edge.as_str(), &conds, un, profile, out);
    report_unknown(un, pop, &srcs, edge.as_str(), target.as_str(), false, profile, out);
    proof {
        assert(issues_view(out@) =~= start + coverage_config_findings(config@, *graph, *profile));
    }
}

} // verus!
