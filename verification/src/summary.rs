//! The `summary` reports.
//!
//! The rollup is computed from the register on every run and never stored.
//! What it counts is entirely the profile's business: which kind, which attr
//! holds a status, which attr groups the rows. A profile without a `SUMMARY`
//! config gets structural counts instead.

use vstd::multiset::Multiset;
use vstd::prelude::*;

use crate::assoc::{assoc, assoc_get, keys_sorted, lemma_update_lookups, sorted_bump, sorted_index, sorted_insert};
use crate::coverage::{
    config_str, insert_text_sorted, lemma_text_put_contains, lemma_text_put_sorted, spec_config_str,
};
use crate::graph::{nodes_view, LatticeGraph, Node, NodeView};
use crate::json::{json_text, lookup, to_json_text, Json, JsonValue};
use crate::profile::{Profile, ValidationConfig};
use crate::query::strictly_sorted;
use crate::seqs::lemma_push_contains;
use crate::text::{
    compare_text, copy_str, lemma_text_lt_irreflexive, lemma_text_lt_total, lemma_text_lt_transitive, msg3, msg4, nat_text,
    str_eq, text_lt, texts, usize_text,
};
use crate::types::{issues_view, Issue, IssueView, Severity};
use crate::query::{counts, edge_kind_list, node_kind_list, tallies};
use crate::seqs::lemma_multiset_map;
use crate::validate::{configs_for, spec_validate, validate};

verus! {

/// A profile that cannot be summarised. Operational rather than a finding:
/// the command has nothing to render.
pub struct SummaryError(pub String);

/// Status rollup payload: one row per group, counts keyed by status.
///
/// `status_keys` is carried beside the counts rather than derived from them:
/// the columns come from the profile's declared enum as well as from what the
/// register holds, so a status no node carries still gets a zero column.
pub struct StatusRollup {
    pub group_key: String,
    pub status_keys: Vec<String>,
    /// Groups in name order; each row's counts in key order.
    pub groups: Vec<(String, Vec<(String, i64)>)>,
}

// ---------------------------------------------------------------- the model

/// The key a rollup counts a node under: the attr's text, its JSON text when
/// it is not a string, or `unknown` when the node has none.
pub open spec fn attr_label(v: Option<Json>) -> Seq<char> {
    match v {
        None => "unknown"@,
        Some(Json::Str(t)) => t,
        Some(j) => json_text(j),
    }
}

/// The key node `n` is counted under for `attr`.
pub open spec fn label(n: NodeView, attr: Seq<char>) -> Seq<char> {
    attr_label(lookup(n.attrs, attr))
}

/// How many of the first `m` nodes satisfy `f`.
pub open spec fn tally_where(ns: Seq<NodeView>, m: nat, f: spec_fn(NodeView) -> bool) -> nat
    decreases m,
{
    if m == 0 || m > ns.len() {
        0
    } else {
        tally_where(ns, (m - 1) as nat, f) + if f(ns[m - 1]) {
            1nat
        } else {
            0nat
        }
    }
}

/// A node of `kind` whose `by` attr puts it in group `g`.
pub open spec fn in_group(kind: Seq<char>, by: Seq<char>, g: Seq<char>) -> spec_fn(NodeView) -> bool {
    |n: NodeView| n.kind == kind && label(n, by) == g
}

/// A node of group `g` whose status is `s`.
pub open spec fn in_cell(kind: Seq<char>, by: Seq<char>, g: Seq<char>, status: Seq<char>, s: Seq<char>) -> spec_fn(
    NodeView,
) -> bool {
    |n: NodeView| n.kind == kind && label(n, by) == g && label(n, status) == s
}

/// What group `g`'s row holds under column `k` after the first `m` nodes: the
/// nodes of the group with that status, and under `total` every node of the
/// group besides.
pub open spec fn cell(
    ns: Seq<NodeView>,
    m: nat,
    kind: Seq<char>,
    status: Seq<char>,
    by: Seq<char>,
    g: Seq<char>,
    k: Seq<char>,
) -> int {
    tally_where(ns, m, in_cell(kind, by, g, status, k)) + if k == "total"@ {
        tally_where(ns, m, in_group(kind, by, g)) as int
    } else {
        0
    }
}

/// A row holds a column for every status key and for `total`, and nothing else.
pub open spec fn row_holds(
    row: Seq<(String, i64)>,
    keys: Seq<Seq<char>>,
    ns: Seq<NodeView>,
    m: nat,
    kind: Seq<char>,
    status: Seq<char>,
    by: Seq<char>,
    g: Seq<char>,
) -> bool {
    &&& keys_sorted(row)
    &&& forall|k: Seq<char>|
        #[trigger] assoc(row, k) == if keys.contains(k) || k == "total"@ {
            Some(cell(ns, m, kind, status, by, g, k) as i64)
        } else {
            None
        }
}

/// Group `g` has a row exactly when some node falls in it, and the row counts it.
pub open spec fn entry_ok(
    e: Option<Vec<(String, i64)>>,
    keys: Seq<Seq<char>>,
    ns: Seq<NodeView>,
    m: nat,
    kind: Seq<char>,
    status: Seq<char>,
    by: Seq<char>,
    g: Seq<char>,
) -> bool {
    match e {
        Some(row) => tally_where(ns, m, in_group(kind, by, g)) > 0 && row_holds(row@, keys, ns, m, kind, status, by, g),
        None => tally_where(ns, m, in_group(kind, by, g)) == 0,
    }
}

/// The rows of a rollup over the first `m` nodes.
pub open spec fn groups_hold(
    groups: Seq<(String, Vec<(String, i64)>)>,
    keys: Seq<Seq<char>>,
    ns: Seq<NodeView>,
    m: nat,
    kind: Seq<char>,
    status: Seq<char>,
    by: Seq<char>,
) -> bool {
    &&& keys_sorted(groups)
    &&& forall|g: Seq<char>| entry_ok(#[trigger] assoc(groups, g), keys, ns, m, kind, status, by, g)
}

/// The statuses the profile declares for `kind`'s `status` attr.
pub open spec fn declared_statuses(p: Profile, kind: Seq<char>, status: Seq<char>) -> Seq<Seq<char>> {
    match assoc(p.spec_node_kinds(), kind) {
        Some(nk) => match assoc(nk.attrs@, status) {
            Some(a) => match a.values {
                Some(v) => texts(v@),
                None => Seq::empty(),
            },
            None => Seq::empty(),
        },
        None => Seq::empty(),
    }
}

/// Some node among the first `m` of `kind` carries status `x`.
pub open spec fn carried(ns: Seq<NodeView>, m: nat, kind: Seq<char>, status: Seq<char>, x: Seq<char>) -> bool {
    exists|j: int| 0 <= j < m && (#[trigger] ns[j]).kind == kind && label(ns[j], status) == x
}

/// The status columns: sorted, without repeats, and exactly the declared
/// statuses together with those the register carries.
pub open spec fn status_keys_hold(
    keys: Seq<Seq<char>>,
    declared: Seq<Seq<char>>,
    ns: Seq<NodeView>,
    kind: Seq<char>,
    status: Seq<char>,
) -> bool {
    &&& strictly_sorted(keys)
    &&& forall|x: Seq<char>| #[trigger] keys.contains(x) <==> declared.contains(x) || carried(ns, ns.len(), kind, status, x)
}

/// What reading a required key of the `SUMMARY` config refuses, if anything.
pub open spec fn key_refusal(cfg: Seq<(String, crate::yaml::YamlValue)>, key: Seq<char>) -> Option<Seq<char>> {
    match spec_config_str(cfg, key) {
        Ok(Some(_)) => None,
        Ok(None) => Some("SUMMARY config requires node_kind, status_attr, group_by_attr"@),
        Err(got) => Some("SUMMARY config: '"@ + key + "' must be a string, got "@ + got),
    }
}

/// The three required keys, read in order; the first refusal wins.
pub open spec fn keys_refusal(cfg: Seq<(String, crate::yaml::YamlValue)>) -> Option<Seq<char>> {
    match key_refusal(cfg, "node_kind"@) {
        Some(e) => Some(e),
        None => match key_refusal(cfg, "status_attr"@) {
            Some(e) => Some(e),
            None => key_refusal(cfg, "group_by_attr"@),
        },
    }
}

/// Why a profile's summary cannot be rendered: several `SUMMARY` configs, or
/// one that lacks or mistypes a required key.
pub open spec fn summary_refusal(p: Profile) -> Option<Seq<char>> {
    let cfgs = configs_for(p, "SUMMARY"@);
    if cfgs.len() == 0 {
        None
    } else if cfgs.len() > 1 {
        Some(
            "profile declares "@ + nat_text(cfgs.len())
                + " SUMMARY configs; summary renders one rollup and cannot choose between them"@,
        )
    } else {
        keys_refusal(cfgs[0]@)
    }
}

/// A string key's value in a config.
pub open spec fn config_value(cfg: Seq<(String, crate::yaml::YamlValue)>, key: Seq<char>) -> Seq<char> {
    match spec_config_str(cfg, key) {
        Ok(Some(v)) => v,
        _ => Seq::empty(),
    }
}

/// The rollup the profile's one `SUMMARY` config declares, over the register.
pub open spec fn rollup_holds(r: StatusRollup, p: Profile, ns: Seq<NodeView>) -> bool {
    let cfg = configs_for(p, "SUMMARY"@)[0]@;
    let kind = config_value(cfg, "node_kind"@);
    let status = config_value(cfg, "status_attr"@);
    let by = config_value(cfg, "group_by_attr"@);
    &&& r.group_key@ == by
    &&& status_keys_hold(texts(r.status_keys@), declared_statuses(p, kind, status), ns, kind, status)
    &&& groups_hold(r.groups@, texts(r.status_keys@), ns, ns.len(), kind, status, by)
}

// ---------------------------------------------------------------- lemmas

/// A tally counts at most the nodes it looks at.
pub proof fn lemma_tally_bound(ns: Seq<NodeView>, m: nat, f: spec_fn(NodeView) -> bool)
    requires
        m <= ns.len(),
    ensures
        tally_where(ns, m, f) <= m,
    decreases m,
{
    if m > 0 {
        lemma_tally_bound(ns, (m - 1) as nat, f);
    }
}

/// A weaker predicate counts at least as many nodes.
pub proof fn lemma_tally_sub(ns: Seq<NodeView>, m: nat, f: spec_fn(NodeView) -> bool, h: spec_fn(NodeView) -> bool)
    requires
        m <= ns.len(),
        forall|n: NodeView| #[trigger] f(n) ==> h(n),
    ensures
        tally_where(ns, m, f) <= tally_where(ns, m, h),
    decreases m,
{
    if m > 0 {
        lemma_tally_sub(ns, (m - 1) as nat, f, h);
    }
}

/// A cell never exceeds twice the nodes looked at.
proof fn lemma_cell_bound(ns: Seq<NodeView>, m: nat, kind: Seq<char>, status: Seq<char>, by: Seq<char>, g: Seq<char>, k: Seq<char>)
    requires
        m <= ns.len(),
    ensures
        0 <= cell(ns, m, kind, status, by, g, k) <= 2 * m,
{
    lemma_tally_bound(ns, m, in_cell(kind, by, g, status, k));
    lemma_tally_bound(ns, m, in_group(kind, by, g));
}

/// A group that node `i` does not fall in keeps its entry.
proof fn lemma_entry_unchanged(
    e: Option<Vec<(String, i64)>>,
    keys: Seq<Seq<char>>,
    ns: Seq<NodeView>,
    i: nat,
    kind: Seq<char>,
    status: Seq<char>,
    by: Seq<char>,
    g: Seq<char>,
)
    requires
        i < ns.len(),
        !in_group(kind, by, g)(ns[i as int]),
        entry_ok(e, keys, ns, i, kind, status, by, g),
    ensures
        entry_ok(e, keys, ns, i + 1, kind, status, by, g),
{
    let f = in_group(kind, by, g);
    assert(tally_where(ns, i + 1, f) == tally_where(ns, i, f));
    if let Some(row) = e {
        assert forall|k: Seq<char>|
            #[trigger] assoc(row@, k) == if keys.contains(k) || k == "total"@ {
                Some(cell(ns, i + 1, kind, status, by, g, k) as i64)
            } else {
                None
            } by {
            let c = in_cell(kind, by, g, status, k);
            assert(tally_where(ns, i + 1, c) == tally_where(ns, i, c));
        }
    }
}

// ---------------------------------------------------------------- building

/// The key node `node` is counted under for `attr`.
fn label_of(node: &Node, attr: &str) -> (r: String)
    ensures
        r@ == label(node@, attr@),
{
    match crate::json::get(&node.attrs, attr) {
        None => copy_str("unknown"),
        Some(JsonValue::Str(t)) => t.clone(),
        Some(other) => to_json_text(other),
    }
}

/// A required key of the config.
fn required(config: &ValidationConfig, key: &str) -> (r: Result<String, SummaryError>)
    ensures
        r is Ok <==> key_refusal(config@, key@) is None,
        r matches Ok(v) ==> config_value(config@, key@) == v@,
        r matches Err(e) ==> key_refusal(config@, key@) == Some(e.0@),
{
    match config_str(config, key) {
        Ok(Some(v)) => Ok(v),
        Ok(None) => Err(SummaryError(copy_str("SUMMARY config requires node_kind, status_attr, group_by_attr"))),
        Err(got) => Err(SummaryError(msg4("SUMMARY config: '", key, "' must be a string, got ", got))),
    }
}

/// Add each of `vs` to a sorted list of distinct strings.
fn add_texts(keys: &mut Vec<String>, vs: &Vec<String>)
    requires
        strictly_sorted(texts(old(keys)@)),
    ensures
        strictly_sorted(texts(final(keys)@)),
        forall|x: Seq<char>| #[trigger] texts(final(keys)@).contains(x) <==> texts(old(keys)@).contains(x) || texts(vs@).contains(x),
{
    let ghost start = texts(keys@);
    let ghost vv = texts(vs@);
    let mut i: usize = 0;
    while i < vs.len()
        invariant
            i <= vs.len(),
            vv == texts(vs@),
            strictly_sorted(texts(keys@)),
            forall|x: Seq<char>| #[trigger] texts(keys@).contains(x) <==> start.contains(x) || vv.take(i as int).contains(x),
        decreases vs.len() - i,
    {
        let ghost before = texts(keys@);
        let v = vs[i].clone();
        let ghost vw = v@;
        insert_text_sorted(keys, v);
        proof {
            lemma_text_put_sorted(before, vw);
            assert(vv.take(i + 1) =~= vv.take(i as int).push(vw));
            assert forall|x: Seq<char>| #[trigger] texts(keys@).contains(x) <==> start.contains(x) || vv.take(i + 1).contains(x) by {
                lemma_text_put_contains(before, vw, x);
                lemma_push_contains(vv.take(i as int), vw, x);
            }
        }
        i += 1;
    }
    assert(vv.take(vs.len() as int) =~= vv);
}

/// The status columns of a rollup over the nodes of `kind`.
fn status_keys(graph: &LatticeGraph, profile: &Profile, kind: &str, status: &str) -> (keys: Vec<String>)
    requires
        graph.wf(),
    ensures
        status_keys_hold(texts(keys@), declared_statuses(*profile, kind@, status@), graph.spec_nodes(), kind@, status@),
{
    let ghost declared = declared_statuses(*profile, kind@, status@);
    let mut keys: Vec<String> = Vec::new();
    let empty: Vec<String> = Vec::new();
    let values: &Vec<String> = match assoc_get(profile.node_kinds(), kind) {
        Some(nk) => match assoc_get(&nk.attrs, status) {
            Some(a) => match &a.values {
                Some(v) => v,
                None => &empty,
            },
            None => &empty,
        },
        None => &empty,
    };
    assert(texts(values@) == declared);
    assert(texts(keys@) =~= Seq::<Seq<char>>::empty());
    add_texts(&mut keys, values);
    let nodes = graph.iter_nodes();
    let ghost ns = graph.spec_nodes();
    let mut i: usize = 0;
    while i < nodes.len()
        invariant
            i <= nodes.len(),
            ns == nodes_view(nodes@),
            strictly_sorted(texts(keys@)),
            forall|x: Seq<char>| #[trigger] texts(keys@).contains(x) <==> declared.contains(x) || carried(ns, i as nat, kind@, status@, x),
        decreases nodes.len() - i,
    {
        let node = &nodes[i];
        assert(ns[i as int] == node@);
        let ghost before = texts(keys@);
        if str_eq(node.kind.as_str(), kind) {
            let s = label_of(node, status);
            let ghost sv = s@;
            insert_text_sorted(&mut keys, s);
            proof {
                lemma_text_put_sorted(before, sv);
                assert forall|x: Seq<char>| #[trigger] texts(keys@).contains(x) <==> declared.contains(x) || carried(ns, (i + 1) as nat, kind@, status@, x) by {
                    lemma_text_put_contains(before, sv, x);
                    if carried(ns, (i + 1) as nat, kind@, status@, x) && !carried(ns, i as nat, kind@, status@, x) {
                        let j = choose|j: int| 0 <= j < i + 1 && (#[trigger] ns[j]).kind == kind@ && label(ns[j], status@) == x;
                        assert(j == i);
                    }
                    if x == sv {
                        assert(ns[i as int].kind == kind@);
                    }
                }
            }
        } else {
            proof {
                assert forall|x: Seq<char>| #[trigger] texts(keys@).contains(x) <==> declared.contains(x) || carried(ns, (i + 1) as nat, kind@, status@, x) by {
                    if carried(ns, (i + 1) as nat, kind@, status@, x) {
                        let j = choose|j: int| 0 <= j < i + 1 && (#[trigger] ns[j]).kind == kind@ && label(ns[j], status@) == x;
                        assert(j != i);
                    }
                }
            }
        }
        i += 1;
    }
    keys
}

/// A fresh row: every status key and `total` at zero.
fn blank_row(keys: &Vec<String>) -> (row: Vec<(String, i64)>)
    ensures
        keys_sorted(row@),
        forall|k: Seq<char>| #[trigger] assoc(row@, k) == if texts(keys@).contains(k) || k == "total"@ {
            Some(0i64)
        } else {
            None
        },
{
    let ghost kv = texts(keys@);
    let mut row: Vec<(String, i64)> = Vec::new();
    let mut i: usize = 0;
    while i < keys.len()
        invariant
            i <= keys.len(),
            kv == texts(keys@),
            keys_sorted(row@),
            forall|k: Seq<char>| #[trigger] assoc(row@, k) == if kv.take(i as int).contains(k) {
                Some(0i64)
            } else {
                None
            },
        decreases keys.len() - i,
    {
        let key = keys[i].clone();
        let ghost kw = key@;
        sorted_insert(&mut row, key, 0);
        proof {
            assert(kv.take(i + 1) =~= kv.take(i as int).push(kw));
            assert forall|k: Seq<char>| #[trigger] assoc(row@, k) == if kv.take(i + 1).contains(k) {
                Some(0i64)
            } else {
                None
            } by {
                lemma_push_contains(kv.take(i as int), kw, k);
            }
        }
        i += 1;
    }
    assert(kv.take(keys.len() as int) =~= kv);
    sorted_insert(&mut row, copy_str("total"), 0);
    row
}

/// Count node `i`, of the rolled-up kind, into its group's row.
fn count_node(
    groups: &mut Vec<(String, Vec<(String, i64)>)>,
    keys: &Vec<String>,
    g: String,
    s: &str,
    Ghost(ns): Ghost<Seq<NodeView>>,
    Ghost(i): Ghost<nat>,
    Ghost(kind): Ghost<Seq<char>>,
    Ghost(status): Ghost<Seq<char>>,
    Ghost(by): Ghost<Seq<char>>,
)
    requires
        i < ns.len(),
        2 * ns.len() <= i64::MAX,
        ns[i as int].kind == kind,
        label(ns[i as int], by) == g@,
        label(ns[i as int], status) == s@,
        texts(keys@).contains(s@),
        groups_hold(old(groups)@, texts(keys@), ns, i, kind, status, by),
    ensures
        groups_hold(final(groups)@, texts(keys@), ns, i + 1, kind, status, by),
{
    let ghost kv = texts(keys@);
    let ghost old_groups = groups@;
    let ghost gv = g@;
    let ghost grp = in_group(kind, by, gv);
    assert(grp(ns[i as int]));
    assert(tally_where(ns, i + 1, grp) == tally_where(ns, i, grp) + 1);
    let at = sorted_index(groups, g.as_str());
    assert(entry_ok(assoc(old_groups, gv), kv, ns, i, kind, status, by, gv));
    let mut row: Vec<(String, i64)> = match at {
        Some(idx) => {
            let (key, r) = groups.remove(idx);
            assert(old_groups[idx as int] == (key, r));
            r
        },
        None => blank_row(keys),
    };
    let ghost before = row@;
    proof {
        assert forall|k: Seq<char>| #[trigger] assoc(before, k) == if kv.contains(k) || k == "total"@ {
            Some(cell(ns, i, kind, status, by, gv, k) as i64)
        } else {
            None
        } by {
            if at is None {
                assert forall|n: NodeView| #[trigger] in_cell(kind, by, gv, status, k)(n) implies grp(n) by {}
                lemma_tally_sub(ns, i, in_cell(kind, by, gv, status, k), grp);
            }
        }
    }
    proof {
        lemma_cell_bound(ns, i, kind, status, by, gv, s@);
        lemma_cell_bound(ns, i, kind, status, by, gv, "total"@);
    }
    let ghost mid_row = row@;
    sorted_bump(&mut row, s);
    let ghost after_s = row@;
    proof {
        lemma_cell_bound(ns, i, kind, status, by, gv, "total"@);
    }
    sorted_bump(&mut row, "total");
    proof {
        assert forall|k: Seq<char>| #[trigger] assoc(row@, k) == if kv.contains(k) || k == "total"@ {
            Some(cell(ns, i + 1, kind, status, by, gv, k) as i64)
        } else {
            None
        } by {
            let c = in_cell(kind, by, gv, status, k);
            assert(tally_where(ns, i + 1, c) == tally_where(ns, i, c) + if k == s@ { 1int } else { 0int });
            if k != s@ && k != "total"@ {
                assert(assoc(row@, k) == assoc(before, k));
            }
        }
    }
    let ghost new_row = row@;
    match at {
        Some(idx) => {
            let ghost mid = groups@;
            let key = copy_str(g.as_str());
            groups.insert(idx, (key, row));
            proof {
                assert(groups@ =~= old_groups.update(idx as int, (key, row)));
                lemma_update_lookups(old_groups, idx as int, (key, row));
            }
        },
        None => {
            sorted_insert(groups, g, row);
        },
    }
    proof {
        assert forall|h: Seq<char>| entry_ok(#[trigger] assoc(groups@, h), kv, ns, i + 1, kind, status, by, h) by {
            if h == gv {
            } else {
                assert(assoc(groups@, h) == assoc(old_groups, h));
                assert(entry_ok(assoc(old_groups, h), kv, ns, i, kind, status, by, h));
                lemma_entry_unchanged(assoc(old_groups, h), kv, ns, i, kind, status, by, h);
            }
        }
    }
}

/// The rows of the rollup over every node of `kind`.
fn rollup_groups(graph: &LatticeGraph, keys: &Vec<String>, kind: &str, status: &str, by: &str) -> (groups: Vec<(String, Vec<(String, i64)>)>)
    requires
        graph.wf(),
        2 * graph.spec_nodes().len() <= i64::MAX,
        forall|j: int|
            0 <= j < graph.spec_nodes().len() && (#[trigger] graph.spec_nodes()[j]).kind == kind@ ==> texts(keys@).contains(
                label(graph.spec_nodes()[j], status@),
            ),
    ensures
        groups_hold(groups@, texts(keys@), graph.spec_nodes(), graph.spec_nodes().len(), kind@, status@, by@),
{
    let nodes = graph.iter_nodes();
    let ghost ns = graph.spec_nodes();
    let ghost kv = texts(keys@);
    let mut groups: Vec<(String, Vec<(String, i64)>)> = Vec::new();
    proof {
        assert forall|g: Seq<char>| entry_ok(#[trigger] assoc(groups@, g), kv, ns, 0, kind@, status@, by@, g) by {
            crate::assoc::lemma_assoc_absent(groups@, g);
        }
    }
    let mut i: usize = 0;
    while i < nodes.len()
        invariant
            i <= nodes.len(),
            ns == nodes_view(nodes@),
            ns == graph.spec_nodes(),
            kv == texts(keys@),
            2 * ns.len() <= i64::MAX,
            forall|j: int| 0 <= j < ns.len() && (#[trigger] ns[j]).kind == kind@ ==> kv.contains(label(ns[j], status@)),
            groups_hold(groups@, kv, ns, i as nat, kind@, status@, by@),
        decreases nodes.len() - i,
    {
        let node = &nodes[i];
        assert(ns[i as int] == node@);
        if str_eq(node.kind.as_str(), kind) {
            let g = label_of(node, by);
            let s = label_of(node, status);
            count_node(&mut groups, keys, g, s.as_str(), Ghost(ns), Ghost(i as nat), Ghost(kind@), Ghost(status@), Ghost(by@));
        } else {
            proof {
                assert forall|g: Seq<char>| entry_ok(#[trigger] assoc(groups@, g), kv, ns, (i + 1) as nat, kind@, status@, by@, g) by {
                    lemma_entry_unchanged(assoc(groups@, g), kv, ns, i as nat, kind@, status@, by@, g);
                }
            }
        }
        i += 1;
    }
    groups
}

/// The status rollup a single `SUMMARY` config declares.
pub fn build_rollup(profile: &Profile, graph: &LatticeGraph, config: &ValidationConfig) -> (r: Result<StatusRollup, SummaryError>)
    requires
        graph.wf(),
        2 * graph.spec_nodes().len() <= i64::MAX,
    ensures
        r is Err <==> keys_refusal(config@) is Some,
        r matches Err(e) ==> keys_refusal(config@) == Some(e.0@),
        r matches Ok(s) ==> s.group_key@ == config_value(config@, "group_by_attr"@) && status_keys_hold(
            texts(s.status_keys@),
            declared_statuses(*profile, config_value(config@, "node_kind"@), config_value(config@, "status_attr"@)),
            graph.spec_nodes(),
            config_value(config@, "node_kind"@),
            config_value(config@, "status_attr"@),
        ) && groups_hold(
            s.groups@,
            texts(s.status_keys@),
            graph.spec_nodes(),
            graph.spec_nodes().len(),
            config_value(config@, "node_kind"@),
            config_value(config@, "status_attr"@),
            config_value(config@, "group_by_attr"@),
        ),
{
    let kind = match required(config, "node_kind") {
        Ok(v) => v,
        Err(e) => return Err(e),
    };
    let status = match required(config, "status_attr") {
        Ok(v) => v,
        Err(e) => return Err(e),
    };
    let by = match required(config, "group_by_attr") {
        Ok(v) => v,
        Err(e) => return Err(e),
    };
    let keys = status_keys(graph, profile, kind.as_str(), status.as_str());
    let ghost ns = graph.spec_nodes();
    proof {
        assert forall|j: int| 0 <= j < ns.len() && (#[trigger] ns[j]).kind == kind@ implies texts(keys@).contains(
            label(ns[j], status@),
        ) by {
            assert(carried(ns, ns.len(), kind@, status@, label(ns[j], status@)));
        }
    }
    let groups = rollup_groups(graph, &keys, kind.as_str(), status.as_str(), by.as_str());
    Ok(StatusRollup { group_key: by, status_keys: keys, groups })
}

// ---------------------------------------------------------------- totals

/// What a row holds under `k`, zero where it holds nothing.
pub open spec fn column(row: Seq<(String, i64)>, k: Seq<char>) -> int {
    match assoc(row, k) {
        Some(v) => v as int,
        None => 0,
    }
}

/// Column `k` summed over the first `n` rows.
pub open spec fn column_sum(groups: Seq<(String, Vec<(String, i64)>)>, n: nat, k: Seq<char>) -> int
    decreases n,
{
    if n == 0 || n > groups.len() {
        0
    } else {
        column_sum(groups, (n - 1) as nat, k) + column(groups[n - 1].1@, k)
    }
}

/// Every running sum of a totalled column fits in an `i64`.
pub open spec fn sums_fit(groups: Seq<(String, Vec<(String, i64)>)>, keys: Seq<Seq<char>>) -> bool {
    forall|k: Seq<char>, n: nat|
        (keys.contains(k) || k == "total"@) && n <= groups.len() ==> i64::MIN <= #[trigger] column_sum(groups, n, k)
            <= i64::MAX
}

/// Column `k` summed over every row.
fn column_total(groups: &Vec<(String, Vec<(String, i64)>)>, k: &str) -> (t: i64)
    requires
        forall|n: nat| n <= groups.len() ==> i64::MIN <= #[trigger] column_sum(groups@, n, k@) <= i64::MAX,
    ensures
        t == column_sum(groups@, groups.len() as nat, k@),
{
    let mut t: i64 = 0;
    let mut i: usize = 0;
    while i < groups.len()
        invariant
            i <= groups.len(),
            t == column_sum(groups@, i as nat, k@),
            forall|n: nat| n <= groups.len() ==> i64::MIN <= #[trigger] column_sum(groups@, n, k@) <= i64::MAX,
        decreases groups.len() - i,
    {
        let v: i64 = match assoc_get(&groups[i].1, k) {
            Some(v) => *v,
            None => 0,
        };
        assert(column_sum(groups@, (i + 1) as nat, k@) == t + v);
        t = t + v;
        i += 1;
    }
    t
}

impl StatusRollup {
    /// Column totals, including the `total` column itself.
    pub fn totals(&self) -> (t: Vec<(String, i64)>)
        requires
            sums_fit(self.groups@, texts(self.status_keys@)),
        ensures
            keys_sorted(t@),
            forall|k: Seq<char>| #[trigger] assoc(t@, k) == if texts(self.status_keys@).contains(k) || k == "total"@ {
                Some(column_sum(self.groups@, self.groups.len() as nat, k) as i64)
            } else {
                None
            },
    {
        let ghost kv = texts(self.status_keys@);
        let ghost gs = self.groups@;
        let mut t: Vec<(String, i64)> = Vec::new();
        let mut i: usize = 0;
        while i < self.status_keys.len()
            invariant
                i <= self.status_keys.len(),
                kv == texts(self.status_keys@),
                gs == self.groups@,
                sums_fit(gs, kv),
                keys_sorted(t@),
                forall|k: Seq<char>| #[trigger] assoc(t@, k) == if kv.take(i as int).contains(k) {
                    Some(column_sum(gs, gs.len(), k) as i64)
                } else {
                    None
                },
            decreases self.status_keys.len() - i,
        {
            let key = self.status_keys[i].clone();
            let ghost kw = key@;
            assert(kv[i as int] == kw);
            assert(kv.contains(kw));
            let sum = column_total(&self.groups, key.as_str());
            sorted_insert(&mut t, key, sum);
            proof {
                assert(kv.take(i + 1) =~= kv.take(i as int).push(kw));
                assert forall|k: Seq<char>| #[trigger] assoc(t@, k) == if kv.take(i + 1).contains(k) {
                    Some(column_sum(gs, gs.len(), k) as i64)
                } else {
                    None
                } by {
                    lemma_push_contains(kv.take(i as int), kw, k);
                }
            }
            i += 1;
        }
        assert(kv.take(self.status_keys.len() as int) =~= kv);
        let total = copy_str("total");
        let sum = column_total(&self.groups, total.as_str());
        sorted_insert(&mut t, total, sum);
        t
    }
}

// ---------------------------------------------------------------- structural

/// How many findings one code produced at one severity.
pub struct FindingTally {
    pub code: String,
    pub severity: Severity,
    pub count: i64,
}

/// Zero-config summary payload: counts by kind and finding tallies.
///
/// Every kind the profile declares gets an entry even at zero, so an empty
/// register reads as "declared but unused" rather than as "unknown".
pub struct StructuralSummary {
    pub node_counts: Vec<(String, i64)>,
    pub edge_counts: Vec<(String, i64)>,
    /// By code, then from the most severe down.
    pub finding_counts: Vec<FindingTally>,
}

/// What `summary` has to show, which depends on whether the profile said what
/// a summary means.
pub enum SummaryReport {
    Configured(StatusRollup),
    Statistics(StructuralSummary),
}

/// Where a severity sorts among the tallies of one code: the most severe first.
pub open spec fn severity_rank(s: Severity) -> int {
    match s {
        Severity::Error => 0,
        Severity::Warning => 1,
        Severity::Info => 2,
        Severity::Hint => 3,
    }
}

/// Tally order: by code, then by severity rank.
pub open spec fn tally_lt(a: (Seq<char>, Severity), b: (Seq<char>, Severity)) -> bool {
    text_lt(a.0, b.0) || (a.0 == b.0 && severity_rank(a.1) < severity_rank(b.1))
}

/// The code and severity a tally counts.
pub open spec fn tally_of(t: FindingTally) -> (Seq<char>, Severity) {
    (t.code@, t.severity)
}

/// The code and severity of each finding.
pub open spec fn finding_keys(fs: Seq<IssueView>) -> Seq<(Seq<char>, Severity)> {
    fs.map_values(|f: IssueView| (f.code, f.severity))
}

/// One tally per code and severity that occurs, in tally order, each holding
/// how often it occurs.
pub open spec fn tallies_hold(t: Seq<FindingTally>, m: Multiset<(Seq<char>, Severity)>) -> bool {
    &&& forall|a: int, b: int| 0 <= a < b < t.len() ==> tally_lt(tally_of(#[trigger] t[a]), tally_of(#[trigger] t[b]))
    &&& forall|a: int| 0 <= a < t.len() ==> (#[trigger] t[a]).count == m.count(tally_of(t[a])) && t[a].count > 0
    &&& forall|key: (Seq<char>, Severity)| #[trigger] m.count(key) > 0 ==> exists|a: int| 0 <= a < t.len() && tally_of(#[trigger] t[a]) == key
}

proof fn lemma_tally_lt_irreflexive(a: (Seq<char>, Severity))
    ensures
        !tally_lt(a, a),
{
    lemma_text_lt_irreflexive(a.0);
}

proof fn lemma_tally_lt_transitive(a: (Seq<char>, Severity), b: (Seq<char>, Severity), c: (Seq<char>, Severity))
    requires
        tally_lt(a, b),
        tally_lt(b, c),
    ensures
        tally_lt(a, c),
{
    if text_lt(a.0, b.0) && text_lt(b.0, c.0) {
        lemma_text_lt_transitive(a.0, b.0, c.0);
    }
}

proof fn lemma_tally_lt_total(a: (Seq<char>, Severity), b: (Seq<char>, Severity))
    ensures
        tally_lt(a, b) || tally_lt(b, a) || a == b,
{
    lemma_text_lt_total(a.0, b.0);
}

fn severity_order(s: Severity) -> (r: u8)
    ensures
        r == severity_rank(s),
{
    match s {
        Severity::Error => 0,
        Severity::Warning => 1,
        Severity::Info => 2,
        Severity::Hint => 3,
    }
}

/// Whether tally `t` sorts before the code and severity given.
fn tally_before(t: &FindingTally, code: &str, severity: Severity) -> (r: bool)
    ensures
        r == tally_lt(tally_of(*t), (code@, severity)),
{
    let c = compare_text(t.code.as_str(), code);
    if c == -1 {
        true
    } else if c == 0 {
        severity_order(t.severity) < severity_order(severity)
    } else {
        proof {
            lemma_text_lt_irreflexive(code@);
            if text_lt(t.code@, code@) {
                lemma_text_lt_transitive(code@, t.code@, code@);
            }
        }
        false
    }
}

/// How many findings each code produced at each severity.
pub fn tally_findings(findings: &Vec<Issue>) -> (t: Vec<FindingTally>)
    requires
        findings.len() <= i64::MAX,
    ensures
        tallies_hold(t@, finding_keys(issues_view(findings@)).to_multiset()),
{
    let ghost fk = finding_keys(issues_view(findings@));
    let mut t: Vec<FindingTally> = Vec::new();
    proof {
        fk.take(0).to_multiset_ensures();
        assert(fk.take(0) =~= Seq::<(Seq<char>, Severity)>::empty());
    }
    let mut i: usize = 0;
    while i < findings.len()
        invariant
            i <= findings.len(),
            findings.len() <= i64::MAX,
            fk == finding_keys(issues_view(findings@)),
            fk.len() == findings.len(),
            tallies_hold(t@, fk.take(i as int).to_multiset()),
            forall|a: int| 0 <= a < t.len() ==> (#[trigger] t@[a]).count <= i,
        decreases findings.len() - i,
    {
        let f = &findings[i];
        let ghost key = (f.code@, f.severity);
        let ghost m = fk.take(i as int).to_multiset();
        let ghost old_t = t@;
        proof {
            assert(fk[i as int] == key);
            assert(fk.take(i + 1) =~= fk.take(i as int).push(key));
            fk.take(i as int).to_multiset_ensures();
        }
        let mut p: usize = 0;
        while p < t.len()
            invariant
                p <= t.len(),
                key == (f.code@, f.severity),
                forall|a: int| 0 <= a < p ==> tally_lt(tally_of(#[trigger] t@[a]), key),
            ensures
                p <= t.len(),
                forall|a: int| 0 <= a < p ==> tally_lt(tally_of(#[trigger] t@[a]), key),
                p < t.len() ==> !tally_lt(tally_of(t@[p as int]), key),
            decreases t.len() - p,
        {
            if !tally_before(&t[p], f.code.as_str(), f.severity) {
                break;
            }
            p += 1;
        }
        if p < t.len() && str_eq(t[p].code.as_str(), f.code.as_str()) && t[p].severity == f.severity {
            let c = t[p].count;
            let code = t[p].code.clone();
            t.set(p, FindingTally { code, severity: f.severity, count: c + 1 });
            proof {
                let m2 = fk.take(i + 1).to_multiset();
                assert(m2 =~= m.insert(key));
                assert(tally_of(old_t[p as int]) == key);
                assert forall|a: int, b: int| 0 <= a < b < t.len() implies tally_lt(tally_of(#[trigger] t@[a]), tally_of(#[trigger] t@[b])) by {
                    assert(tally_of(t@[a]) == tally_of(old_t[a]) && tally_of(t@[b]) == tally_of(old_t[b]));
                }
                assert forall|a: int| 0 <= a < t.len() implies (#[trigger] t@[a]).count == m2.count(tally_of(t@[a])) && t@[a].count > 0 by {
                    if a != p {
                        if a < p {
                            assert(tally_lt(tally_of(old_t[a]), key));
                        } else {
                            assert(tally_lt(tally_of(old_t[p as int]), tally_of(old_t[a])));
                        }
                        lemma_tally_lt_irreflexive(key);
                    }
                }
                assert forall|k2: (Seq<char>, Severity)| #[trigger] m2.count(k2) > 0 implies exists|a: int| 0 <= a < t.len() && tally_of(#[trigger] t@[a]) == k2 by {
                    if k2 == key {
                        assert(tally_of(t@[p as int]) == k2);
                    } else {
                        assert(m.count(k2) > 0);
                        let a = choose|a: int| 0 <= a < old_t.len() && tally_of(#[trigger] old_t[a]) == k2;
                        assert(tally_of(t@[a]) == k2);
                    }
                }
                assert forall|a: int| 0 <= a < t.len() implies (#[trigger] t@[a]).count <= i + 1 by {
                    assert(old_t[a].count <= i);
                }
            }
        } else {
            let code = f.code.clone();
            let fresh = FindingTally { code, severity: f.severity, count: 1 };
            t.insert(p, fresh);
            proof {
                let m2 = fk.take(i + 1).to_multiset();
                assert(m2 =~= m.insert(key));
                lemma_tally_lt_irreflexive(key);
                if p < old_t.len() {
                    lemma_tally_lt_total(tally_of(old_t[p as int]), key);
                }
                if m.count(key) > 0 {
                    let a = choose|a: int| 0 <= a < old_t.len() && tally_of(#[trigger] old_t[a]) == key;
                    if a > p {
                        assert(tally_lt(tally_of(old_t[p as int]), tally_of(old_t[a])));
                    }
                    assert(false);
                }
                assert forall|a: int, b: int| 0 <= a < b < t.len() implies tally_lt(tally_of(#[trigger] t@[a]), tally_of(#[trigger] t@[b])) by {
                    if b < p {
                        assert(t@[a] == old_t[a] && t@[b] == old_t[b]);
                    } else if a > p {
                        assert(t@[a] == old_t[a - 1] && t@[b] == old_t[b - 1]);
                    } else if a == p {
                        assert(t@[b] == old_t[b - 1]);
                        if b - 1 > p {
                            lemma_tally_lt_transitive(key, tally_of(old_t[p as int]), tally_of(old_t[b - 1]));
                        }
                    } else if b == p {
                        assert(t@[a] == old_t[a]);
                    } else {
                        assert(t@[a] == old_t[a] && t@[b] == old_t[b - 1]);
                        if b - 1 > p {
                            lemma_tally_lt_transitive(key, tally_of(old_t[p as int]), tally_of(old_t[b - 1]));
                        }
                        lemma_tally_lt_transitive(tally_of(old_t[a]), key, tally_of(old_t[b - 1]));
                    }
                }
                assert forall|a: int| 0 <= a < t.len() implies (#[trigger] t@[a]).count == m2.count(tally_of(t@[a])) && t@[a].count > 0 by {
                    if a < p {
                        assert(t@[a] == old_t[a]);
                        assert(tally_of(old_t[a]) != key);
                    } else if a > p {
                        assert(t@[a] == old_t[a - 1]);
                        assert(tally_of(old_t[a - 1]) != key) by {
                            if a - 1 > p {
                                assert(tally_lt(tally_of(old_t[p as int]), tally_of(old_t[a - 1])));
                                if tally_of(old_t[a - 1]) == key {
                                    assert(tally_lt(tally_of(old_t[p as int]), key));
                                }
                            }
                        }
                    }
                }
                assert forall|k2: (Seq<char>, Severity)| #[trigger] m2.count(k2) > 0 implies exists|a: int| 0 <= a < t.len() && tally_of(#[trigger] t@[a]) == k2 by {
                    if k2 == key {
                        assert(tally_of(t@[p as int]) == k2);
                    } else {
                        assert(m.count(k2) > 0);
                        let a = choose|a: int| 0 <= a < old_t.len() && tally_of(#[trigger] old_t[a]) == k2;
                        if a < p {
                            assert(tally_of(t@[a]) == k2);
                        } else {
                            assert(tally_of(t@[a + 1]) == k2);
                        }
                    }
                }
                assert forall|a: int| 0 <= a < t.len() implies (#[trigger] t@[a]).count <= i + 1 by {
                    if a < p {
                        assert(t@[a] == old_t[a]);
                    } else if a > p {
                        assert(t@[a] == old_t[a - 1]);
                    }
                }
            }
        }
        i += 1;
    }
    assert(fk.take(findings.len() as int) =~= fk);
    t
}

/// Structural counts: every kind at its count, and the tallies of `findings`.
pub fn structural_summary(graph: &LatticeGraph, profile: &Profile, findings: &Vec<Issue>) -> (r: StructuralSummary)
    requires
        graph.wf(),
        profile.wf(),
        graph.spec_nodes().len() <= i64::MAX,
        graph.spec_edges().len() <= i64::MAX,
        findings.len() <= i64::MAX,
    ensures
        tallies(r.node_counts@, profile.spec_node_kinds(), node_kind_list(graph.spec_nodes())),
        tallies(r.edge_counts@, profile.spec_edge_kinds(), edge_kind_list(graph.spec_edges())),
        tallies_hold(r.finding_counts@, finding_keys(issues_view(findings@)).to_multiset()),
{
    let c = counts(graph, profile);
    StructuralSummary { node_counts: c.nodes, edge_counts: c.edges, finding_counts: tally_findings(findings) }
}

// ---------------------------------------------------------------- the report

/// Why `summary` renders nothing: what the `SUMMARY` configs refuse, or, with
/// none, findings too many to count in an `i64`.
pub open spec fn summary_failure(p: Profile, g: LatticeGraph) -> Option<Seq<char>> {
    if configs_for(p, "SUMMARY"@).len() == 0 {
        if spec_validate(g, p, false).len() > i64::MAX {
            Some("too many findings to tally"@)
        } else {
            None
        }
    } else {
        summary_refusal(p)
    }
}

/// The structural counts of the register and of its (non-strict) findings.
pub open spec fn statistics_hold(t: StructuralSummary, p: Profile, g: LatticeGraph) -> bool {
    &&& tallies(t.node_counts@, p.spec_node_kinds(), node_kind_list(g.spec_nodes()))
    &&& tallies(t.edge_counts@, p.spec_edge_kinds(), edge_kind_list(g.spec_edges()))
    &&& tallies_hold(t.finding_counts@, finding_keys(spec_validate(g, p, false)).to_multiset())
}

/// What `summary` reports: the rollup a profile's one `SUMMARY` config
/// declares, or structural counts when it declares none.
///
/// Status columns come from the profile's declared enum *and* from what the
/// register actually holds, so a declared status no node carries still gets a
/// zero column and an undeclared one still gets counted.
pub fn build_summary(profile: &Profile, graph: &LatticeGraph) -> (r: Result<SummaryReport, SummaryError>)
    requires
        graph.wf(),
        profile.wf(),
        2 * graph.spec_nodes().len() <= i64::MAX,
        graph.spec_edges().len() <= i64::MAX,
    ensures
        r is Err <==> summary_failure(*profile, *graph) is Some,
        r matches Err(e) ==> summary_failure(*profile, *graph) == Some(e.0@),
        r matches Ok(SummaryReport::Configured(s)) ==> configs_for(*profile, "SUMMARY"@).len() == 1 && rollup_holds(
            s,
            *profile,
            graph.spec_nodes(),
        ),
        r matches Ok(SummaryReport::Statistics(t)) ==> configs_for(*profile, "SUMMARY"@).len() == 0
            && statistics_hold(t, *profile, *graph),
{
    let empty: Vec<ValidationConfig> = Vec::new();
    let configs: &Vec<ValidationConfig> = match assoc_get(profile.validation_configs(), "SUMMARY") {
        Some(list) => list,
        None => &empty,
    };
    assert(configs@ == configs_for(*profile, "SUMMARY"@));
    if configs.len() == 0 {
        let findings = validate(graph, profile, false);
        proof {
            let sv = spec_validate(*graph, *profile, false);
            issues_view(findings@).to_multiset_ensures();
            sv.to_multiset_ensures();
            lemma_multiset_map(issues_view(findings@), sv, |f: IssueView| (f.code, f.severity));
        }
        if findings.len() as u128 > 9223372036854775807u128 {
            return Err(SummaryError(copy_str("too many findings to tally")));
        }
        return Ok(SummaryReport::Statistics(structural_summary(graph, profile, &findings)));
    }
    if configs.len() > 1 {
        let n = usize_text(configs.len());
        return Err(
            SummaryError(
                msg3(
                    "profile declares ",
                    n.as_str(),
                    " SUMMARY configs; summary renders one rollup and cannot choose between them",
                ),
            ),
        );
    }
    match build_rollup(profile, graph, &configs[0]) {
        Ok(s) => Ok(SummaryReport::Configured(s)),
        Err(e) => Err(e),
    }
}

} // verus!
