//! Ask-time graph queries: reachability, paths, orphans and counts.
//!
//! Every index here is built per question from the borrowed graph and dropped
//! with the answer. Walks follow edge endpoints as plain strings, so they pass
//! through endpoints no adapter declared; only declared nodes enter answers.

use vstd::prelude::*;

use crate::assoc::{assoc, assoc_has, assoc_keys, keys_of, keys_sorted, sorted_bump};
use crate::closure::{distances, lemma_reach_mono, links_ok, reach_from, reach_k, reachable};
use crate::graph::{declares, edges_view, node_lookup, nodes_view, Edge, EdgeView, LatticeGraph, NodeView};
use crate::profile::{EdgeKind, NodeKind, Profile};
use crate::seqs::{first_index, lemma_first_index, lemma_first_index_at};
use crate::text::{
    compare_text, copy_str, debug_list, debug_list_text, lemma_text_lt_irreflexive, lemma_text_lt_transitive, msg3, msg5,
    sort_texts, str_eq, text_lt, texts, texts_sorted,
};
use crate::types::{Provenance, ProvenanceView};

verus! {

/// A question that cannot be posed: an ID or kind the run does not know.
pub struct QueryError(pub String);

/// Which way a reachability walk follows edges.
#[derive(Clone, Copy, PartialEq, Eq, Structural)]
pub enum Direction {
    /// Along outgoing edges: what does this node reach?
    Forward,
    /// Along incoming edges: what reaches this node?
    Reverse,
}

/// A node named in a query answer: its ID and declared kind.
pub struct NodeRef {
    pub id: String,
    pub kind: String,
    /// `Some(true)` when every path the walk found to this node crosses an
    /// undeclared endpoint; `None` when the walk was not asked to tell.
    pub tainted: Option<bool>,
}

pub struct NodeRefView {
    pub id: Seq<char>,
    pub kind: Seq<char>,
    pub tainted: Option<bool>,
}

impl View for NodeRef {
    type V = NodeRefView;

    open spec fn view(&self) -> NodeRefView {
        NodeRefView { id: self.id@, kind: self.kind@, tainted: self.tainted }
    }
}

/// An edge named in a query answer, as the (src, kind, tgt) triple it is.
pub struct EdgeRef {
    pub src: String,
    pub tgt: String,
    pub kind: String,
}

/// Reachability answer: the transitive closure from `origin`, origin excluded.
pub struct ReachReport {
    pub origin: String,
    /// `"reaches"` or `"reached-by"`: which way the walk followed edges.
    pub direction: String,
    /// The restriction the caller asked for; empty means every edge kind.
    pub edge_kinds: Vec<String>,
    pub nodes: Vec<NodeRef>,
}

/// One orphan: a declared node no edge names.
pub struct OrphanEntry {
    pub id: String,
    pub kind: String,
    pub provenance: Provenance,
}

pub struct OrphanView {
    pub id: Seq<char>,
    pub kind: Seq<char>,
    pub provenance: ProvenanceView,
}

impl View for OrphanEntry {
    type V = OrphanView;

    open spec fn view(&self) -> OrphanView {
        OrphanView { id: self.id@, kind: self.kind@, provenance: self.provenance@ }
    }
}

/// Orphans answer, with the kind restriction it was computed under.
pub struct OrphansReport {
    pub kind_filter: Option<String>,
    pub orphans: Vec<OrphanEntry>,
}

/// Counts answer: per-kind tallies, keyed in `str` order, declared kinds
/// present even at zero.
pub struct CountsReport {
    pub nodes: Vec<(String, i64)>,
    pub edges: Vec<(String, i64)>,
}

// ---------------------------------------------------------------- walks

/// Whether an edge kind passes the caller's restriction; none means all.
pub open spec fn kind_ok(kinds: Seq<Seq<char>>, kind: Seq<char>) -> bool {
    kinds.len() == 0 || kinds.contains(kind)
}

/// The endpoint a walk leaves an edge from.
pub open spec fn near_end(e: EdgeView, d: Direction) -> Seq<char> {
    match d {
        Direction::Forward => e.src,
        Direction::Reverse => e.tgt,
    }
}

/// The endpoint a walk arrives at along an edge.
pub open spec fn far_end(e: EdgeView, d: Direction) -> Seq<char> {
    match d {
        Direction::Forward => e.tgt,
        Direction::Reverse => e.src,
    }
}

/// Whether a walk may take `e` to arrive at `b`.
pub open spec fn takes_to(e: EdgeView, kinds: Seq<Seq<char>>, d: Direction, b: Seq<char>) -> bool {
    kind_ok(kinds, e.kind) && far_end(e, d) == b
}

/// Whether `b` is reached from `a` in at most `k` steps.
pub open spec fn walk_k(es: Seq<EdgeView>, kinds: Seq<Seq<char>>, d: Direction, a: Seq<char>, k: nat, b: Seq<char>) -> bool
    decreases k,
{
    if k == 0 {
        b == a
    } else {
        walk_k(es, kinds, d, a, (k - 1) as nat, b) || exists|j: int|
            0 <= j < es.len() && #[trigger] takes_to(es[j], kinds, d, b) && walk_k(
                es,
                kinds,
                d,
                a,
                (k - 1) as nat,
                near_end(es[j], d),
            )
    }
}

/// Whether `b` is reached from `a` at all.
pub open spec fn walks(es: Seq<EdgeView>, kinds: Seq<Seq<char>>, d: Direction, a: Seq<char>, b: Seq<char>) -> bool {
    exists|k: nat| walk_k(es, kinds, d, a, k, b)
}

/// The IDs of the first `k` nodes that satisfy `p`, in node order.
pub open spec fn ids_where(ns: Seq<NodeView>, k: nat, p: spec_fn(Seq<char>) -> bool) -> Seq<Seq<char>>
    decreases k,
{
    if k == 0 || k > ns.len() {
        Seq::empty()
    } else if p(ns[k - 1].id) {
        ids_where(ns, (k - 1) as nat, p).push(ns[k - 1].id)
    } else {
        ids_where(ns, (k - 1) as nat, p)
    }
}

/// A node other than the origin that the walk reaches.
pub open spec fn reached_by_walk(es: Seq<EdgeView>, kinds: Seq<Seq<char>>, d: Direction, origin: Seq<char>) -> spec_fn(
    Seq<char>,
) -> bool {
    |id: Seq<char>| id != origin && walks(es, kinds, d, origin, id)
}

/// The declared nodes a reachability question answers, in node order.
pub open spec fn reach_ids(ns: Seq<NodeView>, es: Seq<EdgeView>, kinds: Seq<Seq<char>>, d: Direction, origin: Seq<char>) -> Seq<
    Seq<char>,
> {
    ids_where(ns, ns.len(), reached_by_walk(es, kinds, d, origin))
}

/// How a reach answer names its direction.
pub open spec fn direction_word(d: Direction) -> Seq<char> {
    match d {
        Direction::Forward => "reaches"@,
        Direction::Reverse => "reached-by"@,
    }
}

/// Texts in strictly increasing `str` order: what a `BTreeSet` walk yields.
pub open spec fn strictly_sorted(s: Seq<Seq<char>>) -> bool {
    forall|i: int, j: int| 0 <= i < j < s.len() ==> text_lt(#[trigger] s[i], #[trigger] s[j])
}

pub open spec fn ref_ids(s: Seq<NodeRef>) -> Seq<Seq<char>> {
    s.map_values(|r: NodeRef| r@.id)
}

// ---------------------------------------------------------------- refusals

/// An edge kind the profile does not declare.
pub open spec fn undeclared_kind<V>(eks: Seq<(String, V)>) -> spec_fn(Seq<char>) -> bool {
    |k: Seq<char>| assoc(eks, k) is None
}

/// Why a set of edge kinds cannot be asked about: the first kind the profile
/// does not declare, with the kinds it does.
pub open spec fn kinds_refusal(eks: Seq<(String, EdgeKind)>, kinds: Seq<Seq<char>>) -> Option<Seq<char>> {
    match first_index(kinds, undeclared_kind(eks)) {
        Some(i) => Some(
            "unknown edge kind '"@ + kinds[i] + "': the profile declares "@ + debug_list_text(keys_of(eks)),
        ),
        None => None,
    }
}

/// Why a node cannot be asked about: no node is declared under its ID.
pub open spec fn node_refusal(ns: Seq<NodeView>, id: Seq<char>) -> Option<Seq<char>> {
    if declares(ns, id) {
        None
    } else {
        Some("unknown node '"@ + id + "'"@)
    }
}

/// Refuse an edge kind the profile does not declare, before any traversal.
pub fn check_edge_kinds(profile: &Profile, kinds: &Vec<String>) -> (r: Result<(), QueryError>)
    ensures
        match r {
            Ok(()) => kinds_refusal(profile.spec_edge_kinds(), texts(kinds@)) is None,
            Err(e) => kinds_refusal(profile.spec_edge_kinds(), texts(kinds@)) == Some(e.0@),
        },
{
    let eks = profile.edge_kinds();
    let ghost kv = texts(kinds@);
    let mut i: usize = 0;
    while i < kinds.len()
        invariant
            i <= kinds.len(),
            kv == texts(kinds@),
            eks@ == profile.spec_edge_kinds(),
            forall|k: int| 0 <= k < i ==> !undeclared_kind(eks@)(#[trigger] kv[k]),
        decreases kinds.len() - i,
    {
        assert(kv[i as int] == kinds@[i as int]@);
        if !assoc_has(eks, kinds[i].as_str()) {
            proof {
                lemma_first_index_at(kv, undeclared_kind(eks@), i as int);
            }
            let keys = assoc_keys(eks);
            let listed = debug_list(&keys);
            let message = msg5("unknown edge kind '", kinds[i].as_str(), "': the profile declares ", listed.as_str(), "");
            proof {
                reveal_strlit("");
                assert(message@ =~= "unknown edge kind '"@ + kv[i as int] + "': the profile declares "@ + debug_list_text(
                    keys_of(eks@),
                ));
            }
            return Err(QueryError(message));
        }
        i += 1;
    }
    proof {
        lemma_first_index_at(kv, undeclared_kind(eks@), i as int);
    }
    Ok(())
}

/// Refuse a node ID the graph does not hold, before any traversal.
pub fn check_node(graph: &LatticeGraph, id: &str) -> (r: Result<(), QueryError>)
    ensures
        match r {
            Ok(()) => node_refusal(graph.spec_nodes(), id@) is None,
            Err(e) => node_refusal(graph.spec_nodes(), id@) == Some(e.0@),
        },
{
    if graph.has_node(id) {
        Ok(())
    } else {
        Err(QueryError(msg3("unknown node '", id, "'")))
    }
}

// ---------------------------------------------------------------- index graphs

/// Every endpoint of every edge is among `ids`.
pub open spec fn endpoints_in(es: Seq<EdgeView>, ids: Seq<Seq<char>>) -> bool {
    forall|j: int| 0 <= j < es.len() ==> ids.contains(#[trigger] es[j].src) && ids.contains(es[j].tgt)
}

/// Link `j` runs from the index of the edge's near end to that of its far end,
/// or stays put when the walk may not take the edge.
pub open spec fn links_follow(
    es: Seq<EdgeView>,
    kinds: Seq<Seq<char>>,
    d: Direction,
    ids: Seq<Seq<char>>,
    links: Seq<(usize, usize)>,
) -> bool {
    &&& links.len() == es.len()
    &&& links_ok(ids.len(), links)
    &&& forall|j: int|
        0 <= j < es.len() ==> ids[(#[trigger] links[j]).0 as int] == near_end(es[j], d) && ids[links[j].1 as int]
            == if kind_ok(kinds, es[j].kind) {
            far_end(es[j], d)
        } else {
            near_end(es[j], d)
        }
}

pub open spec fn all_set(ok: Seq<bool>) -> bool {
    forall|i: int| 0 <= i < ok.len() ==> #[trigger] ok[i]
}

/// Chains of links mirror walks along the edges they stand for.
proof fn lemma_links_walk(
    es: Seq<EdgeView>,
    kinds: Seq<Seq<char>>,
    d: Direction,
    ids: Seq<Seq<char>>,
    links: Seq<(usize, usize)>,
    ok: Seq<bool>,
    a: int,
    k: nat,
)
    requires
        ids.no_duplicates(),
        links_follow(es, kinds, d, ids, links),
        ok.len() == ids.len(),
        all_set(ok),
        0 <= a < ids.len(),
    ensures
        forall|x: int| 0 <= x < ids.len() ==> (#[trigger] reach_k(links, ok, a, k, x) <==> walk_k(es, kinds, d, ids[a], k, ids[x])),
    decreases k,
{
    if k == 0 {
        assert forall|x: int| 0 <= x < ids.len() implies (#[trigger] reach_k(links, ok, a, k, x) <==> walk_k(
            es,
            kinds,
            d,
            ids[a],
            k,
            ids[x],
        )) by {
            if x != a {
                assert(ids[x] != ids[a]);
            }
        }
    } else {
        lemma_links_walk(es, kinds, d, ids, links, ok, a, (k - 1) as nat);
        let pk = (k - 1) as nat;
        assert forall|x: int| 0 <= x < ids.len() implies (#[trigger] reach_k(links, ok, a, k, x) <==> walk_k(
            es,
            kinds,
            d,
            ids[a],
            k,
            ids[x],
        )) by {
            if reach_k(links, ok, a, k, x) && !reach_k(links, ok, a, pk, x) {
                let j = choose|j: int| 0 <= j < links.len() && (#[trigger] links[j]).1 == x && reach_k(links, ok, a, pk, links[j].0 as int);
                let y = links[j].0 as int;
                assert(0 <= y < ids.len());
                assert(reach_k(links, ok, a, pk, y));
                assert(walk_k(es, kinds, d, ids[a], pk, ids[y]));
                assert(ids[y] == near_end(es[j], d));
                if kind_ok(kinds, es[j].kind) {
                    assert(ids[links[j].1 as int] == far_end(es[j], d));
                    assert(takes_to(es[j], kinds, d, ids[x]));
                    assert(walk_k(es, kinds, d, ids[a], k, ids[x]));
                } else {
                    assert(ids[links[j].1 as int] == ids[y]);
                    assert(y == x) by {
                        if y != x {
                            assert(ids[y] != ids[x]);
                        }
                    }
                    assert(walk_k(es, kinds, d, ids[a], pk, ids[x]));
                }
            }
            if reach_k(links, ok, a, pk, x) {
                assert(walk_k(es, kinds, d, ids[a], pk, ids[x]));
            }
            if walk_k(es, kinds, d, ids[a], pk, ids[x]) {
                assert(reach_k(links, ok, a, pk, x));
            }
            if walk_k(es, kinds, d, ids[a], k, ids[x]) && !walk_k(es, kinds, d, ids[a], pk, ids[x]) {
                let j = choose|j: int|
                    0 <= j < es.len() && #[trigger] takes_to(es[j], kinds, d, ids[x]) && walk_k(es, kinds, d, ids[a], pk, near_end(es[j], d));
                let y = links[j].0 as int;
                assert(0 <= y < ids.len());
                assert(ids[y] == near_end(es[j], d));
                assert(walk_k(es, kinds, d, ids[a], pk, ids[y]));
                assert(reach_k(links, ok, a, pk, y));
                assert(ids[links[j].1 as int] == far_end(es[j], d));
                assert(links[j].1 as int == x) by {
                    if links[j].1 as int != x {
                        assert(ids[links[j].1 as int] != ids[x]);
                    }
                }
                assert(ok[x]);
                assert(reach_k(links, ok, a, k, x));
            }
        }
    }
}

/// A walk from an index node only reaches index nodes.
proof fn lemma_walk_in_ids(es: Seq<EdgeView>, kinds: Seq<Seq<char>>, d: Direction, ids: Seq<Seq<char>>, a: Seq<char>, k: nat, b: Seq<char>)
    requires
        endpoints_in(es, ids),
        ids.contains(a),
        walk_k(es, kinds, d, a, k, b),
    ensures
        ids.contains(b),
    decreases k,
{
    if k > 0 && !walk_k(es, kinds, d, a, (k - 1) as nat, b) {
        let j = choose|j: int|
            0 <= j < es.len() && #[trigger] takes_to(es[j], kinds, d, b) && walk_k(es, kinds, d, a, (k - 1) as nat, near_end(es[j], d));
        assert(ids.contains(es[j].src) && ids.contains(es[j].tgt));
    } else if k > 0 {
        lemma_walk_in_ids(es, kinds, d, ids, a, (k - 1) as nat, b);
    }
}

/// Where `id` sits among `ids`.
fn position(ids: &Vec<String>, id: &str) -> (r: Option<usize>)
    ensures
        r matches Some(i) ==> i < ids.len() && texts(ids@)[i as int] == id@,
        r is None ==> !texts(ids@).contains(id@),
{
    let mut i: usize = 0;
    while i < ids.len()
        invariant
            i <= ids.len(),
            forall|k: int| 0 <= k < i ==> #[trigger] texts(ids@)[k] != id@,
        decreases ids.len() - i,
    {
        if str_eq(ids[i].as_str(), id) {
            return Some(i);
        }
        i += 1;
    }
    None
}

/// `origin` first, then every endpoint of every edge, each once.
fn endpoint_ids(origin: &str, edges: &Vec<Edge>) -> (ids: Vec<String>)
    ensures
        ids.len() >= 1,
        texts(ids@)[0] == origin@,
        texts(ids@).no_duplicates(),
        endpoints_in(edges_view(edges@), texts(ids@)),
{
    let mut ids: Vec<String> = Vec::new();
    ids.push(crate::text::copy_str(origin));
    let ghost es = edges_view(edges@);
    assert(texts(ids@) =~= seq![origin@]);
    let mut j: usize = 0;
    while j < edges.len()
        invariant
            j <= edges.len(),
            es == edges_view(edges@),
            ids.len() >= 1,
            texts(ids@)[0] == origin@,
            texts(ids@).no_duplicates(),
            forall|i: int| 0 <= i < j ==> texts(ids@).contains(#[trigger] es[i].src) && texts(ids@).contains(es[i].tgt),
        decreases edges.len() - j,
    {
        let ghost before = texts(ids@);
        let src = &edges[j].src;
        let tgt = &edges[j].tgt;
        assert(src@ == es[j as int].src && tgt@ == es[j as int].tgt);
        add_id(&mut ids, src.as_str());
        let ghost mid = texts(ids@);
        add_id(&mut ids, tgt.as_str());
        assert forall|i: int| 0 <= i < j + 1 implies texts(ids@).contains(#[trigger] es[i].src) && texts(ids@).contains(
            es[i].tgt,
        ) by {
            if i < j {
                assert(before.contains(es[i].src));
                assert(before.contains(es[i].tgt));
                assert(mid.contains(es[i].src));
                assert(mid.contains(es[i].tgt));
            } else {
                assert(mid.contains(es[i].src));
            }
        }
        j += 1;
    }
    assert forall|i: int| 0 <= i < es.len() implies texts(ids@).contains(#[trigger] es[i].src) && texts(ids@).contains(
        es[i].tgt,
    ) by {}
    ids
}

/// `id` appended unless already present.
fn add_id(ids: &mut Vec<String>, id: &str)
    requires
        old(ids).len() >= 1,
        texts(old(ids)@).no_duplicates(),
    ensures
        final(ids).len() >= 1,
        texts(final(ids)@)[0] == texts(old(ids)@)[0],
        texts(final(ids)@).no_duplicates(),
        texts(final(ids)@).contains(id@),
        forall|x: Seq<char>| texts(old(ids)@).contains(x) ==> #[trigger] texts(final(ids)@).contains(x),
{
    let ghost before = texts(ids@);
    match position(ids, id) {
        Some(i) => {
            assert(before[i as int] == id@);
        },
        None => {
            ids.push(crate::text::copy_str(id));
            assert(texts(ids@) =~= before.push(id@));
            assert(texts(ids@)[before.len() as int] == id@);
            assert forall|x: Seq<char>| before.contains(x) implies #[trigger] texts(ids@).contains(x) by {
                let i = choose|i: int| 0 <= i < before.len() && before[i] == x;
                assert(texts(ids@)[i] == x);
            }
        },
    }
}

/// Whether the caller's restriction admits `kind`.
fn kind_allowed(kinds: &Vec<String>, kind: &str) -> (r: bool)
    ensures
        r == kind_ok(texts(kinds@), kind@),
{
    if kinds.len() == 0 {
        return true;
    }
    let mut i: usize = 0;
    while i < kinds.len()
        invariant
            i <= kinds.len(),
            forall|k: int| 0 <= k < i ==> #[trigger] texts(kinds@)[k] != kind@,
        decreases kinds.len() - i,
    {
        if str_eq(kinds[i].as_str(), kind) {
            assert(texts(kinds@)[i as int] == kind@);
            return true;
        }
        i += 1;
    }
    false
}

/// One link per edge, over the indices of `ids`.
fn walk_links(ids: &Vec<String>, edges: &Vec<Edge>, kinds: &Vec<String>, d: Direction) -> (links: Vec<(usize, usize)>)
    requires
        endpoints_in(edges_view(edges@), texts(ids@)),
    ensures
        links_follow(edges_view(edges@), texts(kinds@), d, texts(ids@), links@),
{
    let ghost es = edges_view(edges@);
    let mut links: Vec<(usize, usize)> = Vec::new();
    let mut j: usize = 0;
    while j < edges.len()
        invariant
            j <= edges.len(),
            es == edges_view(edges@),
            endpoints_in(es, texts(ids@)),
            links.len() == j,
            forall|i: int|
                0 <= i < j ==> (#[trigger] links@[i]).0 < ids.len() && links@[i].1 < ids.len() && texts(ids@)[links@[i].0 as int]
                    == near_end(es[i], d) && texts(ids@)[links@[i].1 as int] == if kind_ok(texts(kinds@), es[i].kind) {
                    far_end(es[i], d)
                } else {
                    near_end(es[i], d)
                },
        decreases edges.len() - j,
    {
        let e = &edges[j];
        assert(texts(ids@).contains(es[j as int].src) && texts(ids@).contains(es[j as int].tgt));
        let (near, far) = match d {
            Direction::Forward => (e.src.as_str(), e.tgt.as_str()),
            Direction::Reverse => (e.tgt.as_str(), e.src.as_str()),
        };
        let x = match position(ids, near) {
            Some(x) => x,
            None => {
                assert(false);
                0
            },
        };
        let y = if kind_allowed(kinds, e.kind.as_str()) {
            match position(ids, far) {
                Some(y) => y,
                None => {
                    assert(false);
                    0
                },
            }
        } else {
            x
        };
        links.push((x, y));
        j += 1;
    }
    assert(links_ok(ids.len() as nat, links@)) by {
        assert forall|i: int| 0 <= i < links@.len() implies (#[trigger] links@[i]).0 < ids.len() && links@[i].1 < ids.len() by {}
    }
    links
}

fn all_true(n: usize) -> (ok: Vec<bool>)
    ensures
        ok.len() == n,
        all_set(ok@),
{
    let mut ok: Vec<bool> = Vec::new();
    let mut i: usize = 0;
    while i < n
        invariant
            i <= n,
            ok.len() == i,
            all_set(ok@),
        decreases n - i,
    {
        ok.push(true);
        i += 1;
    }
    ok
}

proof fn lemma_ids_where<P>(ns: Seq<NodeView>, k: nat, p: spec_fn(Seq<char>) -> bool)
    requires
        k <= ns.len(),
    ensures
        forall|x: Seq<char>| #[trigger] ids_where(ns, k, p).contains(x) ==> p(x) && declares(ns, x),
    decreases k,
{
    if k > 0 {
        lemma_ids_where::<P>(ns, (k - 1) as nat, p);
        assert forall|x: Seq<char>| #[trigger] ids_where(ns, k, p).contains(x) implies p(x) && declares(ns, x) by {
            let prev = ids_where(ns, (k - 1) as nat, p);
            if p(ns[k - 1].id) && x == ns[k - 1].id {
                assert(ns[k - 1].id == x);
            } else if p(ns[k - 1].id) {
                let i = choose|i: int| 0 <= i < ids_where(ns, k, p).len() && ids_where(ns, k, p)[i] == x;
                assert(ids_where(ns, k, p) == prev.push(ns[k - 1].id));
                assert(prev[i] == x);
                assert(prev.contains(x));
            } else {
                assert(prev.contains(x));
            }
        }
    }
}

proof fn lemma_ids_where_distinct(ns: Seq<NodeView>, k: nat, p: spec_fn(Seq<char>) -> bool)
    requires
        k <= ns.len(),
        crate::graph::ids_unique(ns),
    ensures
        ids_where(ns, k, p).no_duplicates(),
        forall|x: Seq<char>| #[trigger] ids_where(ns, k, p).contains(x) ==> exists|i: int| 0 <= i < k && (#[trigger] ns[i]).id == x,
    decreases k,
{
    if k > 0 {
        lemma_ids_where_distinct(ns, (k - 1) as nat, p);
        let prev = ids_where(ns, (k - 1) as nat, p);
        if p(ns[k - 1].id) {
            let cur = ids_where(ns, k, p);
            assert(cur == prev.push(ns[k - 1].id));
            assert(!prev.contains(ns[k - 1].id)) by {
                if prev.contains(ns[k - 1].id) {
                    let i = choose|i: int| 0 <= i < k - 1 && (#[trigger] ns[i]).id == ns[k - 1].id;
                    assert(ns[i].id != ns[k - 1].id);
                }
            }
            assert forall|x: Seq<char>| #[trigger] cur.contains(x) implies exists|i: int| 0 <= i < k && (#[trigger] ns[i]).id == x by {
                if x != ns[k - 1].id {
                    let i = choose|i: int| 0 <= i < cur.len() && cur[i] == x;
                    assert(prev[i] == x);
                    assert(prev.contains(x));
                }
            }
        }
    }
}

/// The transitive closure from `origin`, excluding the origin itself: the
/// declared nodes a walk along the admitted edges reaches, in ID order.
pub fn reach(graph: &LatticeGraph, profile: &Profile, origin: &str, edge_kinds: &Vec<String>, direction: Direction) -> (r: Result<
    ReachReport,
    QueryError,
>)
    requires
        graph.wf(),
    ensures
        match r {
            Ok(rep) => {
                &&& node_refusal(graph.spec_nodes(), origin@) is None
                &&& kinds_refusal(profile.spec_edge_kinds(), texts(edge_kinds@)) is None
                &&& rep.origin@ == origin@
                &&& rep.direction@ == direction_word(direction)
                &&& texts(rep.edge_kinds@) == texts(edge_kinds@)
                &&& texts_sorted(ref_ids(rep.nodes@))
                &&& ref_ids(rep.nodes@).to_multiset() == reach_ids(
                    graph.spec_nodes(),
                    graph.spec_edges(),
                    texts(edge_kinds@),
                    direction,
                    origin@,
                ).to_multiset()
                &&& forall|i: int|
                    0 <= i < rep.nodes.len() ==> (node_lookup(graph.spec_nodes(), (#[trigger] rep.nodes@[i])@.id) matches Some(n) && n.kind
                        == rep.nodes@[i]@.kind && rep.nodes@[i]@.tainted is None)
            },
            Err(e) => match node_refusal(graph.spec_nodes(), origin@) {
                Some(m) => e.0@ == m,
                None => kinds_refusal(profile.spec_edge_kinds(), texts(edge_kinds@)) == Some(e.0@),
            },
        },
{
    check_node(graph, origin)?;
    check_edge_kinds(profile, edge_kinds)?;
    let edges = graph.iter_edges();
    let nodes = graph.iter_nodes();
    let ghost es = graph.spec_edges();
    let ghost ns = graph.spec_nodes();
    let ghost kv = texts(edge_kinds@);
    let ids = endpoint_ids(origin, edges);
    let ghost iv = texts(ids@);
    let n = ids.len();
    let links = walk_links(&ids, edges, edge_kinds, direction);
    let ok = all_true(n);
    let seen = reach_from(n, &links, &ok, 0);
    proof {
        assert forall|x: int| 0 <= x < n implies #[trigger] seen@[x] == walks(es, kv, direction, origin@, iv[x]) by {
            if seen@[x] {
                let k = choose|k: nat| reach_k(links@, ok@, 0, k, x);
                lemma_links_walk(es, kv, direction, iv, links@, ok@, 0, k);
            }
            if walks(es, kv, direction, origin@, iv[x]) {
                let k = choose|k: nat| walk_k(es, kv, direction, origin@, k, iv[x]);
                lemma_links_walk(es, kv, direction, iv, links@, ok@, 0, k);
                assert(reach_k(links@, ok@, 0, k, x));
            }
        }
    }
    let ghost pred = reached_by_walk(es, kv, direction, origin@);
    let mut picked: Vec<String> = Vec::new();
    let mut i: usize = 0;
    while i < nodes.len()
        invariant
            i <= nodes.len(),
            ns == nodes_view(nodes@),
            n == ids.len(),
            n >= 1,
            seen.len() == n,
            iv == texts(ids@),
            iv[0] == origin@,
            endpoints_in(es, iv),
            forall|x: int| 0 <= x < n ==> #[trigger] seen@[x] == walks(es, kv, direction, origin@, iv[x]),
            texts(picked@) == ids_where(ns, i as nat, pred),
            pred == reached_by_walk(es, kv, direction, origin@),
        decreases nodes.len() - i,
    {
        let id = &nodes[i].id;
        assert(ns[i as int].id == id@);
        let ghost before = texts(picked@);
        let mut take = false;
        if !str_eq(id.as_str(), origin) {
            match position(&ids, id.as_str()) {
                Some(x) => {
                    take = seen[x];
                },
                None => {
                    proof {
                        if walks(es, kv, direction, origin@, id@) {
                            let k = choose|k: nat| walk_k(es, kv, direction, origin@, k, id@);
                            assert(iv.contains(origin@)) by {
                                assert(iv[0] == origin@);
                            }
                            lemma_walk_in_ids(es, kv, direction, iv, origin@, k, id@);
                        }
                    }
                },
            }
        }
        assert(pred(id@) == (id@ != origin@ && walks(es, kv, direction, origin@, id@)));
        assert(take == pred(id@));
        if take {
            picked.push(id.clone());
            assert(texts(picked@) =~= before.push(id@));
        }
        i += 1;
    }
    let sorted = sort_texts(&picked);
    proof {
        lemma_ids_where::<()>(ns, ns.len(), pred);
    }
    let mut refs: Vec<NodeRef> = Vec::new();
    let mut k: usize = 0;
    while k < sorted.len()
        invariant
            k <= sorted.len(),
            refs.len() == k,
            texts(picked@) == ids_where(ns, ns.len(), pred),
            texts(sorted@).to_multiset() == texts(picked@).to_multiset(),
            ns == graph.spec_nodes(),
            forall|x: Seq<char>| #[trigger] ids_where(ns, ns.len(), pred).contains(x) ==> pred(x) && declares(ns, x),
            forall|q: int|
                0 <= q < k ==> (#[trigger] refs@[q])@.id == sorted@[q]@ && (node_lookup(ns, refs@[q]@.id) matches Some(nd) && nd.kind
                    == refs@[q]@.kind && refs@[q]@.tainted is None),
        decreases sorted.len() - k,
    {
        let id = &sorted[k];
        proof {
            let tv = texts(sorted@);
            assert(tv[k as int] == id@);
            assert(tv.contains(id@));
            tv.to_multiset_ensures();
            texts(picked@).to_multiset_ensures();
            assert(tv.to_multiset().count(id@) > 0);
            assert(texts(picked@).to_multiset().count(id@) > 0);
            assert(texts(picked@).contains(id@));
        }
        match graph.node(id.as_str()) {
            Some(nd) => {
                refs.push(NodeRef { id: nd.id.clone(), kind: nd.kind.clone(), tainted: None });
            },
            None => {
                assert(false);
            },
        }
        k += 1;
    }
    proof {
        assert(ref_ids(refs@) =~= texts(sorted@));
    }
    let mut kinds_out: Vec<String> = Vec::new();
    let mut q: usize = 0;
    while q < edge_kinds.len()
        invariant
            q <= edge_kinds.len(),
            kinds_out.len() == q,
            forall|z: int| 0 <= z < q ==> #[trigger] kinds_out@[z]@ == edge_kinds@[z]@,
        decreases edge_kinds.len() - q,
    {
        kinds_out.push(edge_kinds[q].clone());
        q += 1;
    }
    assert(texts(kinds_out@) =~= texts(edge_kinds@));
    let word = match direction {
        Direction::Forward => crate::text::copy_str("reaches"),
        Direction::Reverse => crate::text::copy_str("reached-by"),
    };
    Ok(ReachReport { origin: crate::text::copy_str(origin), direction: word, edge_kinds: kinds_out, nodes: refs })
}


// ---------------------------------------------------------------- orphans

/// Whether some edge names `id` at either end.
pub open spec fn edge_names(es: Seq<EdgeView>, id: Seq<char>) -> bool {
    exists|j: int| 0 <= j < es.len() && #[trigger] names(es[j], id)
}

/// Whether an edge names `id` at either end.
pub open spec fn names(e: EdgeView, id: Seq<char>) -> bool {
    e.src == id || e.tgt == id
}

/// A declared node no edge names, of the asked kind when one is asked.
pub open spec fn is_orphan(es: Seq<EdgeView>, kind: Option<Seq<char>>, n: NodeView) -> bool {
    !edge_names(es, n.id) && match kind {
        Some(k) => n.kind == k,
        None => true,
    }
}

/// The IDs of the orphans among the first `m` nodes, in node order.
pub open spec fn orphan_ids(ns: Seq<NodeView>, es: Seq<EdgeView>, kind: Option<Seq<char>>, m: nat) -> Seq<Seq<char>>
    decreases m,
{
    if m == 0 || m > ns.len() {
        Seq::empty()
    } else if is_orphan(es, kind, ns[m - 1]) {
        orphan_ids(ns, es, kind, (m - 1) as nat).push(ns[m - 1].id)
    } else {
        orphan_ids(ns, es, kind, (m - 1) as nat)
    }
}

/// Why a node kind cannot be asked about.
pub open spec fn node_kind_refusal(nks: Seq<(String, NodeKind)>, kind: Seq<char>) -> Option<Seq<char>> {
    if assoc(nks, kind) is Some {
        None
    } else {
        Some("unknown node kind '"@ + kind + "': the profile declares "@ + debug_list_text(keys_of(nks)))
    }
}

pub open spec fn opt_str(o: Option<&str>) -> Option<Seq<char>> {
    match o {
        Some(s) => Some(s@),
        None => None,
    }
}

pub open spec fn orphan_entry_ids(s: Seq<OrphanEntry>) -> Seq<Seq<char>> {
    s.map_values(|e: OrphanEntry| e@.id)
}

proof fn lemma_orphan_ids(ns: Seq<NodeView>, es: Seq<EdgeView>, kind: Option<Seq<char>>, m: nat)
    requires
        m <= ns.len(),
    ensures
        forall|x: Seq<char>| #[trigger] orphan_ids(ns, es, kind, m).contains(x) ==> exists|i: int|
            0 <= i < m && (#[trigger] ns[i]).id == x && is_orphan(es, kind, ns[i]),
    decreases m,
{
    if m > 0 {
        lemma_orphan_ids(ns, es, kind, (m - 1) as nat);
        let prev = orphan_ids(ns, es, kind, (m - 1) as nat);
        assert forall|x: Seq<char>| #[trigger] orphan_ids(ns, es, kind, m).contains(x) implies exists|i: int|
            0 <= i < m && (#[trigger] ns[i]).id == x && is_orphan(es, kind, ns[i]) by {
            let cur = orphan_ids(ns, es, kind, m);
            if is_orphan(es, kind, ns[m - 1]) && x == ns[m - 1].id {
                assert(ns[m - 1].id == x);
            } else {
                let i = choose|i: int| 0 <= i < cur.len() && cur[i] == x;
                if is_orphan(es, kind, ns[m - 1]) {
                    assert(cur == prev.push(ns[m - 1].id));
                    assert(prev[i] == x);
                }
                assert(prev.contains(x));
            }
        }
    }
}

/// Whether some edge names `id`.
fn named_by_edge(edges: &Vec<Edge>, id: &str) -> (r: bool)
    ensures
        r == edge_names(edges_view(edges@), id@),
{
    let ghost es = edges_view(edges@);
    let mut j: usize = 0;
    while j < edges.len()
        invariant
            j <= edges.len(),
            es == edges_view(edges@),
            forall|i: int| 0 <= i < j ==> !#[trigger] names(es[i], id@),
        decreases edges.len() - j,
    {
        if str_eq(edges[j].src.as_str(), id) || str_eq(edges[j].tgt.as_str(), id) {
            assert(names(es[j as int], id@));
            return true;
        }
        j += 1;
    }
    false
}

/// Every declared node no edge names, ordered by ID; an edge counts for a node
/// whenever it names that node's ID, even when its far end was never declared.
pub fn orphans(graph: &LatticeGraph, profile: &Profile, kind: Option<&str>) -> (r: Result<OrphansReport, QueryError>)
    requires
        graph.wf(),
    ensures
        match r {
            Ok(rep) => {
                &&& (kind matches Some(k) ==> node_kind_refusal(profile.spec_node_kinds(), k@) is None)
                &&& opt_str(kind) == match rep.kind_filter {
                    Some(f) => Some(f@),
                    None => None::<Seq<char>>,
                }
                &&& texts_sorted(orphan_entry_ids(rep.orphans@))
                &&& orphan_entry_ids(rep.orphans@).to_multiset() == orphan_ids(
                    graph.spec_nodes(),
                    graph.spec_edges(),
                    opt_str(kind),
                    graph.spec_nodes().len(),
                ).to_multiset()
                &&& forall|i: int|
                    0 <= i < rep.orphans.len() ==> (node_lookup(graph.spec_nodes(), (#[trigger] rep.orphans@[i])@.id) matches Some(n)
                        && n.kind == rep.orphans@[i]@.kind && n.provenance == rep.orphans@[i]@.provenance)
            },
            Err(e) => kind matches Some(k) && node_kind_refusal(profile.spec_node_kinds(), k@) == Some(e.0@),
        },
{
    if let Some(k) = kind {
        if !assoc_has(profile.node_kinds(), k) {
            let keys = assoc_keys(profile.node_kinds());
            let listed = debug_list(&keys);
            let message = msg5("unknown node kind '", k, "': the profile declares ", listed.as_str(), "");
            proof {
                reveal_strlit("");
                assert(message@ =~= "unknown node kind '"@ + k@ + "': the profile declares "@ + debug_list_text(
                    keys_of(profile.spec_node_kinds()),
                ));
            }
            return Err(QueryError(message));
        }
    }
    let nodes = graph.iter_nodes();
    let edges = graph.iter_edges();
    let ghost ns = graph.spec_nodes();
    let ghost es = graph.spec_edges();
    let ghost kv = opt_str(kind);
    let mut picked: Vec<String> = Vec::new();
    let mut i: usize = 0;
    while i < nodes.len()
        invariant
            i <= nodes.len(),
            ns == nodes_view(nodes@),
            es == edges_view(edges@),
            kv == opt_str(kind),
            texts(picked@) == orphan_ids(ns, es, kv, i as nat),
        decreases nodes.len() - i,
    {
        let node = &nodes[i];
        assert(ns[i as int] == node@);
        let kind_fits = match kind {
            Some(k) => str_eq(node.kind.as_str(), k),
            None => true,
        };
        let ghost before = texts(picked@);
        if !named_by_edge(edges, node.id.as_str()) && kind_fits {
            picked.push(node.id.clone());
            assert(texts(picked@) =~= before.push(node.id@));
        }
        i += 1;
    }
    let sorted = sort_texts(&picked);
    proof {
        lemma_orphan_ids(ns, es, kv, ns.len());
    }
    let mut entries: Vec<OrphanEntry> = Vec::new();
    let mut q: usize = 0;
    while q < sorted.len()
        invariant
            q <= sorted.len(),
            entries.len() == q,
            ns == graph.spec_nodes(),
            crate::graph::ids_unique(ns),
            texts(picked@) == orphan_ids(ns, es, kv, ns.len()),
            texts(sorted@).to_multiset() == texts(picked@).to_multiset(),
            forall|x: Seq<char>| #[trigger] orphan_ids(ns, es, kv, ns.len()).contains(x) ==> exists|i: int|
                0 <= i < ns.len() && (#[trigger] ns[i]).id == x && is_orphan(es, kv, ns[i]),
            forall|z: int|
                0 <= z < q ==> (#[trigger] entries@[z])@.id == sorted@[z]@ && (node_lookup(ns, entries@[z]@.id) matches Some(n)
                    && n.kind == entries@[z]@.kind && n.provenance == entries@[z]@.provenance),
        decreases sorted.len() - q,
    {
        let id = &sorted[q];
        proof {
            let tv = texts(sorted@);
            assert(tv[q as int] == id@);
            assert(tv.contains(id@));
            tv.to_multiset_ensures();
            texts(picked@).to_multiset_ensures();
            assert(tv.to_multiset().count(id@) > 0);
            assert(texts(picked@).to_multiset().count(id@) > 0);
            assert(texts(picked@).contains(id@));
            let w = choose|w: int| 0 <= w < ns.len() && (#[trigger] ns[w]).id == id@ && is_orphan(es, kv, ns[w]);
            assert(declares(ns, id@));
        }
        match graph.node(id.as_str()) {
            Some(nd) => {
                entries.push(OrphanEntry { id: nd.id.clone(), kind: nd.kind.clone(), provenance: nd.provenance.copy() });
            },
            None => {
                assert(false);
            },
        }
        q += 1;
    }
    assert(orphan_entry_ids(entries@) =~= texts(sorted@));
    let filter = match kind {
        Some(k) => Some(crate::text::copy_str(k)),
        None => None,
    };
    Ok(OrphansReport { kind_filter: filter, orphans: entries })
}

// ---------------------------------------------------------------- counts

/// The kinds of the nodes, in node order.
pub open spec fn node_kind_list(ns: Seq<NodeView>) -> Seq<Seq<char>> {
    ns.map_values(|n: NodeView| n.kind)
}

/// The kinds of the edges, in edge order.
pub open spec fn edge_kind_list(es: Seq<EdgeView>) -> Seq<Seq<char>> {
    es.map_values(|e: EdgeView| e.kind)
}

/// A tally keyed by kind: every declared kind, and every kind that occurs,
/// holds how often it occurs.
pub open spec fn tallies<V>(t: Seq<(String, i64)>, declared: Seq<(String, V)>, ks: Seq<Seq<char>>) -> bool {
    &&& keys_sorted(t)
    &&& forall|k: Seq<char>|
        #[trigger] assoc(t, k) == if assoc(declared, k) is Some || ks.to_multiset().count(k) > 0 {
            Some(ks.to_multiset().count(k) as i64)
        } else {
            None
        }
}

/// The declared kinds, each at zero.
fn zeroes<V>(declared: &Vec<(String, V)>) -> (t: Vec<(String, i64)>)
    requires
        keys_sorted(declared@),
    ensures
        keys_sorted(t@),
        keys_of(t@) == keys_of(declared@),
        forall|k: Seq<char>| #[trigger] assoc(t@, k) == if assoc(declared@, k) is Some { Some(0i64) } else { None },
{
    let mut t: Vec<(String, i64)> = Vec::new();
    let mut i: usize = 0;
    while i < declared.len()
        invariant
            i <= declared.len(),
            t.len() == i,
            forall|z: int| 0 <= z < i ==> (#[trigger] t@[z]).0@ == declared@[z].0@ && t@[z].1 == 0,
        decreases declared.len() - i,
    {
        t.push((declared[i].0.clone(), 0));
        i += 1;
    }
    assert(keys_of(t@) =~= keys_of(declared@));
    assert forall|k: Seq<char>| #[trigger] assoc(t@, k) == if assoc(declared@, k) is Some { Some(0i64) } else { None } by {
        crate::seqs::lemma_first_index(keys_of(t@), crate::graph::same_text(k));
    }
    t
}

/// Add one occurrence of each kind in `ks[from..]`.
fn tally_kinds<V>(t: &mut Vec<(String, i64)>, declared: &Vec<(String, V)>, kinds: &Vec<&str>)
    requires
        keys_sorted(old(t)@),
        kinds.len() <= i64::MAX,
        forall|k: Seq<char>| #[trigger] assoc(old(t)@, k) == if assoc(declared@, k) is Some { Some(0i64) } else { None },
    ensures
        tallies(final(t)@, declared@, kinds@.map_values(|s: &str| s@)),
{
    let ghost kv = kinds@.map_values(|s: &str| s@);
    let mut i: usize = 0;
    assert forall|k: Seq<char>| #[trigger] kv.take(0).to_multiset().count(k) == 0 by {
        kv.take(0).to_multiset_ensures();
        if kv.take(0).to_multiset().count(k) > 0 {
            assert(kv.take(0).contains(k));
        }
    }
    while i < kinds.len()
        invariant
            i <= kinds.len(),
            kinds.len() <= i64::MAX,
            kv == kinds@.map_values(|s: &str| s@),
            keys_sorted(t@),
            forall|k: Seq<char>|
                #[trigger] assoc(t@, k) == if assoc(declared@, k) is Some || kv.take(i as int).to_multiset().count(k) > 0 {
                    Some(kv.take(i as int).to_multiset().count(k) as i64)
                } else {
                    None
                },
            forall|k: Seq<char>| #[trigger] kv.take(i as int).to_multiset().count(k) <= i,
        decreases kinds.len() - i,
    {
        let k = kinds[i];
        let ghost before = kv.take(i as int);
        proof {
            assert(kv.take(i + 1) =~= before.push(k@));
            before.to_multiset_ensures();
            assert(before.to_multiset().count(k@) <= i);
        }
        sorted_bump(t, k);
        i += 1;
        proof {
            let now = kv.take(i as int);
            assert(now.to_multiset() =~= before.to_multiset().insert(k@));
            assert forall|o: Seq<char>| #[trigger] now.to_multiset().count(o) <= i by {
                assert(before.to_multiset().count(o) <= i - 1);
            }
        }
    }
    assert(kv.take(kinds.len() as int) =~= kv);
}

/// Per-kind node and edge tallies: every kind the profile declares, at zero
/// when nothing carries it, and every kind the register carries.
pub fn counts(graph: &LatticeGraph, profile: &Profile) -> (rep: CountsReport)
    requires
        graph.wf(),
        profile.wf(),
        graph.spec_nodes().len() <= i64::MAX,
        graph.spec_edges().len() <= i64::MAX,
    ensures
        tallies(rep.nodes@, profile.spec_node_kinds(), node_kind_list(graph.spec_nodes())),
        tallies(rep.edges@, profile.spec_edge_kinds(), edge_kind_list(graph.spec_edges())),
{
    proof {
        crate::profile::lemma_profile_kinds_sorted(profile);
    }
    let nodes = graph.iter_nodes();
    let edges = graph.iter_edges();
    let mut node_kinds: Vec<&str> = Vec::new();
    let mut i: usize = 0;
    while i < nodes.len()
        invariant
            i <= nodes.len(),
            node_kinds.len() == i,
            forall|z: int| 0 <= z < i ==> (#[trigger] node_kinds@[z])@ == nodes@[z].kind@,
        decreases nodes.len() - i,
    {
        node_kinds.push(nodes[i].kind.as_str());
        i += 1;
    }
    assert(node_kinds@.map_values(|s: &str| s@) =~= node_kind_list(graph.spec_nodes()));
    let mut edge_kinds: Vec<&str> = Vec::new();
    let mut j: usize = 0;
    while j < edges.len()
        invariant
            j <= edges.len(),
            edge_kinds.len() == j,
            forall|z: int| 0 <= z < j ==> (#[trigger] edge_kinds@[z])@ == edges@[z].kind@,
        decreases edges.len() - j,
    {
        edge_kinds.push(edges[j].kind.as_str());
        j += 1;
    }
    assert(edge_kinds@.map_values(|s: &str| s@) =~= edge_kind_list(graph.spec_edges()));
    let mut node_tally = zeroes(profile.node_kinds());
    tally_kinds(&mut node_tally, profile.node_kinds(), &node_kinds);
    let mut edge_tally = zeroes(profile.edge_kinds());
    tally_kinds(&mut edge_tally, profile.edge_kinds(), &edge_kinds);
    CountsReport { nodes: node_tally, edges: edge_tally }
}


// ---------------------------------------------------------------- paths

enum PathOutcome {
    Found { nodes: Vec<String>, edges: Vec<String> },
    NotFound,
}

/// Path answer: either a validated path or a not-connected result.
pub struct PathReport {
    src: String,
    tgt: String,
    outcome: PathOutcome,
}

/// Why a node and edge sequence is no path from `src` to `tgt`.
pub open spec fn found_refusal(nodes: Seq<Seq<char>>, edges: Seq<Seq<char>>, src: Seq<char>, tgt: Seq<char>) -> Option<
    Seq<char>,
> {
    if nodes.len() == 0 {
        Some("a found path must contain at least one node"@)
    } else if edges.len() + 1 != nodes.len() {
        Some("a found path must have one fewer edge than nodes"@)
    } else if nodes[0] != src {
        Some("first node must equal src"@)
    } else if nodes.last() != tgt {
        Some("last node must equal tgt"@)
    } else {
        None
    }
}

impl PathReport {
    pub closed spec fn spec_src(&self) -> Seq<char> {
        self.src@
    }

    pub closed spec fn spec_tgt(&self) -> Seq<char> {
        self.tgt@
    }

    /// The nodes and the edge kinds between them, when a path was found.
    pub closed spec fn spec_found(&self) -> Option<(Seq<Seq<char>>, Seq<Seq<char>>)> {
        match &self.outcome {
            PathOutcome::Found { nodes, edges } => Some((texts(nodes@), texts(edges@))),
            PathOutcome::NotFound => None,
        }
    }

    /// A found result, when nodes and intervening edges form a path from
    /// `src` to `tgt`.
    pub fn found(src: String, tgt: String, nodes: Vec<String>, edges: Vec<String>) -> (r: Result<PathReport, &'static str>)
        ensures
            match r {
                Ok(p) => found_refusal(texts(nodes@), texts(edges@), src@, tgt@) is None && p.spec_src() == src@
                    && p.spec_tgt() == tgt@ && p.spec_found() == Some((texts(nodes@), texts(edges@))),
                Err(m) => found_refusal(texts(nodes@), texts(edges@), src@, tgt@) == Some(m@),
            },
    {
        if nodes.len() == 0 {
            return Err("a found path must contain at least one node");
        }
        if edges.len() != nodes.len() - 1 {
            return Err("a found path must have one fewer edge than nodes");
        }
        assert(texts(nodes@)[0] == nodes@[0]@);
        if !str_eq(nodes[0].as_str(), src.as_str()) {
            return Err("first node must equal src");
        }
        assert(texts(nodes@).last() == nodes@[nodes.len() - 1]@);
        if !str_eq(nodes[nodes.len() - 1].as_str(), tgt.as_str()) {
            return Err("last node must equal tgt");
        }
        Ok(PathReport { src, tgt, outcome: PathOutcome::Found { nodes, edges } })
    }

    /// A not-connected result.
    pub fn not_found(src: String, tgt: String) -> (p: PathReport)
        ensures
            p.spec_src() == src@,
            p.spec_tgt() == tgt@,
            p.spec_found() is None,
    {
        PathReport { src, tgt, outcome: PathOutcome::NotFound }
    }

    pub fn src(&self) -> (r: &str)
        ensures
            r@ == self.spec_src(),
    {
        self.src.as_str()
    }

    pub fn tgt(&self) -> (r: &str)
        ensures
            r@ == self.spec_tgt(),
    {
        self.tgt.as_str()
    }

    /// The nodes and edge kinds of a found path.
    pub fn found_path(&self) -> (r: Option<(&[String], &[String])>)
        ensures
            match r {
                Some((n, e)) => self.spec_found() == Some((texts(n@), texts(e@))),
                None => self.spec_found() is None,
            },
    {
        match &self.outcome {
            PathOutcome::Found { nodes, edges } => Some((nodes.as_slice(), edges.as_slice())),
            PathOutcome::NotFound => None,
        }
    }
}

/// An admitted edge from `a` to `b`.
pub open spec fn edge_step(e: EdgeView, kinds: Seq<Seq<char>>, a: Seq<char>, b: Seq<char>) -> bool {
    kind_ok(kinds, e.kind) && e.src == a && e.tgt == b
}

/// Whether some admitted edge runs from `a` to `b`.
pub open spec fn step_ok(es: Seq<EdgeView>, kinds: Seq<Seq<char>>, a: Seq<char>, b: Seq<char>) -> bool {
    exists|j: int| 0 <= j < es.len() && #[trigger] edge_step(es[j], kinds, a, b)
}

/// Whether the `i`-th and next nodes of `w` are joined by an admitted edge.
pub open spec fn link_at(es: Seq<EdgeView>, kinds: Seq<Seq<char>>, w: Seq<Seq<char>>, i: int) -> bool {
    step_ok(es, kinds, w[i], w[i + 1])
}

/// A walk along admitted edges from `a` to `b`, as its sequence of nodes.
pub open spec fn is_walk(es: Seq<EdgeView>, kinds: Seq<Seq<char>>, w: Seq<Seq<char>>, a: Seq<char>, b: Seq<char>) -> bool {
    &&& w.len() >= 1
    &&& w[0] == a
    &&& w.last() == b
    &&& forall|i: int| 0 <= i < w.len() - 1 ==> #[trigger] link_at(es, kinds, w, i)
}

/// `v` comes before `w` when, at the first place they differ, its node ID is
/// the smaller one.
pub open spec fn lex_lt(v: Seq<Seq<char>>, w: Seq<Seq<char>>) -> bool {
    exists|i: int| 0 <= i < v.len() && i < w.len() && v.take(i) == w.take(i) && #[trigger] text_lt(v[i], w[i])
}

/// The walk a path question answers: a shortest walk, and among the shortest
/// the first in ID order.
pub open spec fn best_walk(es: Seq<EdgeView>, kinds: Seq<Seq<char>>, a: Seq<char>, b: Seq<char>, w: Seq<Seq<char>>) -> bool {
    &&& is_walk(es, kinds, w, a, b)
    &&& forall|v: Seq<Seq<char>>| #[trigger]
        is_walk(es, kinds, v, a, b) ==> w.len() <= v.len() && (v.len() == w.len() ==> !lex_lt(v, w))
}

/// `k` is the least kind among the admitted edges from `a` to `b`.
pub open spec fn least_kind(es: Seq<EdgeView>, kinds: Seq<Seq<char>>, a: Seq<char>, b: Seq<char>, k: Seq<char>) -> bool {
    &&& exists|j: int| 0 <= j < es.len() && #[trigger] edge_step(es[j], kinds, a, b) && es[j].kind == k
    &&& forall|j: int| 0 <= j < es.len() && #[trigger] edge_step(es[j], kinds, a, b) ==> !text_lt(es[j].kind, k)
}

/// The edge kind named between the `z`-th and next node is the least one.
pub open spec fn least_kind_at(es: Seq<EdgeView>, kinds: Seq<Seq<char>>, w: Seq<Seq<char>>, ks: Seq<Seq<char>>, z: int) -> bool {
    least_kind(es, kinds, w[z], w[z + 1], ks[z])
}

/// The node after the `z`-th is the least of those from which `t` can still
/// be reached in the steps left.
pub open spec fn greedy_ok(es: Seq<EdgeView>, kinds: Seq<Seq<char>>, t: Seq<char>, w: Seq<Seq<char>>, dd: int, z: int) -> bool {
    forall|u: Seq<char>|
        #[trigger] step_ok(es, kinds, w[z], u) && walk_k(es, kinds, Direction::Reverse, t, (dd - z - 1) as nat, u) ==> !text_lt(
            u,
            w[z + 1],
        )
}

proof fn lemma_walk_mono(es: Seq<EdgeView>, kinds: Seq<Seq<char>>, d: Direction, a: Seq<char>, k: nat, m: nat, b: Seq<char>)
    requires
        k <= m,
        walk_k(es, kinds, d, a, k, b),
    ensures
        walk_k(es, kinds, d, a, m, b),
    decreases m - k,
{
    if k < m {
        lemma_walk_mono(es, kinds, d, a, k, (m - 1) as nat, b);
    }
}

/// A walk to `t` of `L` steps is a reverse walk from `t` of at most `L` steps.
proof fn lemma_walk_back(es: Seq<EdgeView>, kinds: Seq<Seq<char>>, w: Seq<Seq<char>>, b: Seq<char>, t: Seq<char>)
    requires
        is_walk(es, kinds, w, b, t),
    ensures
        walk_k(es, kinds, Direction::Reverse, t, (w.len() - 1) as nat, b),
    decreases w.len(),
{
    if w.len() > 1 {
        let w2 = w.drop_first();
        assert forall|i: int| 0 <= i < w2.len() - 1 implies #[trigger] link_at(es, kinds, w2, i) by {
            assert(link_at(es, kinds, w, i + 1));
            assert(w2[i] == w[i + 1] && w2[i + 1] == w[i + 2]);
        }
        assert(w2.last() == w.last());
        lemma_walk_back(es, kinds, w2, w[1], t);
        assert(link_at(es, kinds, w, 0));
        let j = choose|j: int| 0 <= j < es.len() && #[trigger] edge_step(es[j], kinds, w[0], w[1]);
        assert(takes_to(es[j], kinds, Direction::Reverse, b));
        assert(near_end(es[j], Direction::Reverse) == w[1]);
    }
}

/// What follows position `i` of a walk is a walk.
proof fn lemma_walk_suffix(es: Seq<EdgeView>, kinds: Seq<Seq<char>>, w: Seq<Seq<char>>, a: Seq<char>, t: Seq<char>, i: int)
    requires
        is_walk(es, kinds, w, a, t),
        0 <= i < w.len(),
    ensures
        is_walk(es, kinds, w.skip(i), w[i], t),
{
    let s = w.skip(i);
    assert forall|z: int| 0 <= z < s.len() - 1 implies #[trigger] link_at(es, kinds, s, z) by {
        assert(link_at(es, kinds, w, z + i));
        assert(s[z] == w[z + i] && s[z + 1] == w[z + i + 1]);
    }
}

/// A walk that ends at `t` reaches it through an edge, unless it starts there.
proof fn lemma_walk_last_step(es: Seq<EdgeView>, kinds: Seq<Seq<char>>, w: Seq<Seq<char>>, a: Seq<char>, t: Seq<char>)
    requires
        is_walk(es, kinds, w, a, t),
        a != t,
    ensures
        exists|j: int| 0 <= j < es.len() && (#[trigger] es[j]).tgt == t,
{
    assert(w.len() >= 2);
    assert(link_at(es, kinds, w, w.len() - 2));
    let j = choose|j: int| 0 <= j < es.len() && #[trigger] edge_step(es[j], kinds, w[w.len() - 2], w[w.len() - 1]);
    assert(es[j].tgt == t);
}

/// Whether edge `j` leads on from `ids[c]` to a node from which `t` is
/// reached in at most `m` steps.
pub open spec fn leads_on(es: Seq<EdgeView>, kinds: Seq<Seq<char>>, from: Seq<char>, t: Seq<char>, m: nat, j: int) -> bool {
    kind_ok(kinds, es[j].kind) && es[j].src == from && walk_k(es, kinds, Direction::Reverse, t, m, es[j].tgt)
}

/// The distance facts `distances` gives, over the reverse links toward `it`.
pub open spec fn dist_facts(links: Seq<(usize, usize)>, ok: Seq<bool>, it: int, d: Seq<Option<usize>>) -> bool {
    forall|b: int|
        0 <= b < d.len() ==> match #[trigger] d[b] {
            Some(m) => reach_k(links, ok, it, m as nat, b) && forall|m2: nat|
                m2 < m ==> !#[trigger] reach_k(links, ok, it, m2, b),
            None => !reachable(links, ok, it, b),
        }
}

/// One shortest path from `src` to `tgt` along outgoing edges; among the
/// shortest, the one through the earliest node IDs, each step naming the
/// least edge kind that takes it.
pub fn path(graph: &LatticeGraph, profile: &Profile, src: &str, tgt: &str, edge_kinds: &Vec<String>) -> (r: Result<
    PathReport,
    QueryError,
>)
    requires
        graph.wf(),
    ensures
        match r {
            Ok(rep) => {
                &&& node_refusal(graph.spec_nodes(), src@) is None
                &&& node_refusal(graph.spec_nodes(), tgt@) is None
                &&& kinds_refusal(profile.spec_edge_kinds(), texts(edge_kinds@)) is None
                &&& rep.spec_src() == src@
                &&& rep.spec_tgt() == tgt@
                &&& match rep.spec_found() {
                    Some((nodes, ks)) => {
                        &&& best_walk(graph.spec_edges(), texts(edge_kinds@), src@, tgt@, nodes)
                        &&& ks.len() + 1 == nodes.len()
                        &&& forall|z: int|
                            0 <= z < ks.len() ==> #[trigger] least_kind_at(graph.spec_edges(), texts(edge_kinds@), nodes, ks, z)
                    },
                    None => forall|w: Seq<Seq<char>>| !#[trigger] is_walk(graph.spec_edges(), texts(edge_kinds@), w, src@, tgt@),
                }
            },
            Err(e) => match node_refusal(graph.spec_nodes(), src@) {
                Some(m) => e.0@ == m,
                None => match node_refusal(graph.spec_nodes(), tgt@) {
                    Some(m) => e.0@ == m,
                    None => kinds_refusal(profile.spec_edge_kinds(), texts(edge_kinds@)) == Some(e.0@),
                },
            },
        },
{
    check_node(graph, src)?;
    check_node(graph, tgt)?;
    check_edge_kinds(profile, edge_kinds)?;
    let edges = graph.iter_edges();
    let ghost es = graph.spec_edges();
    let ghost kv = texts(edge_kinds@);
    if str_eq(src, tgt) {
        let mut nodes: Vec<String> = Vec::new();
        nodes.push(copy_str(src));
        let kinds_out: Vec<String> = Vec::new();
        proof {
            let w = texts(nodes@);
            assert(w =~= seq![src@]);
            assert forall|v: Seq<Seq<char>>| #[trigger]
                is_walk(es, kv, v, src@, tgt@) implies w.len() <= v.len() && (v.len() == w.len() ==> !lex_lt(v, w)) by {
                if v.len() == w.len() && lex_lt(v, w) {
                    let i = choose|i: int| 0 <= i < v.len() && i < w.len() && v.take(i) == w.take(i) && #[trigger] text_lt(v[i], w[i]);
                    lemma_text_lt_irreflexive(src@);
                }
            }
        }
        return match PathReport::found(copy_str(src), copy_str(tgt), nodes, kinds_out) {
            Ok(p) => Ok(p),
            Err(m) => Err(QueryError(copy_str(m))),
        };
    }
    let ids = endpoint_ids(src, edges);
    let ghost iv = texts(ids@);
    let n = ids.len();
    let it = match position(&ids, tgt) {
        Some(it) => it,
        None => {
            proof {
                assert forall|w: Seq<Seq<char>>| !#[trigger] is_walk(es, kv, w, src@, tgt@) by {
                    if is_walk(es, kv, w, src@, tgt@) {
                        lemma_walk_last_step(es, kv, w, src@, tgt@);
                        let j = choose|j: int| 0 <= j < es.len() && (#[trigger] es[j]).tgt == tgt@;
                        assert(iv.contains(es[j].src));
                        assert(iv.contains(es[j].tgt));
                    }
                }
            }
            return Ok(PathReport::not_found(copy_str(src), copy_str(tgt)));
        },
    };
    let rev = walk_links(&ids, edges, edge_kinds, Direction::Reverse);
    let ok = all_true(n);
    let dist = distances(n, &rev, &ok, it);
    assert(dist_facts(rev@, ok@, it as int, dist@));
    let total = match dist[0] {
        Some(total) => total,
        None => {
            proof {
                assert forall|w: Seq<Seq<char>>| !#[trigger] is_walk(es, kv, w, src@, tgt@) by {
                    if is_walk(es, kv, w, src@, tgt@) {
                        lemma_walk_back(es, kv, w, src@, tgt@);
                        lemma_links_walk(es, kv, Direction::Reverse, iv, rev@, ok@, it as int, (w.len() - 1) as nat);
                        assert(reach_k(rev@, ok@, it as int, (w.len() - 1) as nat, 0));
                    }
                }
            }
            return Ok(PathReport::not_found(copy_str(src), copy_str(tgt)));
        },
    };
    let ghost dd = total as int;
    let mut nodes: Vec<String> = Vec::new();
    nodes.push(copy_str(src));
    let mut kinds_out: Vec<String> = Vec::new();
    let mut c: usize = 0;
    let mut rem: usize = total;
    assert(texts(nodes@) =~= seq![src@]);
    while rem > 0
        invariant
            n == ids.len(),
            iv == texts(ids@),
            iv.no_duplicates(),
            iv[0] == src@,
            it < n,
            iv[it as int] == tgt@,
            es == edges_view(edges@),
            kv == texts(edge_kinds@),
            endpoints_in(es, iv),
            links_follow(es, kv, Direction::Reverse, iv, rev@),
            ok.len() == n,
            all_set(ok@),
            dist.len() == n,
            dist_facts(rev@, ok@, it as int, dist@),
            dd == total,
            c < n,
            rem <= total,
            dist@[c as int] == Some(rem),
            nodes.len() + rem == total + 1,
            kinds_out.len() + 1 == nodes.len(),
            is_walk(es, kv, texts(nodes@), src@, iv[c as int]),
            forall|z: int| 0 <= z < nodes.len() - 1 ==> #[trigger] greedy_ok(es, kv, tgt@, texts(nodes@), dd, z),
            forall|z: int| 0 <= z < kinds_out.len() ==> #[trigger] least_kind_at(es, kv, texts(nodes@), texts(kinds_out@), z),
        decreases rem,
    {
        let ghost m1: nat = (rem - 1) as nat;
        let ghost from = iv[c as int];
        proof {
            lemma_links_walk(es, kv, Direction::Reverse, iv, rev@, ok@, it as int, m1);
        }
        let mut best: Option<(usize, usize)> = None;
        let mut j: usize = 0;
        while j < edges.len()
            invariant
                j <= edges.len(),
                n == ids.len(),
                iv == texts(ids@),
                iv.no_duplicates(),
                es == edges_view(edges@),
                kv == texts(edge_kinds@),
                links_follow(es, kv, Direction::Reverse, iv, rev@),
                ok.len() == n,
                all_set(ok@),
                dist.len() == n,
                dist_facts(rev@, ok@, it as int, dist@),
                c < n,
                it < n,
                0 < rem,
                m1 == rem - 1,
                from == iv[c as int],
                forall|x: int| 0 <= x < n ==> (#[trigger] reach_k(rev@, ok@, it as int, m1, x) <==> walk_k(es, kv, Direction::Reverse, iv[it as int], m1, iv[x])),
                iv[it as int] == tgt@,
                match best {
                    None => forall|q: int| 0 <= q < j ==> !#[trigger] leads_on(es, kv, from, tgt@, m1, q),
                    Some((v, jb)) => {
                        &&& jb < j
                        &&& leads_on(es, kv, from, tgt@, m1, jb as int)
                        &&& v == rev@[jb as int].0
                        &&& forall|q: int|
                            0 <= q < j && #[trigger] leads_on(es, kv, from, tgt@, m1, q) ==> !text_lt(es[q].tgt, es[jb as int].tgt) && (
                            es[q].tgt == es[jb as int].tgt ==> !text_lt(es[q].kind, es[jb as int].kind))
                    },
                },
            decreases edges.len() - j,
        {
            let (y, x) = rev[j];
            assert(rev@[j as int] == (y, x));
            assert(iv[y as int] == es[j as int].tgt);
            let mut cand = false;
            if kind_allowed(edge_kinds, edges[j].kind.as_str()) && x == c {
                match dist[y] {
                    Some(m) => {
                        cand = m < rem;
                    },
                    None => {},
                }
            }
            proof {
                let e = es[j as int];
                if kind_ok(kv, e.kind) && e.src == from {
                    assert(iv[x as int] == e.src);
                    assert(x == c) by {
                        if x != c {
                            assert(iv[x as int] != iv[c as int]);
                        }
                    }
                }
                if kind_ok(kv, e.kind) && x == c {
                    assert(iv[x as int] == e.src);
                }
                if walk_k(es, kv, Direction::Reverse, tgt@, m1, e.tgt) {
                    assert(reach_k(rev@, ok@, it as int, m1, y as int));
                    match dist@[y as int] {
                        Some(m) => {
                            if m > m1 {
                                assert(!reach_k(rev@, ok@, it as int, m1, y as int));
                            }
                        },
                        None => {
                            assert(reachable(rev@, ok@, it as int, y as int));
                        },
                    }
                }
                match dist@[y as int] {
                    Some(m) => {
                        if m <= m1 {
                            lemma_reach_mono(rev@, ok@, it as int, m as nat, m1, y as int);
                        }
                    },
                    None => {},
                }
                assert(cand == leads_on(es, kv, from, tgt@, m1, j as int));
            }
            if cand {
                match best {
                    None => {
                        proof {
                            lemma_text_lt_irreflexive(es[j as int].tgt);
                            lemma_text_lt_irreflexive(es[j as int].kind);
                        }
                        best = Some((y, j));
                    },
                    Some((bv, jb)) => {
                        let order = compare_text(edges[j].tgt.as_str(), edges[jb].tgt.as_str());
                        let better = if order == -1 {
                            true
                        } else if order == 0 {
                            compare_text(edges[j].kind.as_str(), edges[jb].kind.as_str()) == -1
                        } else {
                            false
                        };
                        proof {
                            let ej = es[j as int];
                            let eb = es[jb as int];
                            lemma_text_lt_irreflexive(ej.tgt);
                            lemma_text_lt_irreflexive(ej.kind);
                            if order == 1 {
                                if text_lt(ej.tgt, eb.tgt) {
                                    lemma_text_lt_transitive(ej.tgt, eb.tgt, ej.tgt);
                                }
                            }
                            assert forall|q: int|
                                0 <= q < j + 1 && #[trigger] leads_on(es, kv, from, tgt@, m1, q) implies !text_lt(
                                es[q].tgt,
                                if better { ej.tgt } else { eb.tgt },
                            ) && (es[q].tgt == (if better { ej.tgt } else { eb.tgt }) ==> !text_lt(
                                es[q].kind,
                                if better { ej.kind } else { eb.kind },
                            )) by {
                                if q < j && better {
                                    if text_lt(es[q].tgt, ej.tgt) {
                                        if order == -1 {
                                            lemma_text_lt_transitive(es[q].tgt, ej.tgt, eb.tgt);
                                        }
                                    }
                                    if es[q].tgt == ej.tgt && text_lt(es[q].kind, ej.kind) {
                                        if order == 0 {
                                            lemma_text_lt_transitive(es[q].kind, ej.kind, eb.kind);
                                        }
                                    }
                                }
                            }
                        }
                        if better {
                            best = Some((y, j));
                        }
                    },
                }
            }
            proof {
                if best is None {
                    assert(!cand);
                    assert(!leads_on(es, kv, from, tgt@, m1, j as int));
                    assert forall|q: int| 0 <= q < j + 1 implies !#[trigger] leads_on(es, kv, from, tgt@, m1, q) by {
                        if q < j {
                            assert(!leads_on(es, kv, from, tgt@, m1, q));
                        }
                    }
                }
            }
            j += 1;
        }
        proof {
            let dc = dist@[c as int];
            assert(dc == Some(rem));
            assert(reach_k(rev@, ok@, it as int, rem as nat, c as int));
            assert(!reach_k(rev@, ok@, it as int, m1, c as int));
            let q = choose|q: int|
                0 <= q < rev@.len() && (#[trigger] rev@[q]).1 == c && reach_k(rev@, ok@, it as int, m1, rev@[q].0 as int);
            assert(iv[rev@[q].0 as int] == es[q].tgt);
            if !kind_ok(kv, es[q].kind) {
                assert(iv[rev@[q].1 as int] == iv[rev@[q].0 as int]);
                assert(rev@[q].0 == c) by {
                    if rev@[q].0 != c {
                        assert(iv[rev@[q].0 as int] != iv[c as int]);
                    }
                }
            }
            assert(iv[rev@[q].1 as int] == es[q].src);
            assert(leads_on(es, kv, from, tgt@, m1, q));
        }
        let (v, jb) = match best {
            Some(b) => b,
            None => {
                assert(false);
                (0, 0)
            },
        };
        let ghost w0 = texts(nodes@);
        let ghost k0 = texts(kinds_out@);
        let ghost ev = es[jb as int];
        proof {
            assert(iv[v as int] == ev.tgt);
            assert(rev@[jb as int].1 == c) by {
                assert(iv[rev@[jb as int].1 as int] == ev.src);
                if rev@[jb as int].1 != c {
                    assert(iv[rev@[jb as int].1 as int] != iv[c as int]);
                }
            }
            assert(reach_k(rev@, ok@, it as int, m1, v as int));
            let dv = dist@[v as int];
            match dv {
                Some(mv) => {
                    if mv < m1 {
                        assert(reach_k(rev@, ok@, it as int, mv as nat, rev@[jb as int].0 as int));
                        assert(ok@[c as int]);
                        assert(reach_k(rev@, ok@, it as int, (mv + 1) as nat, c as int));
                        assert(false);
                    }
                    if mv > m1 {
                        assert(false);
                    }
                },
                None => {
                    assert(reachable(rev@, ok@, it as int, v as int));
                },
            }
            assert(edge_step(ev, kv, from, ev.tgt));
        }
        nodes.push(ids[v].clone());
        kinds_out.push(edges[jb].kind.clone());
        proof {
            let w1 = texts(nodes@);
            let k1 = texts(kinds_out@);
            assert(w1 =~= w0.push(ev.tgt));
            assert(k1 =~= k0.push(ev.kind));
            let z0 = w0.len() - 1;
            assert(w1[z0] == from && w1[z0 + 1] == ev.tgt);
            assert(link_at(es, kv, w1, z0));
            assert forall|i: int| 0 <= i < w1.len() - 1 implies #[trigger] link_at(es, kv, w1, i) by {
                if i < z0 {
                    assert(link_at(es, kv, w0, i));
                    assert(w1[i] == w0[i] && w1[i + 1] == w0[i + 1]);
                }
            }
            assert forall|z: int| 0 <= z < w1.len() - 1 implies #[trigger] greedy_ok(es, kv, tgt@, w1, dd, z) by {
                if z < z0 {
                    assert(greedy_ok(es, kv, tgt@, w0, dd, z));
                    assert(w1[z] == w0[z] && w1[z + 1] == w0[z + 1]);
                } else {
                    assert(dd - z - 1 == m1);
                    assert forall|u: Seq<char>|
                        #[trigger] step_ok(es, kv, w1[z], u) && walk_k(es, kv, Direction::Reverse, tgt@, (dd - z - 1) as nat, u)
                            implies !text_lt(u, w1[z + 1]) by {
                        let q = choose|q: int| 0 <= q < es.len() && #[trigger] edge_step(es[q], kv, w1[z], u);
                        assert(leads_on(es, kv, from, tgt@, m1, q));
                    }
                }
            }
            assert forall|z: int| 0 <= z < k1.len() implies #[trigger] least_kind_at(es, kv, w1, k1, z) by {
                if z < k0.len() {
                    assert(least_kind_at(es, kv, w0, k0, z));
                    assert(w1[z] == w0[z] && w1[z + 1] == w0[z + 1] && k1[z] == k0[z]);
                } else {
                    assert(z == z0);
                    assert(walk_k(es, kv, Direction::Reverse, tgt@, m1, ev.tgt));
                    assert forall|q: int| 0 <= q < es.len() && #[trigger] edge_step(es[q], kv, w1[z], w1[z + 1]) implies !text_lt(
                        es[q].kind,
                        k1[z],
                    ) by {
                        assert(leads_on(es, kv, from, tgt@, m1, q));
                    }
                    assert(edge_step(es[jb as int], kv, w1[z], w1[z + 1]) && es[jb as int].kind == k1[z]);
                }
            }
        }
        c = v;
        rem = rem - 1;
    }
    proof {
        let w = texts(nodes@);
        assert(reach_k(rev@, ok@, it as int, 0, c as int));
        assert(c == it);
        assert forall|v: Seq<Seq<char>>| #[trigger]
            is_walk(es, kv, v, src@, tgt@) implies w.len() <= v.len() && (v.len() == w.len() ==> !lex_lt(v, w)) by {
            lemma_walk_back(es, kv, v, src@, tgt@);
            lemma_links_walk(es, kv, Direction::Reverse, iv, rev@, ok@, it as int, (v.len() - 1) as nat);
            assert(reach_k(rev@, ok@, it as int, (v.len() - 1) as nat, 0));
            if v.len() - 1 < dd {
                assert(!reach_k(rev@, ok@, it as int, (v.len() - 1) as nat, 0));
            }
            if v.len() == w.len() && lex_lt(v, w) {
                let i = choose|i: int| 0 <= i < v.len() && i < w.len() && v.take(i) == w.take(i) && #[trigger] text_lt(v[i], w[i]);
                if i == 0 {
                    lemma_text_lt_irreflexive(src@);
                } else {
                    let z = i - 1;
                    assert(v[z] == v.take(i)[z] && w[z] == w.take(i)[z]);
                    assert(link_at(es, kv, v, z));
                    lemma_walk_suffix(es, kv, v, src@, tgt@, i);
                    lemma_walk_back(es, kv, v.skip(i), v[i], tgt@);
                    assert(v.skip(i).len() - 1 == dd - z - 1);
                    assert(greedy_ok(es, kv, tgt@, w, dd, z));
                    assert(step_ok(es, kv, w[z], v[i]));
                }
            }
        }
    }
    match PathReport::found(copy_str(src), copy_str(tgt), nodes, kinds_out) {
        Ok(p) => Ok(p),
        Err(m) => Err(QueryError(copy_str(m))),
    }
}

// ---------------------------------------------------------------- laws

/// A node the first `k` nodes declare, and that `p` admits, is listed.
proof fn lemma_ids_where_lists(ns: Seq<NodeView>, k: nat, p: spec_fn(Seq<char>) -> bool, i: int)
    requires
        k <= ns.len(),
        0 <= i < k,
        p(ns[i].id),
    ensures
        ids_where(ns, k, p).contains(ns[i].id),
    decreases k,
{
    if i == k - 1 {
        assert(ids_where(ns, k, p).last() == ns[i].id);
    } else {
        lemma_ids_where_lists(ns, (k - 1) as nat, p, i);
        let prev = ids_where(ns, (k - 1) as nat, p);
        let j = choose|j: int| 0 <= j < prev.len() && prev[j] == ns[i].id;
        if p(ns[k - 1].id) {
            assert(ids_where(ns, k, p)[j] == ns[i].id);
        }
    }
}

/// With no edge-kind restriction every edge is followed: a declared node one
/// edge from the origin, in the walk's direction, is reached. Forward, that is
/// an edge from the origin to it; in reverse, an edge from it to the origin.
pub proof fn law_reach_unrestricted_follows_every_edge(
    ns: Seq<NodeView>,
    es: Seq<EdgeView>,
    origin: Seq<char>,
    j: int,
    i: int,
)
    requires
        0 <= j < es.len(),
        0 <= i < ns.len(),
        ns[i].id != origin,
    ensures
        es[j].src == origin && es[j].tgt == ns[i].id ==> reach_ids(ns, es, Seq::empty(), Direction::Forward, origin).contains(ns[i].id),
        es[j].tgt == origin && es[j].src == ns[i].id ==> reach_ids(ns, es, Seq::empty(), Direction::Reverse, origin).contains(ns[i].id),
{
    let none: Seq<Seq<char>> = Seq::empty();
    let x = ns[i].id;
    if es[j].src == origin && es[j].tgt == x {
        let d = Direction::Forward;
        assert(takes_to(es[j], none, d, x));
        assert(walk_k(es, none, d, origin, 0, near_end(es[j], d)));
        assert(walk_k(es, none, d, origin, 1, x));
        assert(walks(es, none, d, origin, x));
        lemma_ids_where_lists(ns, ns.len(), reached_by_walk(es, none, d, origin), i);
    }
    if es[j].tgt == origin && es[j].src == x {
        let d = Direction::Reverse;
        assert(takes_to(es[j], none, d, x));
        assert(walk_k(es, none, d, origin, 0, near_end(es[j], d)));
        assert(walk_k(es, none, d, origin, 1, x));
        assert(walks(es, none, d, origin, x));
        lemma_ids_where_lists(ns, ns.len(), reached_by_walk(es, none, d, origin), i);
    }
}

/// What the orphans among the first `m` nodes are: declared nodes that no
/// edge has at either end.
proof fn lemma_orphan_ids_unnamed(ns: Seq<NodeView>, es: Seq<EdgeView>, kind: Option<Seq<char>>, m: nat, x: Seq<char>)
    requires
        m <= ns.len(),
        orphan_ids(ns, es, kind, m).contains(x),
    ensures
        forall|j: int| 0 <= j < es.len() ==> es[j].src != x && es[j].tgt != x,
    decreases m,
{
    let prev = orphan_ids(ns, es, kind, (m - 1) as nat);
    if is_orphan(es, kind, ns[m - 1]) && ns[m - 1].id == x {
        assert forall|j: int| 0 <= j < es.len() implies es[j].src != x && es[j].tgt != x by {
            if es[j].src == x || es[j].tgt == x {
                assert(names(es[j], x));
            }
        }
    } else {
        let k = choose|k: int| 0 <= k < orphan_ids(ns, es, kind, m).len() && orphan_ids(ns, es, kind, m)[k] == x;
        if is_orphan(es, kind, ns[m - 1]) {
            assert(k < prev.len());
            assert(prev[k] == x);
        } else {
            assert(prev[k] == x);
        }
        lemma_orphan_ids_unnamed(ns, es, kind, (m - 1) as nat, x);
    }
}

/// An orphan is a node no edge names: a node that is the source or the target
/// of some edge is never among the orphans, whatever kind is asked.
pub proof fn law_orphans_are_named_by_no_edge(ns: Seq<NodeView>, es: Seq<EdgeView>, kind: Option<Seq<char>>, j: int)
    requires
        0 <= j < es.len(),
    ensures
        !orphan_ids(ns, es, kind, ns.len()).contains(es[j].src),
        !orphan_ids(ns, es, kind, ns.len()).contains(es[j].tgt),
{
    if orphan_ids(ns, es, kind, ns.len()).contains(es[j].src) {
        lemma_orphan_ids_unnamed(ns, es, kind, ns.len(), es[j].src);
    }
    if orphan_ids(ns, es, kind, ns.len()).contains(es[j].tgt) {
        lemma_orphan_ids_unnamed(ns, es, kind, ns.len(), es[j].tgt);
    }
}

/// With no edge-kind restriction every edge is a path: the two endpoints of
/// any edge, in order, form a walk from its source to its target, so a path
/// question about them is never answered with "no path".
pub proof fn law_path_unrestricted_takes_every_edge(es: Seq<EdgeView>, j: int)
    requires
        0 <= j < es.len(),
    ensures
        is_walk(es, Seq::empty(), seq![es[j].src, es[j].tgt], es[j].src, es[j].tgt),
{
    let none: Seq<Seq<char>> = Seq::empty();
    let w = seq![es[j].src, es[j].tgt];
    assert(edge_step(es[j], none, w[0], w[1]));
    assert(link_at(es, none, w, 0));
}

/// What `ids_where` lists satisfies its predicate.
proof fn lemma_ids_where_sound(ns: Seq<NodeView>, k: nat, p: spec_fn(Seq<char>) -> bool, x: Seq<char>)
    requires
        k <= ns.len(),
        ids_where(ns, k, p).contains(x),
    ensures
        p(x),
    decreases k,
{
    let prev = ids_where(ns, (k - 1) as nat, p);
    let cur = ids_where(ns, k, p);
    let i = choose|i: int| 0 <= i < cur.len() && cur[i] == x;
    if p(ns[k - 1].id) && i == cur.len() - 1 {
    } else {
        assert(prev[i] == x);
        assert(prev.contains(x));
        lemma_ids_where_sound(ns, (k - 1) as nat, p, x);
    }
}

/// A reach answer never holds its own origin, whatever the restriction and
/// direction.
pub proof fn law_reach_excludes_origin(ns: Seq<NodeView>, es: Seq<EdgeView>, kinds: Seq<Seq<char>>, d: Direction, origin: Seq<char>)
    ensures
        !reach_ids(ns, es, kinds, d, origin).contains(origin),
{
    if reach_ids(ns, es, kinds, d, origin).contains(origin) {
        lemma_ids_where_sound(ns, ns.len(), reached_by_walk(es, kinds, d, origin), origin);
    }
}

/// A declared node that no edge has at either end is an orphan, when no kind
/// is asked or it is of the asked kind.
pub proof fn law_unnamed_nodes_are_orphans(ns: Seq<NodeView>, es: Seq<EdgeView>, kind: Option<Seq<char>>, i: int)
    requires
        0 <= i < ns.len(),
        forall|j: int| 0 <= j < es.len() ==> (#[trigger] es[j]).src != ns[i].id && es[j].tgt != ns[i].id,
        kind matches Some(k) ==> ns[i].kind == k,
    ensures
        orphan_ids(ns, es, kind, ns.len()).contains(ns[i].id),
{
    assert(!edge_names(es, ns[i].id));
    assert(is_orphan(es, kind, ns[i]));
    lemma_orphan_ids_lists(ns, es, kind, ns.len(), i);
}

proof fn lemma_orphan_ids_lists(ns: Seq<NodeView>, es: Seq<EdgeView>, kind: Option<Seq<char>>, m: nat, i: int)
    requires
        m <= ns.len(),
        0 <= i < m,
        is_orphan(es, kind, ns[i]),
    ensures
        orphan_ids(ns, es, kind, m).contains(ns[i].id),
    decreases m,
{
    if i == m - 1 {
        assert(orphan_ids(ns, es, kind, m).last() == ns[i].id);
    } else {
        lemma_orphan_ids_lists(ns, es, kind, (m - 1) as nat, i);
        let prev = orphan_ids(ns, es, kind, (m - 1) as nat);
        let j = choose|j: int| 0 <= j < prev.len() && prev[j] == ns[i].id;
        assert(orphan_ids(ns, es, kind, m)[j] == ns[i].id);
    }
}

} // verus!
