//! `query diff`: what a register gained, lost and changed between two
//! revisions. Provenance is excluded from every identity, so a declaration
//! that merely moved lines does not appear: nodes compare by ID, edges as a
//! multiset of (src, tgt, kind), pathways by name.

use vstd::prelude::*;

use crate::coverage::{insert_text_sorted, text_put};
use crate::graph::{
    declares, Edge, node_lookup, nodes_view, pathway_lookup, pathways_view, EdgeView, LatticeGraph, NodeView, PathwayView,
};
use crate::json::{members_view, Json, JsonValue};
use crate::query::{EdgeRef, NodeRef, NodeRefView};
use crate::seqs::{first_index, lemma_first_index_at};
use crate::text::{compare_text, str_eq, text_lt, texts};

verus! {

/// A node present at both revisions with a different kind or attrs: its ID,
/// revision B's kind, and both attr maps.
pub struct NodeChangedRef {
    pub id: String,
    pub kind: String,
    pub attrs_a: Vec<(String, JsonValue)>,
    pub attrs_b: Vec<(String, JsonValue)>,
}

pub struct NodeChangedView {
    pub id: Seq<char>,
    pub kind: Seq<char>,
    pub attrs_a: Seq<(Seq<char>, Json)>,
    pub attrs_b: Seq<(Seq<char>, Json)>,
}

impl View for NodeChangedRef {
    type V = NodeChangedView;

    open spec fn view(&self) -> NodeChangedView {
        NodeChangedView {
            id: self.id@,
            kind: self.kind@,
            attrs_a: members_view(self.attrs_a@),
            attrs_b: members_view(self.attrs_b@),
        }
    }
}

/// An edge present at both revisions under the same (src, tgt, kind) with
/// different attrs.
pub struct EdgeChangedRef {
    pub src: String,
    pub tgt: String,
    pub kind: String,
    pub attrs_a: Vec<(String, JsonValue)>,
    pub attrs_b: Vec<(String, JsonValue)>,
}

pub struct EdgeChangedView {
    pub key: (Seq<char>, Seq<char>, Seq<char>),
    pub attrs_a: Seq<(Seq<char>, Json)>,
    pub attrs_b: Seq<(Seq<char>, Json)>,
}

impl View for EdgeChangedRef {
    type V = EdgeChangedView;

    open spec fn view(&self) -> EdgeChangedView {
        EdgeChangedView {
            key: (self.src@, self.tgt@, self.kind@),
            attrs_a: members_view(self.attrs_a@),
            attrs_b: members_view(self.attrs_b@),
        }
    }
}

/// Two-revision diff answer.
pub struct DiffReport {
    pub rev_a: String,
    pub rev_b: String,
    pub nodes_added: Vec<NodeRef>,
    pub nodes_removed: Vec<NodeRef>,
    /// The kind shown is revision B's.
    pub nodes_changed: Vec<NodeChangedRef>,
    pub edges_added: Vec<EdgeRef>,
    pub edges_removed: Vec<EdgeRef>,
    /// Parallel edges pair up in document order.
    pub edges_changed: Vec<EdgeChangedRef>,
    /// Pathways added, removed, or with a different order or current position.
    pub pathways_changed: Vec<String>,
}

impl DiffReport {
    /// True when the two revisions ingested identically.
    pub fn is_empty(&self) -> (r: bool)
        ensures
            r == (self.nodes_added.len() == 0 && self.nodes_removed.len() == 0 && self.nodes_changed.len() == 0
                && self.edges_added.len() == 0 && self.edges_removed.len() == 0 && self.edges_changed.len() == 0
                && self.pathways_changed.len() == 0),
    {
        self.nodes_added.len() == 0 && self.nodes_removed.len() == 0 && self.nodes_changed.len() == 0
            && self.edges_added.len() == 0 && self.edges_removed.len() == 0 && self.edges_changed.len() == 0
            && self.pathways_changed.len() == 0
    }
}

// ---------------------------------------------------------------- nodes

/// The IDs of the first `k` nodes, sorted and without repeats.
pub open spec fn id_set(ns: Seq<NodeView>, k: nat) -> Seq<Seq<char>>
    decreases k,
{
    if k == 0 || k > ns.len() {
        Seq::empty()
    } else {
        text_put(id_set(ns, (k - 1) as nat), ns[k - 1].id)
    }
}

/// The node refs of the IDs among the first `k` of `ids` that `nb` declares
/// and `na` does not, with `nb`'s kind.
pub open spec fn only_in(ids: Seq<Seq<char>>, k: nat, na: Seq<NodeView>, nb: Seq<NodeView>) -> Seq<NodeRefView>
    decreases k,
{
    if k == 0 || k > ids.len() {
        Seq::empty()
    } else {
        let prev = only_in(ids, (k - 1) as nat, na, nb);
        match (node_lookup(na, ids[k - 1]), node_lookup(nb, ids[k - 1])) {
            (None, Some(n)) => prev.push(NodeRefView { id: ids[k - 1], kind: n.kind, tainted: None }),
            _ => prev,
        }
    }
}

/// The changed nodes among the first `k` of `ids`.
pub open spec fn changed_nodes(ids: Seq<Seq<char>>, k: nat, na: Seq<NodeView>, nb: Seq<NodeView>) -> Seq<NodeChangedView>
    decreases k,
{
    if k == 0 || k > ids.len() {
        Seq::empty()
    } else {
        let prev = changed_nodes(ids, (k - 1) as nat, na, nb);
        match (node_lookup(na, ids[k - 1]), node_lookup(nb, ids[k - 1])) {
            (Some(x), Some(y)) => if x.kind != y.kind || x.attrs != y.attrs {
                prev.push(NodeChangedView { id: ids[k - 1], kind: y.kind, attrs_a: x.attrs, attrs_b: y.attrs })
            } else {
                prev
            },
            _ => prev,
        }
    }
}

// ---------------------------------------------------------------- edges

/// An edge's identity: (src, tgt, kind).
pub open spec fn edge_key(e: EdgeView) -> (Seq<char>, Seq<char>, Seq<char>) {
    (e.src, e.tgt, e.kind)
}

/// Identity order: by src, then tgt, then kind.
pub open spec fn key_lt(a: (Seq<char>, Seq<char>, Seq<char>), b: (Seq<char>, Seq<char>, Seq<char>)) -> bool {
    text_lt(a.0, b.0) || (a.0 == b.0 && (text_lt(a.1, b.1) || (a.1 == b.1 && text_lt(a.2, b.2))))
}

/// A sorted list of distinct identities after adding `x`.
pub open spec fn key_put(s: Seq<(Seq<char>, Seq<char>, Seq<char>)>, x: (Seq<char>, Seq<char>, Seq<char>)) -> Seq<
    (Seq<char>, Seq<char>, Seq<char>),
> {
    let i = match first_index(s, |t: (Seq<char>, Seq<char>, Seq<char>)| !key_lt(t, x)) {
        Some(i) => i,
        None => s.len() as int,
    };
    if 0 <= i < s.len() && s[i] == x {
        s
    } else {
        s.insert(i, x)
    }
}

/// The identities of the first `k` edges added to `s`.
pub open spec fn put_keys(s: Seq<(Seq<char>, Seq<char>, Seq<char>)>, es: Seq<EdgeView>, k: nat) -> Seq<
    (Seq<char>, Seq<char>, Seq<char>),
>
    decreases k,
{
    if k == 0 || k > es.len() {
        s
    } else {
        key_put(put_keys(s, es, (k - 1) as nat), edge_key(es[k - 1]))
    }
}

/// Every identity either revision holds, in identity order.
pub open spec fn edge_keys(ea: Seq<EdgeView>, eb: Seq<EdgeView>) -> Seq<(Seq<char>, Seq<char>, Seq<char>)> {
    put_keys(put_keys(Seq::empty(), ea, ea.len()), eb, eb.len())
}

/// The edges among the first `k` with identity `key`, in document order.
pub open spec fn keyed(es: Seq<EdgeView>, key: (Seq<char>, Seq<char>, Seq<char>), k: nat) -> Seq<EdgeView>
    decreases k,
{
    if k == 0 || k > es.len() {
        Seq::empty()
    } else {
        let prev = keyed(es, key, (k - 1) as nat);
        if edge_key(es[k - 1]) == key {
            prev.push(es[k - 1])
        } else {
            prev
        }
    }
}

/// `n` copies of an identity.
pub open spec fn copies(key: (Seq<char>, Seq<char>, Seq<char>), n: int) -> Seq<(Seq<char>, Seq<char>, Seq<char>)> {
    Seq::new(if n > 0 {
        n as nat
    } else {
        0
    }, |i: int| key)
}

/// The edges B holds beyond A, through the first `k` identities.
pub open spec fn surplus(keys: Seq<(Seq<char>, Seq<char>, Seq<char>)>, k: nat, ea: Seq<EdgeView>, eb: Seq<EdgeView>) -> Seq<
    (Seq<char>, Seq<char>, Seq<char>),
>
    decreases k,
{
    if k == 0 || k > keys.len() {
        Seq::empty()
    } else {
        surplus(keys, (k - 1) as nat, ea, eb) + copies(
            keys[k - 1],
            keyed(eb, keys[k - 1], eb.len()).len() - keyed(ea, keys[k - 1], ea.len()).len(),
        )
    }
}

/// The changes among the first `i` pairs of parallel edges.
pub open spec fn pair_changes(la: Seq<EdgeView>, lb: Seq<EdgeView>, i: nat) -> Seq<EdgeChangedView>
    decreases i,
{
    if i == 0 || i > la.len() || i > lb.len() {
        Seq::empty()
    } else {
        let prev = pair_changes(la, lb, (i - 1) as nat);
        if la[i - 1].attrs != lb[i - 1].attrs {
            prev.push(EdgeChangedView { key: edge_key(lb[i - 1]), attrs_a: la[i - 1].attrs, attrs_b: lb[i - 1].attrs })
        } else {
            prev
        }
    }
}

/// The changed edges through the first `k` identities.
pub open spec fn changed_edges(keys: Seq<(Seq<char>, Seq<char>, Seq<char>)>, k: nat, ea: Seq<EdgeView>, eb: Seq<EdgeView>) -> Seq<
    EdgeChangedView,
>
    decreases k,
{
    if k == 0 || k > keys.len() {
        Seq::empty()
    } else {
        let la = keyed(ea, keys[k - 1], ea.len());
        let lb = keyed(eb, keys[k - 1], eb.len());
        changed_edges(keys, (k - 1) as nat, ea, eb) + pair_changes(
            la,
            lb,
            if la.len() < lb.len() {
                la.len()
            } else {
                lb.len()
            },
        )
    }
}

pub open spec fn edge_refs_view(s: Seq<EdgeRef>) -> Seq<(Seq<char>, Seq<char>, Seq<char>)> {
    s.map_values(|e: EdgeRef| (e.src@, e.tgt@, e.kind@))
}

// ---------------------------------------------------------------- pathways

/// The names of the first `k` pathways added to `s`.
pub open spec fn put_names(s: Seq<Seq<char>>, ps: Seq<PathwayView>, k: nat) -> Seq<Seq<char>>
    decreases k,
{
    if k == 0 || k > ps.len() {
        s
    } else {
        text_put(put_names(s, ps, (k - 1) as nat), ps[k - 1].name)
    }
}

/// The names among the first `k` whose pathway differs between revisions.
pub open spec fn changed_names(names: Seq<Seq<char>>, k: nat, pa: Seq<PathwayView>, pb: Seq<PathwayView>) -> Seq<Seq<char>>
    decreases k,
{
    if k == 0 || k > names.len() {
        Seq::empty()
    } else {
        let prev = changed_names(names, (k - 1) as nat, pa, pb);
        if pathway_lookup(pa, names[k - 1]) != pathway_lookup(pb, names[k - 1]) {
            prev.push(names[k - 1])
        } else {
            prev
        }
    }
}

/// Every pathway name either revision holds, in name order.
pub open spec fn all_names(pa: Seq<PathwayView>, pb: Seq<PathwayView>) -> Seq<Seq<char>> {
    put_names(put_names(Seq::empty(), pa, pa.len()), pb, pb.len())
}

// ---------------------------------------------------------------- computing

pub open spec fn node_refs_view(s: Seq<NodeRef>) -> Seq<NodeRefView> {
    s.map_values(|r: NodeRef| r@)
}

pub open spec fn changed_refs_view(s: Seq<NodeChangedRef>) -> Seq<NodeChangedView> {
    s.map_values(|r: NodeChangedRef| r@)
}

pub open spec fn edge_changes_view(s: Seq<EdgeChangedRef>) -> Seq<EdgeChangedView> {
    s.map_values(|r: EdgeChangedRef| r@)
}

pub open spec fn keys_view(s: Seq<(String, String, String)>) -> Seq<(Seq<char>, Seq<char>, Seq<char>)> {
    s.map_values(|k: (String, String, String)| (k.0@, k.1@, k.2@))
}

/// The IDs of a graph's nodes, sorted and without repeats.
fn node_ids(g: &LatticeGraph) -> (r: Vec<String>)
    requires
        g.wf(),
    ensures
        texts(r@) == id_set(g.spec_nodes(), g.spec_nodes().len()),
{
    let nodes = g.iter_nodes();
    let ghost ns = g.spec_nodes();
    let mut out: Vec<String> = Vec::new();
    assert(texts(out@) =~= Seq::<Seq<char>>::empty());
    let mut i: usize = 0;
    while i < nodes.len()
        invariant
            i <= nodes.len(),
            ns == nodes_view(nodes@),
            texts(out@) == id_set(ns, i as nat),
        decreases nodes.len() - i,
    {
        assert(ns[i as int].id == nodes@[i as int].id@);
        insert_text_sorted(&mut out, nodes[i].id.clone());
        i += 1;
    }
    out
}

/// The nodes of `ids` that `b` declares and `a` does not, with `b`'s kind.
fn nodes_only_in(ids: &Vec<String>, a: &LatticeGraph, b: &LatticeGraph) -> (r: Vec<NodeRef>)
    ensures
        node_refs_view(r@) == only_in(texts(ids@), ids.len() as nat, a.spec_nodes(), b.spec_nodes()),
{
    let ghost iv = texts(ids@);
    let mut out: Vec<NodeRef> = Vec::new();
    let mut i: usize = 0;
    while i < ids.len()
        invariant
            i <= ids.len(),
            iv == texts(ids@),
            node_refs_view(out@) == only_in(iv, i as nat, a.spec_nodes(), b.spec_nodes()),
        decreases ids.len() - i,
    {
        assert(iv[i as int] == ids@[i as int]@);
        let ghost before = node_refs_view(out@);
        match (a.node(ids[i].as_str()), b.node(ids[i].as_str())) {
            (None, Some(n)) => {
                out.push(NodeRef { id: ids[i].clone(), kind: n.kind.clone(), tainted: None });
                assert(node_refs_view(out@) =~= before.push(NodeRefView { id: iv[i as int], kind: n@.kind, tainted: None }));
            },
            _ => {},
        }
        i += 1;
    }
    out
}

/// Whether two attr lists hold the same members in the same order.
fn attrs_equal(x: &Vec<(String, JsonValue)>, y: &Vec<(String, JsonValue)>) -> (r: bool)
    ensures
        r == (members_view(x@) == members_view(y@)),
{
    proof {
        crate::json::lemma_members(x@, x@.len());
        crate::json::lemma_members(y@, y@.len());
    }
    if x.len() != y.len() {
        return false;
    }
    let mut i: usize = 0;
    while i < x.len()
        invariant
            i <= x.len(),
            x.len() == y.len(),
            members_view(x@).len() == x.len(),
            members_view(y@).len() == y.len(),
            forall|k: int| 0 <= k < x.len() ==> #[trigger] members_view(x@)[k] == (x@[k].0@, x@[k].1.deep()),
            forall|k: int| 0 <= k < y.len() ==> #[trigger] members_view(y@)[k] == (y@[k].0@, y@[k].1.deep()),
            forall|k: int| 0 <= k < i ==> members_view(x@)[k] == members_view(y@)[k],
        decreases x.len() - i,
    {
        if !str_eq(x[i].0.as_str(), y[i].0.as_str()) || !crate::json::json_eq(&x[i].1, &y[i].1) {
            assert(members_view(x@)[i as int] != members_view(y@)[i as int]);
            return false;
        }
        i += 1;
    }
    assert(members_view(x@) =~= members_view(y@));
    true
}

/// The nodes of `ids` both revisions declare with a different kind or attrs.
fn nodes_changed(ids: &Vec<String>, a: &LatticeGraph, b: &LatticeGraph) -> (r: Vec<NodeChangedRef>)
    ensures
        changed_refs_view(r@) == changed_nodes(texts(ids@), ids.len() as nat, a.spec_nodes(), b.spec_nodes()),
{
    let ghost iv = texts(ids@);
    let mut out: Vec<NodeChangedRef> = Vec::new();
    let mut i: usize = 0;
    while i < ids.len()
        invariant
            i <= ids.len(),
            iv == texts(ids@),
            changed_refs_view(out@) == changed_nodes(iv, i as nat, a.spec_nodes(), b.spec_nodes()),
        decreases ids.len() - i,
    {
        assert(iv[i as int] == ids@[i as int]@);
        let ghost before = changed_refs_view(out@);
        match (a.node(ids[i].as_str()), b.node(ids[i].as_str())) {
            (Some(x), Some(y)) => {
                if !str_eq(x.kind.as_str(), y.kind.as_str()) || !attrs_equal(&x.attrs, &y.attrs) {
                    let c = NodeChangedRef {
                        id: ids[i].clone(),
                        kind: y.kind.clone(),
                        attrs_a: crate::json::copy_members(&x.attrs),
                        attrs_b: crate::json::copy_members(&y.attrs),
                    };
                    let ghost cw = c@;
                    out.push(c);
                    assert(changed_refs_view(out@) =~= before.push(cw));
                }
            },
            _ => {},
        }
        i += 1;
    }
    out
}

proof fn lemma_lt_asym(a: Seq<char>, b: Seq<char>)
    requires
        text_lt(b, a),
    ensures
        !text_lt(a, b),
{
    if text_lt(a, b) {
        crate::text::lemma_text_lt_transitive(a, b, a);
        crate::text::lemma_text_lt_irreflexive(a);
    }
}

/// Whether identity `t` sorts before `x`.
fn key_before(t: &(String, String, String), x: &(String, String, String)) -> (r: bool)
    ensures
        r == key_lt((t.0@, t.1@, t.2@), (x.0@, x.1@, x.2@)),
{
    proof {
        crate::text::lemma_text_lt_total(t.0@, x.0@);
        crate::text::lemma_text_lt_total(t.1@, x.1@);
        crate::text::lemma_text_lt_total(t.2@, x.2@);
    }
    let c0 = compare_text(t.0.as_str(), x.0.as_str());
    if c0 == -1 {
        return true;
    }
    if c0 == 1 {
        proof {
            lemma_lt_asym(t.0@, x.0@);
        }
        return false;
    }
    let c1 = compare_text(t.1.as_str(), x.1.as_str());
    if c1 == -1 {
        return true;
    }
    if c1 == 1 {
        proof {
            lemma_lt_asym(t.1@, x.1@);
            crate::text::lemma_text_lt_irreflexive(t.0@);
        }
        return false;
    }
    proof {
        crate::text::lemma_text_lt_irreflexive(t.0@);
        crate::text::lemma_text_lt_irreflexive(t.1@);
    }
    compare_text(t.2.as_str(), x.2.as_str()) == -1
}

/// Add an identity to a sorted list of distinct identities.
fn key_insert(v: &mut Vec<(String, String, String)>, x: (String, String, String))
    ensures
        keys_view(final(v)@) == key_put(keys_view(old(v)@), (x.0@, x.1@, x.2@)),
{
    let ghost before = keys_view(v@);
    let ghost xv = (x.0@, x.1@, x.2@);
    let ghost f = |t: (Seq<char>, Seq<char>, Seq<char>)| !key_lt(t, xv);
    let mut i: usize = 0;
    while i < v.len()
        invariant
            i <= v.len(),
            before == keys_view(v@),
            xv == (x.0@, x.1@, x.2@),
            f == (|t: (Seq<char>, Seq<char>, Seq<char>)| !key_lt(t, xv)),
            forall|k: int| 0 <= k < i ==> !f(#[trigger] before[k]),
        ensures
            i <= v.len(),
            forall|k: int| 0 <= k < i ==> !f(#[trigger] before[k]),
            i < v.len() ==> f(before[i as int]),
        decreases v.len() - i,
    {
        assert(before[i as int] == (v@[i as int].0@, v@[i as int].1@, v@[i as int].2@));
        if !key_before(&v[i], &x) {
            break;
        }
        i += 1;
    }
    proof {
        lemma_first_index_at(before, f, i as int);
    }
    if i < v.len() && str_eq(v[i].0.as_str(), x.0.as_str()) && str_eq(v[i].1.as_str(), x.1.as_str()) && str_eq(
        v[i].2.as_str(),
        x.2.as_str(),
    ) {
        assert(before[i as int] == xv);
        return;
    }
    proof {
        if i < v.len() {
            assert(before[i as int] == (v@[i as int].0@, v@[i as int].1@, v@[i as int].2@));
            assert(before[i as int] != xv);
        }
    }
    v.insert(i, x);
    assert(keys_view(v@) =~= before.insert(i as int, xv));
}

/// Every identity either revision holds, in identity order.
fn edge_key_list(a: &LatticeGraph, b: &LatticeGraph) -> (r: Vec<(String, String, String)>)
    ensures
        keys_view(r@) == edge_keys(a.spec_edges(), b.spec_edges()),
{
    let ea = a.iter_edges();
    let eb = b.iter_edges();
    let ghost av = a.spec_edges();
    let ghost bv = b.spec_edges();
    let mut out: Vec<(String, String, String)> = Vec::new();
    assert(keys_view(out@) =~= Seq::<(Seq<char>, Seq<char>, Seq<char>)>::empty());
    let mut i: usize = 0;
    while i < ea.len()
        invariant
            i <= ea.len(),
            av == crate::graph::edges_view(ea@),
            keys_view(out@) == put_keys(Seq::empty(), av, i as nat),
        decreases ea.len() - i,
    {
        assert(av[i as int] == ea@[i as int]@);
        key_insert(&mut out, (ea[i].src.clone(), ea[i].tgt.clone(), ea[i].kind.clone()));
        i += 1;
    }
    let ghost first = keys_view(out@);
    let mut j: usize = 0;
    while j < eb.len()
        invariant
            j <= eb.len(),
            bv == crate::graph::edges_view(eb@),
            first == put_keys(Seq::empty(), av, av.len()),
            keys_view(out@) == put_keys(first, bv, j as nat),
        decreases eb.len() - j,
    {
        assert(bv[j as int] == eb@[j as int]@);
        key_insert(&mut out, (eb[j].src.clone(), eb[j].tgt.clone(), eb[j].kind.clone()));
        j += 1;
    }
    out
}

pub open spec fn edge_ptrs_view(s: Seq<&Edge>) -> Seq<EdgeView> {
    s.map_values(|e: &Edge| e@)
}

/// The edges with identity `key`, in document order.
fn keyed_edges<'a>(es: &'a Vec<Edge>, key: &(String, String, String)) -> (r: Vec<&'a Edge>)
    ensures
        edge_ptrs_view(r@) == keyed(crate::graph::edges_view(es@), (key.0@, key.1@, key.2@), es.len() as nat),
{
    let ghost ev = crate::graph::edges_view(es@);
    let ghost kv = (key.0@, key.1@, key.2@);
    let mut out: Vec<&Edge> = Vec::new();
    let mut i: usize = 0;
    while i < es.len()
        invariant
            i <= es.len(),
            ev == crate::graph::edges_view(es@),
            kv == (key.0@, key.1@, key.2@),
            edge_ptrs_view(out@) == keyed(ev, kv, i as nat),
        decreases es.len() - i,
    {
        assert(ev[i as int] == es@[i as int]@);
        let e = &es[i];
        if str_eq(e.src.as_str(), key.0.as_str()) && str_eq(e.tgt.as_str(), key.1.as_str()) && str_eq(
            e.kind.as_str(),
            key.2.as_str(),
        ) {
            let ghost before = edge_ptrs_view(out@);
            out.push(e);
            assert(edge_ptrs_view(out@) =~= before.push(ev[i as int]));
        }
        i += 1;
    }
    out
}

/// Push `n` copies of an identity.
fn push_copies(out: &mut Vec<EdgeRef>, key: &(String, String, String), n: usize)
    ensures
        edge_refs_view(final(out)@) == edge_refs_view(old(out)@) + copies((key.0@, key.1@, key.2@), n as int),
{
    let ghost start = edge_refs_view(out@);
    let ghost kv = (key.0@, key.1@, key.2@);
    let mut j: usize = 0;
    while j < n
        invariant
            j <= n,
            kv == (key.0@, key.1@, key.2@),
            edge_refs_view(out@) == start + copies(kv, j as int),
        decreases n - j,
    {
        let ghost before = edge_refs_view(out@);
        out.push(EdgeRef { src: key.0.clone(), tgt: key.1.clone(), kind: key.2.clone() });
        assert(copies(kv, j + 1) =~= copies(kv, j as int).push(kv));
        assert(edge_refs_view(out@) =~= before.push(kv));
        j += 1;
    }
}

/// Push the changes among the first `m` pairs of parallel edges.
fn push_pair_changes(out: &mut Vec<EdgeChangedRef>, la: &Vec<&Edge>, lb: &Vec<&Edge>, m: usize)
    requires
        m <= la.len(),
        m <= lb.len(),
    ensures
        edge_changes_view(final(out)@) == edge_changes_view(old(out)@) + pair_changes(
            edge_ptrs_view(la@),
            edge_ptrs_view(lb@),
            m as nat,
        ),
{
    let ghost start = edge_changes_view(out@);
    let ghost av = edge_ptrs_view(la@);
    let ghost bv = edge_ptrs_view(lb@);
    let mut i: usize = 0;
    while i < m
        invariant
            i <= m,
            m <= la.len(),
            m <= lb.len(),
            av == edge_ptrs_view(la@),
            bv == edge_ptrs_view(lb@),
            edge_changes_view(out@) == start + pair_changes(av, bv, i as nat),
        decreases m - i,
    {
        let x = la[i];
        let y = lb[i];
        assert(av[i as int] == x@ && bv[i as int] == y@);
        if !attrs_equal(&x.attrs, &y.attrs) {
            let c = EdgeChangedRef {
                src: y.src.clone(),
                tgt: y.tgt.clone(),
                kind: y.kind.clone(),
                attrs_a: crate::json::copy_members(&x.attrs),
                attrs_b: crate::json::copy_members(&y.attrs),
            };
            let ghost cw = c@;
            let ghost before = edge_changes_view(out@);
            out.push(c);
            assert(edge_changes_view(out@) =~= before.push(cw));
        }
        i += 1;
    }
}

/// Whether two pathways are the same: name, order and current position.
fn same_pathway(p: &crate::graph::Pathway, q: &crate::graph::Pathway) -> (r: bool)
    ensures
        r == (p@ == q@),
{
    if !str_eq(p.name.as_str(), q.name.as_str()) || !str_eq(p.current.as_str(), q.current.as_str()) {
        return false;
    }
    if p.order.len() != q.order.len() {
        assert(texts(p.order@).len() != texts(q.order@).len());
        return false;
    }
    let mut i: usize = 0;
    while i < p.order.len()
        invariant
            i <= p.order.len(),
            p.order.len() == q.order.len(),
            forall|k: int| 0 <= k < i ==> p.order@[k]@ == q.order@[k]@,
        decreases p.order.len() - i,
    {
        if !str_eq(p.order[i].as_str(), q.order[i].as_str()) {
            assert(texts(p.order@)[i as int] != texts(q.order@)[i as int]);
            return false;
        }
        i += 1;
    }
    assert(texts(p.order@) =~= texts(q.order@));
    true
}

/// Every pathway name either revision holds, in name order.
fn pathway_names(a: &LatticeGraph, b: &LatticeGraph) -> (r: Vec<String>)
    requires
        a.wf(),
        b.wf(),
    ensures
        texts(r@) == all_names(a.spec_pathways(), b.spec_pathways()),
{
    let pa = a.iter_pathways();
    let pb = b.iter_pathways();
    let ghost av = a.spec_pathways();
    let ghost bv = b.spec_pathways();
    let mut out: Vec<String> = Vec::new();
    assert(texts(out@) =~= Seq::<Seq<char>>::empty());
    let mut i: usize = 0;
    while i < pa.len()
        invariant
            i <= pa.len(),
            av == pathways_view(pa@),
            texts(out@) == put_names(Seq::empty(), av, i as nat),
        decreases pa.len() - i,
    {
        assert(av[i as int] == pa@[i as int]@);
        insert_text_sorted(&mut out, pa[i].name.clone());
        i += 1;
    }
    let ghost first = texts(out@);
    let mut j: usize = 0;
    while j < pb.len()
        invariant
            j <= pb.len(),
            bv == pathways_view(pb@),
            first == put_names(Seq::empty(), av, av.len()),
            texts(out@) == put_names(first, bv, j as nat),
        decreases pb.len() - j,
    {
        assert(bv[j as int] == pb@[j as int]@);
        insert_text_sorted(&mut out, pb[j].name.clone());
        j += 1;
    }
    out
}

/// Compare two ingested registers by semantic identity, provenance excluded.
///
/// Nodes compare by ID to (kind, attrs); edges as a multiset of (src, tgt,
/// kind), parallel edges pairing up in document order for their attrs;
/// pathways by name to (order, current). Every list comes in identity order.
pub fn diff(rev_a: &str, a: &LatticeGraph, rev_b: &str, b: &LatticeGraph) -> (r: DiffReport)
    requires
        a.wf(),
        b.wf(),
    ensures
        r.rev_a@ == rev_a@,
        r.rev_b@ == rev_b@,
        node_refs_view(r.nodes_added@) == only_in(
            id_set(b.spec_nodes(), b.spec_nodes().len()),
            id_set(b.spec_nodes(), b.spec_nodes().len()).len(),
            a.spec_nodes(),
            b.spec_nodes(),
        ),
        node_refs_view(r.nodes_removed@) == only_in(
            id_set(a.spec_nodes(), a.spec_nodes().len()),
            id_set(a.spec_nodes(), a.spec_nodes().len()).len(),
            b.spec_nodes(),
            a.spec_nodes(),
        ),
        changed_refs_view(r.nodes_changed@) == changed_nodes(
            id_set(b.spec_nodes(), b.spec_nodes().len()),
            id_set(b.spec_nodes(), b.spec_nodes().len()).len(),
            a.spec_nodes(),
            b.spec_nodes(),
        ),
        edge_refs_view(r.edges_added@) == surplus(
            edge_keys(a.spec_edges(), b.spec_edges()),
            edge_keys(a.spec_edges(), b.spec_edges()).len(),
            a.spec_edges(),
            b.spec_edges(),
        ),
        edge_refs_view(r.edges_removed@) == surplus(
            edge_keys(a.spec_edges(), b.spec_edges()),
            edge_keys(a.spec_edges(), b.spec_edges()).len(),
            b.spec_edges(),
            a.spec_edges(),
        ),
        edge_changes_view(r.edges_changed@) == changed_edges(
            edge_keys(a.spec_edges(), b.spec_edges()),
            edge_keys(a.spec_edges(), b.spec_edges()).len(),
            a.spec_edges(),
            b.spec_edges(),
        ),
        texts(r.pathways_changed@) == changed_names(
            all_names(a.spec_pathways(), b.spec_pathways()),
            all_names(a.spec_pathways(), b.spec_pathways()).len(),
            a.spec_pathways(),
            b.spec_pathways(),
        ),
{
    let ids_a = node_ids(a);
    let ids_b = node_ids(b);
    let nodes_added = nodes_only_in(&ids_b, a, b);
    let nodes_removed = nodes_only_in(&ids_a, b, a);
    let nodes_changed = nodes_changed(&ids_b, a, b);

    let keys = edge_key_list(a, b);
    let ea = a.iter_edges();
    let eb = b.iter_edges();
    let ghost av = a.spec_edges();
    let ghost bv = b.spec_edges();
    let ghost kv = keys_view(keys@);
    let mut edges_added: Vec<EdgeRef> = Vec::new();
    let mut edges_removed: Vec<EdgeRef> = Vec::new();
    let mut edges_changed: Vec<EdgeChangedRef> = Vec::new();
    assert(edge_refs_view(edges_added@) =~= Seq::<(Seq<char>, Seq<char>, Seq<char>)>::empty());
    assert(edge_refs_view(edges_removed@) =~= Seq::<(Seq<char>, Seq<char>, Seq<char>)>::empty());
    assert(edge_changes_view(edges_changed@) =~= Seq::<EdgeChangedView>::empty());
    let mut k: usize = 0;
    while k < keys.len()
        invariant
            k <= keys.len(),
            av == crate::graph::edges_view(ea@),
            bv == crate::graph::edges_view(eb@),
            kv == keys_view(keys@),
            edge_refs_view(edges_added@) == surplus(kv, k as nat, av, bv),
            edge_refs_view(edges_removed@) == surplus(kv, k as nat, bv, av),
            edge_changes_view(edges_changed@) == changed_edges(kv, k as nat, av, bv),
        decreases keys.len() - k,
    {
        let key = &keys[k];
        assert(kv[k as int] == (key.0@, key.1@, key.2@));
        let la = keyed_edges(ea, key);
        let lb = keyed_edges(eb, key);
        let ghost lav = edge_ptrs_view(la@);
        let ghost lbv = edge_ptrs_view(lb@);
        if lb.len() > la.len() {
            push_copies(&mut edges_added, key, lb.len() - la.len());
            assert(copies(kv[k as int], lav.len() - lbv.len()) =~= Seq::<(Seq<char>, Seq<char>, Seq<char>)>::empty());
            assert(edge_refs_view(edges_removed@) =~= surplus(kv, k as nat, bv, av) + copies(kv[k as int], lav.len() - lbv.len()));
        } else {
            push_copies(&mut edges_removed, key, la.len() - lb.len());
            assert(copies(kv[k as int], lbv.len() - lav.len()) =~= Seq::<(Seq<char>, Seq<char>, Seq<char>)>::empty());
            assert(edge_refs_view(edges_added@) =~= surplus(kv, k as nat, av, bv) + copies(kv[k as int], lbv.len() - lav.len()));
        }
        let m = if la.len() < lb.len() {
            la.len()
        } else {
            lb.len()
        };
        push_pair_changes(&mut edges_changed, &la, &lb, m);
        k += 1;
    }

    let names = pathway_names(a, b);
    let ghost nv = texts(names@);
    let mut pathways_changed: Vec<String> = Vec::new();
    let mut i: usize = 0;
    while i < names.len()
        invariant
            i <= names.len(),
            nv == texts(names@),
            texts(pathways_changed@) == changed_names(nv, i as nat, a.spec_pathways(), b.spec_pathways()),
        decreases names.len() - i,
    {
        assert(nv[i as int] == names@[i as int]@);
        let differs = match (a.pathway(names[i].as_str()), b.pathway(names[i].as_str())) {
            (Some(p), Some(q)) => !same_pathway(p, q),
            (None, None) => false,
            _ => true,
        };
        if differs {
            let ghost before = texts(pathways_changed@);
            pathways_changed.push(names[i].clone());
            assert(texts(pathways_changed@) =~= before.push(nv[i as int]));
        }
        i += 1;
    }

    DiffReport {
        rev_a: crate::text::copy_str(rev_a),
        rev_b: crate::text::copy_str(rev_b),
        nodes_added,
        nodes_removed,
        nodes_changed,
        edges_added,
        edges_removed,
        edges_changed,
        pathways_changed,
    }
}

// ---------------------------------------------------------------- laws

/// Two registers that say the same things, wherever they say them: the same
/// nodes and edges in the same order up to provenance, and the same pathways.
pub open spec fn same_but_provenance(a: LatticeGraph, b: LatticeGraph) -> bool {
    let (na, nb, ea, eb) = (a.spec_nodes(), b.spec_nodes(), a.spec_edges(), b.spec_edges());
    &&& na.len() == nb.len()
    &&& forall|i: int| 0 <= i < na.len() ==> (#[trigger] na[i]).id == nb[i].id && na[i].kind == nb[i].kind && na[i].attrs == nb[i].attrs
    &&& ea.len() == eb.len()
    &&& forall|i: int| 0 <= i < ea.len() ==> edge_key(#[trigger] ea[i]) == edge_key(eb[i]) && ea[i].attrs == eb[i].attrs
    &&& a.spec_pathways() == b.spec_pathways()
}

proof fn lemma_lookup_alike(na: Seq<NodeView>, nb: Seq<NodeView>, id: Seq<char>)
    requires
        na.len() == nb.len(),
        forall|i: int| 0 <= i < na.len() ==> (#[trigger] na[i]).id == nb[i].id && na[i].kind == nb[i].kind && na[i].attrs == nb[i].attrs,
    ensures
        node_lookup(na, id) is Some <==> node_lookup(nb, id) is Some,
        node_lookup(na, id) matches Some(x) ==> node_lookup(nb, id) matches Some(y) && x.kind == y.kind && x.attrs == y.attrs,
{
    crate::seqs::lemma_first_index(na, crate::graph::has_id(id));
    match first_index(na, crate::graph::has_id(id)) {
        Some(i) => {
            assert forall|k: int| 0 <= k < i implies !crate::graph::has_id(id)(#[trigger] nb[k]) by {
                assert(!crate::graph::has_id(id)(na[k]));
            }
            assert(crate::graph::has_id(id)(nb[i]));
            lemma_first_index_at(nb, crate::graph::has_id(id), i);
        },
        None => {
            assert forall|k: int| 0 <= k < nb.len() implies !crate::graph::has_id(id)(#[trigger] nb[k]) by {
                assert(!crate::graph::has_id(id)(na[k]));
            }
            lemma_first_index_at(nb, crate::graph::has_id(id), nb.len() as int);
        },
    }
}

proof fn lemma_keyed_alike(ea: Seq<EdgeView>, eb: Seq<EdgeView>, key: (Seq<char>, Seq<char>, Seq<char>), k: nat)
    requires
        ea.len() == eb.len(),
        k <= ea.len(),
        forall|i: int| 0 <= i < ea.len() ==> edge_key(#[trigger] ea[i]) == edge_key(eb[i]) && ea[i].attrs == eb[i].attrs,
    ensures
        keyed(ea, key, k).len() == keyed(eb, key, k).len(),
        forall|i: int| 0 <= i < keyed(ea, key, k).len() ==> (#[trigger] keyed(ea, key, k)[i]).attrs == keyed(eb, key, k)[i].attrs,
    decreases k,
{
    if k > 0 {
        lemma_keyed_alike(ea, eb, key, (k - 1) as nat);
        assert(edge_key(ea[k - 1]) == edge_key(eb[k - 1]));
    }
}

/// Diffing two registers that differ only in provenance reports nothing: a
/// declaration that merely moved lines does not diff.
pub proof fn lemma_diff_ignores_provenance(a: LatticeGraph, b: LatticeGraph)
    requires
        same_but_provenance(a, b),
    ensures
        ({
            let (na, nb, ea, eb) = (a.spec_nodes(), b.spec_nodes(), a.spec_edges(), b.spec_edges());
            let ids_a = id_set(na, na.len());
            let ids_b = id_set(nb, nb.len());
            let keys = edge_keys(ea, eb);
            let names = all_names(a.spec_pathways(), b.spec_pathways());
            &&& only_in(ids_b, ids_b.len(), na, nb).len() == 0
            &&& only_in(ids_a, ids_a.len(), nb, na).len() == 0
            &&& changed_nodes(ids_b, ids_b.len(), na, nb).len() == 0
            &&& surplus(keys, keys.len(), ea, eb).len() == 0
            &&& surplus(keys, keys.len(), eb, ea).len() == 0
            &&& changed_edges(keys, keys.len(), ea, eb).len() == 0
            &&& changed_names(names, names.len(), a.spec_pathways(), b.spec_pathways()).len() == 0
        }),
{
    let (na, nb, ea, eb) = (a.spec_nodes(), b.spec_nodes(), a.spec_edges(), b.spec_edges());
    assert forall|i: int| 0 <= i < nb.len() implies (#[trigger] nb[i]).id == na[i].id && nb[i].kind == na[i].kind
        && nb[i].attrs == na[i].attrs by {
        assert(na[i].id == nb[i].id);
    }
    assert forall|i: int| 0 <= i < eb.len() implies edge_key(#[trigger] eb[i]) == edge_key(ea[i]) && eb[i].attrs == ea[i].attrs by {
        assert(edge_key(ea[i]) == edge_key(eb[i]));
    }
    lemma_nodes_alike(id_set(nb, nb.len()), id_set(nb, nb.len()).len(), na, nb);
    lemma_nodes_alike(id_set(na, na.len()), id_set(na, na.len()).len(), nb, na);
    let keys = edge_keys(ea, eb);
    lemma_edges_alike(keys, keys.len(), ea, eb);
    lemma_edges_alike(keys, keys.len(), eb, ea);
    let names = all_names(a.spec_pathways(), b.spec_pathways());
    lemma_names_alike(names, names.len(), a.spec_pathways());
}

proof fn lemma_nodes_alike(ids: Seq<Seq<char>>, k: nat, na: Seq<NodeView>, nb: Seq<NodeView>)
    requires
        na.len() == nb.len(),
        forall|i: int| 0 <= i < na.len() ==> (#[trigger] na[i]).id == nb[i].id && na[i].kind == nb[i].kind && na[i].attrs == nb[i].attrs,
    ensures
        only_in(ids, k, na, nb).len() == 0,
        changed_nodes(ids, k, na, nb).len() == 0,
    decreases k,
{
    if k > 0 && k <= ids.len() {
        lemma_nodes_alike(ids, (k - 1) as nat, na, nb);
        lemma_lookup_alike(na, nb, ids[k - 1]);
    }
}

proof fn lemma_edges_alike(keys: Seq<(Seq<char>, Seq<char>, Seq<char>)>, k: nat, ea: Seq<EdgeView>, eb: Seq<EdgeView>)
    requires
        ea.len() == eb.len(),
        forall|i: int| 0 <= i < ea.len() ==> edge_key(#[trigger] ea[i]) == edge_key(eb[i]) && ea[i].attrs == eb[i].attrs,
    ensures
        surplus(keys, k, ea, eb).len() == 0,
        changed_edges(keys, k, ea, eb).len() == 0,
    decreases k,
{
    if k > 0 && k <= keys.len() {
        lemma_edges_alike(keys, (k - 1) as nat, ea, eb);
        let key = keys[k - 1];
        lemma_keyed_alike(ea, eb, key, ea.len());
        let la = keyed(ea, key, ea.len());
        let lb = keyed(eb, key, eb.len());
        lemma_pairs_alike(la, lb, la.len());
    }
}

proof fn lemma_pairs_alike(la: Seq<EdgeView>, lb: Seq<EdgeView>, i: nat)
    requires
        la.len() == lb.len(),
        forall|j: int| 0 <= j < la.len() ==> (#[trigger] la[j]).attrs == lb[j].attrs,
    ensures
        pair_changes(la, lb, i).len() == 0,
    decreases i,
{
    if i > 0 && i <= la.len() {
        lemma_pairs_alike(la, lb, (i - 1) as nat);
        assert(la[i - 1].attrs == lb[i - 1].attrs);
    }
}

proof fn lemma_names_alike(names: Seq<Seq<char>>, k: nat, p: Seq<PathwayView>)
    ensures
        changed_names(names, k, p, p).len() == 0,
    decreases k,
{
    if k > 0 && k <= names.len() {
        lemma_names_alike(names, (k - 1) as nat, p);
    }
}


/// How many times an identity occurs.
pub open spec fn key_count(s: Seq<(Seq<char>, Seq<char>, Seq<char>)>, x: (Seq<char>, Seq<char>, Seq<char>)) -> nat
    decreases s.len(),
{
    if s.len() == 0 {
        0
    } else {
        key_count(s.drop_last(), x) + if s.last() == x {
            1nat
        } else {
            0nat
        }
    }
}

proof fn lemma_key_count_add(a: Seq<(Seq<char>, Seq<char>, Seq<char>)>, b: Seq<(Seq<char>, Seq<char>, Seq<char>)>, x: (Seq<char>, Seq<char>, Seq<char>))
    ensures
        key_count(a + b, x) == key_count(a, x) + key_count(b, x),
    decreases b.len(),
{
    if b.len() == 0 {
        assert(a + b =~= a);
    } else {
        lemma_key_count_add(a, b.drop_last(), x);
        assert((a + b).drop_last() =~= a + b.drop_last());
    }
}

proof fn lemma_key_count_copies(y: (Seq<char>, Seq<char>, Seq<char>), n: int, x: (Seq<char>, Seq<char>, Seq<char>))
    ensures
        key_count(copies(y, n), x) == if y == x && n > 0 {
            n as nat
        } else {
            0nat
        },
    decreases if n > 0 {
        n
    } else {
        0
    },
{
    if n > 0 {
        lemma_key_count_copies(y, n - 1, x);
        assert(copies(y, n).drop_last() =~= copies(y, n - 1));
    } else {
        assert(copies(y, n) =~= Seq::<(Seq<char>, Seq<char>, Seq<char>)>::empty());
    }
}

proof fn lemma_key_lt_irreflexive(a: (Seq<char>, Seq<char>, Seq<char>))
    ensures
        !key_lt(a, a),
{
    crate::text::lemma_text_lt_irreflexive(a.0);
    crate::text::lemma_text_lt_irreflexive(a.1);
    crate::text::lemma_text_lt_irreflexive(a.2);
}

proof fn lemma_key_lt_transitive(a: (Seq<char>, Seq<char>, Seq<char>), b: (Seq<char>, Seq<char>, Seq<char>), c: (Seq<char>, Seq<char>, Seq<char>))
    requires
        key_lt(a, b),
        key_lt(b, c),
    ensures
        key_lt(a, c),
{
    if text_lt(a.0, b.0) && text_lt(b.0, c.0) {
        crate::text::lemma_text_lt_transitive(a.0, b.0, c.0);
    }
    if a.0 == b.0 && b.0 == c.0 {
        if text_lt(a.1, b.1) && text_lt(b.1, c.1) {
            crate::text::lemma_text_lt_transitive(a.1, b.1, c.1);
        }
        if a.1 == b.1 && b.1 == c.1 && text_lt(a.2, b.2) && text_lt(b.2, c.2) {
            crate::text::lemma_text_lt_transitive(a.2, b.2, c.2);
        }
    }
}

proof fn lemma_key_lt_total(a: (Seq<char>, Seq<char>, Seq<char>), b: (Seq<char>, Seq<char>, Seq<char>))
    ensures
        key_lt(a, b) || key_lt(b, a) || a == b,
{
    crate::text::lemma_text_lt_total(a.0, b.0);
    crate::text::lemma_text_lt_total(a.1, b.1);
    crate::text::lemma_text_lt_total(a.2, b.2);
}

/// Identities in strictly increasing order.
pub open spec fn keys_ascending(s: Seq<(Seq<char>, Seq<char>, Seq<char>)>) -> bool {
    forall|i: int, j: int| 0 <= i < j < s.len() ==> key_lt(#[trigger] s[i], #[trigger] s[j])
}

proof fn lemma_key_put(s: Seq<(Seq<char>, Seq<char>, Seq<char>)>, x: (Seq<char>, Seq<char>, Seq<char>))
    requires
        keys_ascending(s),
    ensures
        keys_ascending(key_put(s, x)),
        forall|y: (Seq<char>, Seq<char>, Seq<char>)| #[trigger] key_put(s, x).contains(y) <==> (s.contains(y) || y == x),
{
    let p = |t: (Seq<char>, Seq<char>, Seq<char>)| !key_lt(t, x);
    crate::seqs::lemma_first_index(s, p);
    let i = match first_index(s, p) {
        Some(i) => i,
        None => s.len() as int,
    };
    if 0 <= i < s.len() && s[i] == x {
    } else {
        let r = s.insert(i, x);
        if i < s.len() {
            lemma_key_lt_total(s[i], x);
        }
        assert forall|a: int, b: int| 0 <= a < b < r.len() implies key_lt(#[trigger] r[a], #[trigger] r[b]) by {
            if b < i {
            } else if a > i {
                assert(r[a] == s[a - 1] && r[b] == s[b - 1]);
            } else if a < i && b > i {
                assert(r[a] == s[a] && r[b] == s[b - 1]);
                assert(key_lt(s[a], x));
                if b - 1 > i {
                    assert(key_lt(s[i], s[b - 1]));
                    lemma_key_lt_transitive(x, s[i], s[b - 1]);
                }
                lemma_key_lt_transitive(s[a], x, s[b - 1]);
            } else if a == i {
                assert(r[b] == s[b - 1]);
                if b - 1 > i {
                    lemma_key_lt_transitive(x, s[i], s[b - 1]);
                }
            } else {
                assert(b == i && r[a] == s[a]);
            }
        }
        assert forall|y: (Seq<char>, Seq<char>, Seq<char>)| #[trigger] r.contains(y) <==> (s.contains(y) || y == x) by {
            if r.contains(y) {
                let k = choose|k: int| 0 <= k < r.len() && r[k] == y;
                if k < i {
                    assert(s[k] == y);
                } else if k > i {
                    assert(s[k - 1] == y);
                }
            }
            if s.contains(y) {
                let k = choose|k: int| 0 <= k < s.len() && s[k] == y;
                if k < i {
                    assert(r[k] == y);
                } else {
                    assert(r[k + 1] == y);
                }
            }
            if y == x {
                assert(r[i] == y);
            }
        }
    }
}

proof fn lemma_put_keys(s: Seq<(Seq<char>, Seq<char>, Seq<char>)>, es: Seq<EdgeView>, k: nat)
    requires
        keys_ascending(s),
        k <= es.len(),
    ensures
        keys_ascending(put_keys(s, es, k)),
        forall|y: (Seq<char>, Seq<char>, Seq<char>)| #[trigger] put_keys(s, es, k).contains(y) <==> (s.contains(y) || exists|j: int|
            0 <= j < k && edge_key(#[trigger] es[j]) == y),
    decreases k,
{
    if k > 0 {
        lemma_put_keys(s, es, (k - 1) as nat);
        lemma_key_put(put_keys(s, es, (k - 1) as nat), edge_key(es[k - 1]));
        assert forall|y: (Seq<char>, Seq<char>, Seq<char>)| #[trigger] put_keys(s, es, k).contains(y) <==> (s.contains(y) || exists|j: int|
            0 <= j < k && edge_key(#[trigger] es[j]) == y) by {
            if exists|j: int| 0 <= j < k && edge_key(#[trigger] es[j]) == y {
                let j = choose|j: int| 0 <= j < k && edge_key(#[trigger] es[j]) == y;
                if j < k - 1 {
                    assert(exists|q: int| 0 <= q < k - 1 && edge_key(#[trigger] es[q]) == y);
                }
            }
        }
    }
}

proof fn lemma_keyed_none(es: Seq<EdgeView>, x: (Seq<char>, Seq<char>, Seq<char>), k: nat)
    requires
        k <= es.len(),
        forall|j: int| 0 <= j < k ==> edge_key(#[trigger] es[j]) != x,
    ensures
        keyed(es, x, k).len() == 0,
    decreases k,
{
    if k > 0 {
        lemma_keyed_none(es, x, (k - 1) as nat);
    }
}

proof fn lemma_surplus_count(
    keys: Seq<(Seq<char>, Seq<char>, Seq<char>)>,
    k: nat,
    ea: Seq<EdgeView>,
    eb: Seq<EdgeView>,
    x: (Seq<char>, Seq<char>, Seq<char>),
)
    requires
        keys_ascending(keys),
        k <= keys.len(),
    ensures
        key_count(surplus(keys, k, ea, eb), x) == if keys.take(k as int).contains(x) && keyed(eb, x, eb.len()).len() > keyed(ea, x, ea.len()).len() {
            (keyed(eb, x, eb.len()).len() - keyed(ea, x, ea.len()).len()) as nat
        } else {
            0nat
        },
    decreases k,
{
    if k > 0 {
        lemma_surplus_count(keys, (k - 1) as nat, ea, eb, x);
        let y = keys[k - 1];
        lemma_key_count_add(
            surplus(keys, (k - 1) as nat, ea, eb),
            copies(y, keyed(eb, y, eb.len()).len() - keyed(ea, y, ea.len()).len()),
            x,
        );
        lemma_key_count_copies(y, keyed(eb, y, eb.len()).len() - keyed(ea, y, ea.len()).len(), x);
        assert(keys.take(k as int) =~= keys.take(k - 1).push(y));
        if keys.take(k - 1).contains(x) {
            let j = choose|j: int| 0 <= j < k - 1 && #[trigger] keys.take(k - 1)[j] == x;
            assert(keys.take(k as int)[j] == x);
        }
        if keys.take(k as int).contains(x) && y != x {
            let j = choose|j: int| 0 <= j < k && #[trigger] keys.take(k as int)[j] == x;
            assert(j < k - 1);
            assert(keys.take(k - 1)[j] == x);
        }
        if y == x {
            assert(keys.take(k as int)[k - 1] == x);
            if keys.take(k - 1).contains(x) {
                let j = choose|j: int| 0 <= j < k - 1 && #[trigger] keys.take(k - 1)[j] == x;
                assert(key_lt(keys[j], keys[k - 1]));
                lemma_key_lt_irreflexive(x);
            }
        }
    } else {
        assert(keys.take(0) =~= Seq::<(Seq<char>, Seq<char>, Seq<char>)>::empty());
    }
}

/// The IDs of the first `k` nodes, each once, in ID order.
proof fn lemma_id_set(ns: Seq<NodeView>, k: nat)
    requires
        k <= ns.len(),
    ensures
        crate::query::strictly_sorted(id_set(ns, k)),
        forall|x: Seq<char>| #[trigger] id_set(ns, k).contains(x) <==> exists|i: int| 0 <= i < k && ns[i].id == x,
    decreases k,
{
    if k > 0 {
        lemma_id_set(ns, (k - 1) as nat);
        let prev = id_set(ns, (k - 1) as nat);
        crate::coverage::lemma_text_put_sorted(prev, ns[k - 1].id);
        assert forall|x: Seq<char>| #[trigger] id_set(ns, k).contains(x) <==> exists|i: int| 0 <= i < k && ns[i].id == x by {
            crate::coverage::lemma_text_put_contains(prev, ns[k - 1].id, x);
            if exists|i: int| 0 <= i < k && ns[i].id == x {
                let i = choose|i: int| 0 <= i < k && ns[i].id == x;
                if i < k - 1 {
                    assert(prev.contains(x));
                }
            }
        }
    }
}

/// A node is found under `id` exactly when one is declared under it.
proof fn lemma_lookup_declares(ns: Seq<NodeView>, id: Seq<char>)
    ensures
        node_lookup(ns, id) is Some <==> declares(ns, id),
{
    crate::seqs::lemma_first_index(ns, crate::graph::has_id(id));
    if declares(ns, id) {
        let i = choose|i: int| 0 <= i < ns.len() && ns[i].id == id;
        assert(crate::graph::has_id(id)(ns[i]));
    }
}

/// What `only_in` keeps of the first `k` IDs: those `nb` declares and `na`
/// does not, in the order of `ids`.
proof fn lemma_only_in(ids: Seq<Seq<char>>, k: nat, na: Seq<NodeView>, nb: Seq<NodeView>)
    requires
        k <= ids.len(),
        crate::query::strictly_sorted(ids),
    ensures
        ({
            let out = only_in(ids, k, na, nb).map_values(|r: NodeRefView| r.id);
            &&& crate::query::strictly_sorted(out)
            &&& forall|i: int| 0 <= i < out.len() ==> exists|j: int| 0 <= j < k && #[trigger] out[i] == ids[j]
            &&& forall|x: Seq<char>| #[trigger] out.contains(x) <==> (exists|j: int| 0 <= j < k && ids[j] == x)
                && node_lookup(na, x) is None && node_lookup(nb, x) is Some
        }),
    decreases k,
{
    if k > 0 {
        lemma_only_in(ids, (k - 1) as nat, na, nb);
        let prev = only_in(ids, (k - 1) as nat, na, nb).map_values(|r: NodeRefView| r.id);
        let out = only_in(ids, k, na, nb).map_values(|r: NodeRefView| r.id);
        let y = ids[k - 1];
        match (node_lookup(na, y), node_lookup(nb, y)) {
            (None, Some(n)) => {
                assert(out =~= prev.push(y));
                assert forall|i: int, j: int| 0 <= i < j < out.len() implies crate::text::text_lt(#[trigger] out[i], #[trigger] out[j]) by {
                    if j == out.len() - 1 {
                        let jj = choose|jj: int| 0 <= jj < k - 1 && #[trigger] prev[i] == ids[jj];
                        assert(crate::text::text_lt(ids[jj], ids[k - 1]));
                    }
                }
                assert forall|i: int| 0 <= i < out.len() implies exists|j: int| 0 <= j < k && #[trigger] out[i] == ids[j] by {
                    if i == out.len() - 1 {
                        assert(out[i] == ids[k - 1]);
                    } else {
                        assert(out[i] == prev[i]);
                    }
                }
                assert forall|x: Seq<char>| #[trigger] out.contains(x) <==> (exists|j: int| 0 <= j < k && ids[j] == x)
                    && node_lookup(na, x) is None && node_lookup(nb, x) is Some by {
                    if out.contains(x) && x != y {
                        let i = choose|i: int| 0 <= i < out.len() && out[i] == x;
                        assert(prev[i] == x);
                        assert(prev.contains(x));
                    }
                    if x == y {
                        assert(out[out.len() - 1] == y);
                    }
                    if (exists|j: int| 0 <= j < k && ids[j] == x) && node_lookup(na, x) is None && node_lookup(nb, x) is Some && x != y {
                        let j = choose|j: int| 0 <= j < k && ids[j] == x;
                        assert(j < k - 1);
                        assert(prev.contains(x));
                        let i = choose|i: int| 0 <= i < prev.len() && prev[i] == x;
                        assert(out[i] == x);
                    }
                }
            },
            _ => {
                assert(out =~= prev);
                assert forall|x: Seq<char>| #[trigger] out.contains(x) <==> (exists|j: int| 0 <= j < k && ids[j] == x)
                    && node_lookup(na, x) is None && node_lookup(nb, x) is Some by {
                    if (exists|j: int| 0 <= j < k && ids[j] == x) && node_lookup(na, x) is None && node_lookup(nb, x) is Some {
                        let j = choose|j: int| 0 <= j < k && ids[j] == x;
                        assert(j != k - 1);
                    }
                }
            },
        }
    }
}

/// The nodes a diff reports added are exactly those whose IDs `b` declares and
/// `a` does not, each once and in ID order. The nodes it reports removed are
/// the same with the two graphs swapped.
pub proof fn law_diff_added_nodes(na: Seq<NodeView>, nb: Seq<NodeView>)
    ensures
        ({
            let ids = id_set(nb, nb.len());
            let added = only_in(ids, ids.len(), na, nb).map_values(|r: NodeRefView| r.id);
            &&& crate::query::strictly_sorted(added)
            &&& forall|x: Seq<char>| #[trigger] added.contains(x) <==> declares(nb, x) && !declares(na, x)
        }),
{
    lemma_id_set(nb, nb.len());
    let ids = id_set(nb, nb.len());
    lemma_only_in(ids, ids.len(), na, nb);
    let added = only_in(ids, ids.len(), na, nb).map_values(|r: NodeRefView| r.id);
    assert forall|x: Seq<char>| #[trigger] added.contains(x) <==> declares(nb, x) && !declares(na, x) by {
        lemma_lookup_declares(na, x);
        lemma_lookup_declares(nb, x);
        assert(ids.contains(x) <==> exists|i: int| 0 <= i < nb.len() && nb[i].id == x);
        if declares(nb, x) {
            assert(ids.contains(x));
            let j = choose|j: int| 0 <= j < ids.len() && ids[j] == x;
            assert(exists|j: int| 0 <= j < ids.len() && ids[j] == x);
        }
        if added.contains(x) {
            let j = choose|j: int| 0 <= j < ids.len() && ids[j] == x;
            assert(ids.contains(x));
        }
    }
}


/// What a diff reports of the edges: for each identity, the edges added less
/// the edges removed are what B holds less what A holds, and no identity is
/// both added and removed.
pub proof fn law_diff_edge_counts(ea: Seq<EdgeView>, eb: Seq<EdgeView>, x: (Seq<char>, Seq<char>, Seq<char>))
    ensures
        key_count(surplus(edge_keys(ea, eb), edge_keys(ea, eb).len(), ea, eb), x) - key_count(
            surplus(edge_keys(ea, eb), edge_keys(ea, eb).len(), eb, ea),
            x,
        ) == keyed(eb, x, eb.len()).len() - keyed(ea, x, ea.len()).len(),
        !(key_count(surplus(edge_keys(ea, eb), edge_keys(ea, eb).len(), ea, eb), x) > 0 && key_count(
            surplus(edge_keys(ea, eb), edge_keys(ea, eb).len(), eb, ea),
            x,
        ) > 0),
{
    let e0 = Seq::<(Seq<char>, Seq<char>, Seq<char>)>::empty();
    lemma_put_keys(e0, ea, ea.len());
    let ka = put_keys(e0, ea, ea.len());
    lemma_put_keys(ka, eb, eb.len());
    let keys = edge_keys(ea, eb);
    lemma_surplus_count(keys, keys.len(), ea, eb, x);
    lemma_surplus_count(keys, keys.len(), eb, ea, x);
    assert(keys.take(keys.len() as int) =~= keys);
    if !keys.contains(x) {
        assert(!ka.contains(x));
        assert forall|j: int| 0 <= j < ea.len() implies edge_key(#[trigger] ea[j]) != x by {
            if edge_key(ea[j]) == x {
                assert(exists|q: int| 0 <= q < ea.len() && edge_key(#[trigger] ea[q]) == x);
            }
        }
        assert forall|j: int| 0 <= j < eb.len() implies edge_key(#[trigger] eb[j]) != x by {
            if edge_key(eb[j]) == x {
                assert(exists|q: int| 0 <= q < eb.len() && edge_key(#[trigger] eb[q]) == x);
            }
        }
        lemma_keyed_none(ea, x, ea.len());
        lemma_keyed_none(eb, x, eb.len());
    }
}

} // verus!
