//! The in-memory register: nodes, edges, pathways and accumulated adapter issues.

use vstd::prelude::*;

use crate::json::{members_view, Json, JsonValue};
use crate::seqs::{first_index, lemma_first_index, lemma_first_index_at};
use crate::text::{compare_text, push_str, str_eq, text_lt, texts, lemma_text_lt_irreflexive, lemma_text_lt_transitive, lemma_text_lt_total};
use crate::types::{Issue, Provenance, ProvenanceView, provenance_text};

verus! {

/// An ordering pathway read from the target: its positions and where it stands now.
pub struct Pathway {
    pub name: String,
    pub order: Vec<String>,
    pub current: String,
}

pub struct PathwayView {
    pub name: Seq<char>,
    pub order: Seq<Seq<char>>,
    pub current: Seq<char>,
}

impl View for Pathway {
    type V = PathwayView;

    open spec fn view(&self) -> PathwayView {
        PathwayView { name: self.name@, order: texts(self.order@), current: self.current@ }
    }
}

/// Equal to `x`.
pub open spec fn same_text(x: Seq<char>) -> spec_fn(Seq<char>) -> bool {
    |p: Seq<char>| p == x
}

/// A node declared under `id`.
pub open spec fn has_id(id: Seq<char>) -> spec_fn(NodeView) -> bool {
    |n: NodeView| n.id == id
}

/// A pathway named `name`.
pub open spec fn has_name(name: Seq<char>) -> spec_fn(PathwayView) -> bool {
    |p: PathwayView| p.name == name
}

/// The position of `position` in `order`.
pub open spec fn position_index(order: Seq<Seq<char>>, position: Seq<char>) -> Option<int> {
    first_index(order, same_text(position))
}

pub proof fn lemma_position_index(order: Seq<Seq<char>>, position: Seq<char>)
    ensures
        position_index(order, position) matches Some(i) ==> 0 <= i < order.len() && order[i] == position,
        position_index(order, position) is None ==> !order.contains(position),
{
    lemma_first_index(order, same_text(position));
    if position_index(order, position) is None {
        if order.contains(position) {
            let k = choose|k: int| 0 <= k < order.len() && order[k] == position;
            assert(same_text(position)(order[k]));
        }
    }
}

/// True when `position` sits strictly later on the pathway than its current position.
pub open spec fn spec_is_after(p: PathwayView, position: Seq<char>) -> bool {
    match (position_index(p.order, position), position_index(p.order, p.current)) {
        (Some(at), Some(now)) => at > now,
        _ => false,
    }
}

/// A pathway the graph accepts: no repeated position, and `current` among them.
pub open spec fn pathway_valid(p: PathwayView) -> bool {
    &&& forall|i: int, j: int| 0 <= i < j < p.order.len() ==> p.order[i] != p.order[j]
    &&& p.order.contains(p.current)
}

/// Why a pathway is refused: repeated positions, else a current position
/// outside the order.
pub open spec fn pathway_error_text(p: PathwayView) -> Seq<char> {
    if exists|i: int, j: int| 0 <= i < j < p.order.len() && p.order[i] == p.order[j] {
        "pathway '"@ + p.name + "': positions are not unique"@
    } else {
        "pathway '"@ + p.name + "': current position '"@ + p.current + "' is not in its order"@
    }
}

impl Pathway {
    /// A copy of this pathway.
    pub fn copy(&self) -> (r: Pathway)
        ensures
            r@ == self@,
    {
        Pathway { name: self.name.clone(), order: copy_strings(&self.order), current: self.current.clone() }
    }

    /// True when `position` is one of this pathway's declared positions.
    pub fn is_member(&self, position: &str) -> (r: bool)
        ensures
            r == self@.order.contains(position@),
    {
        let r = self.index_of(position);
        proof {
            lemma_first_index(self@.order, same_text(position@));
        }
        r.is_some()
    }

    /// True when `position` sits strictly later on the pathway than `current`.
    ///
    /// False for a non-member, which callers must screen with `is_member` first.
    pub fn is_after(&self, position: &str) -> (r: bool)
        ensures
            r == spec_is_after(self@, position@),
    {
        let at = self.index_of(position);
        let now = self.index_of(self.current.as_str());
        match (at, now) {
            (Some(at), Some(now)) => at > now,
            _ => false,
        }
    }

    fn index_of(&self, position: &str) -> (r: Option<usize>)
        ensures
            r matches Some(i) ==> position_index(self@.order, position@) == Some(i as int),
            r is None ==> position_index(self@.order, position@) is None,
    {
        let ghost order = self@.order;
        let mut i: usize = 0;
        while i < self.order.len()
            invariant
                i <= self.order.len(),
                order == texts(self.order@),
                forall|k: int| 0 <= k < i ==> order[k] != position@,
            decreases self.order.len() - i,
        {
            if str_eq(self.order[i].as_str(), position) {
                proof {
                    lemma_first_index_at(order, same_text(position@), i as int);
                }
                return Some(i);
            }
            i += 1;
        }
        proof {
            lemma_first_index_at(order, same_text(position@), i as int);
        }
        None
    }
}

/// A position after the current one is a member of the pathway.
pub proof fn law_after_implies_member(pathway: PathwayView, position: Seq<char>)
    ensures
        spec_is_after(pathway, position) ==> pathway.order.contains(position),
{
    lemma_position_index(pathway.order, position);
    if spec_is_after(pathway, position) {
        let at = position_index(pathway.order, position)->0;
        assert(pathway.order[at] == position);
    }
}

pub fn copy_strings(v: &Vec<String>) -> (r: Vec<String>)
    ensures
        texts(r@) == texts(v@),
{
    let mut r: Vec<String> = Vec::new();
    let mut i: usize = 0;
    while i < v.len()
        invariant
            i <= v.len(),
            r.len() == i,
            forall|k: int| 0 <= k < i ==> (#[trigger] r@[k])@ == v@[k]@,
        decreases v.len() - i,
    {
        r.push(v[i].clone());
        i += 1;
    }
    assert(texts(r@) =~= texts(v@));
    r
}

/// A pathway the graph refuses: repeated positions, or a `current` outside the order.
pub struct PathwayError(pub String);

/// A repeated node ID, carrying both provenances so the caller can report them.
pub struct DuplicateNode {
    pub node_id: String,
    pub existing_provenance: Provenance,
    pub new_provenance: Provenance,
}

impl DuplicateNode {
    /// The display form of the refusal.
    pub fn to_text(&self) -> (s: String)
        ensures
            s@ == "duplicate node '"@ + self.node_id@ + "': first at "@ + provenance_text(
                self.existing_provenance@,
            ) + ", second at "@ + provenance_text(self.new_provenance@),
    {
        let mut s = String::new();
        push_str(&mut s, "duplicate node '");
        push_str(&mut s, self.node_id.as_str());
        push_str(&mut s, "': first at ");
        let a = self.existing_provenance.to_text();
        push_str(&mut s, a.as_str());
        push_str(&mut s, ", second at ");
        let b = self.new_provenance.to_text();
        push_str(&mut s, b.as_str());
        s
    }
}

/// A node as stored: its declared kind, attrs and provenance.
pub struct Node {
    pub id: String,
    pub kind: String,
    pub attrs: Vec<(String, JsonValue)>,
    pub provenance: Provenance,
}

pub struct NodeView {
    pub id: Seq<char>,
    pub kind: Seq<char>,
    pub attrs: Seq<(Seq<char>, Json)>,
    pub provenance: ProvenanceView,
}

impl View for Node {
    type V = NodeView;

    open spec fn view(&self) -> NodeView {
        NodeView {
            id: self.id@,
            kind: self.kind@,
            attrs: members_view(self.attrs@),
            provenance: self.provenance@,
        }
    }
}

/// An edge as stored. Parallel edges are distinct, each keeping its own provenance.
pub struct Edge {
    pub src: String,
    pub tgt: String,
    pub kind: String,
    pub attrs: Vec<(String, JsonValue)>,
    pub provenance: Provenance,
}

pub struct EdgeView {
    pub src: Seq<char>,
    pub tgt: Seq<char>,
    pub kind: Seq<char>,
    pub attrs: Seq<(Seq<char>, Json)>,
    pub provenance: ProvenanceView,
}

impl View for Edge {
    type V = EdgeView;

    open spec fn view(&self) -> EdgeView {
        EdgeView {
            src: self.src@,
            tgt: self.tgt@,
            kind: self.kind@,
            attrs: members_view(self.attrs@),
            provenance: self.provenance@,
        }
    }
}

/// The named inputs needed to add an edge to a graph.
pub struct EdgeSpec {
    pub src: String,
    pub tgt: String,
    pub kind: String,
    pub attrs: Vec<(String, JsonValue)>,
}

pub open spec fn nodes_view(s: Seq<Node>) -> Seq<NodeView> {
    s.map_values(|n: Node| n@)
}

pub open spec fn edges_view(s: Seq<Edge>) -> Seq<EdgeView> {
    s.map_values(|e: Edge| e@)
}

pub open spec fn pathways_view(s: Seq<Pathway>) -> Seq<PathwayView> {
    s.map_values(|p: Pathway| p@)
}

/// No two nodes share an ID.
pub open spec fn ids_unique(s: Seq<NodeView>) -> bool {
    forall|i: int, j: int| 0 <= i < s.len() && 0 <= j < s.len() && i != j ==> s[i].id != s[j].id
}

/// The node declared under `id`.
pub open spec fn node_lookup(s: Seq<NodeView>, id: Seq<char>) -> Option<NodeView> {
    match first_index(s, has_id(id)) {
        Some(i) => Some(s[i]),
        None => None,
    }
}

/// Whether a node is declared under `id`.
pub open spec fn declares(s: Seq<NodeView>, id: Seq<char>) -> bool {
    exists|i: int| 0 <= i < s.len() && s[i].id == id
}

/// Pathways in strictly increasing name order, each of them valid.
pub open spec fn pathways_wf(s: Seq<PathwayView>) -> bool {
    &&& forall|i: int, j: int| 0 <= i < j < s.len() ==> text_lt(s[i].name, s[j].name)
    &&& forall|i: int| 0 <= i < s.len() ==> pathway_valid(#[trigger] s[i])
}

/// The pathway named `name`.
pub open spec fn pathway_lookup(s: Seq<PathwayView>, name: Seq<char>) -> Option<PathwayView> {
    match first_index(s, has_name(name)) {
        Some(i) => Some(s[i]),
        None => None,
    }
}

/// A typed node/edge register with provenance and accumulated parse issues.
///
/// Edges hold endpoint IDs as plain strings and never materialize a node, so an
/// unresolved reference surfaces as a VACANCY at validation.
pub struct LatticeGraph {
    nodes: Vec<Node>,
    edges: Vec<Edge>,
    issues: Vec<Issue>,
    pathways: Vec<Pathway>,
}

impl LatticeGraph {
    /// Node IDs are unique, and pathways are valid and kept in name order.
    pub closed spec fn wf(&self) -> bool {
        ids_unique(nodes_view(self.nodes@)) && pathways_wf(pathways_view(self.pathways@))
    }

    /// The nodes, in the order they were added.
    pub closed spec fn spec_nodes(&self) -> Seq<NodeView> {
        nodes_view(self.nodes@)
    }

    /// The edges, in the order they were added.
    pub closed spec fn spec_edges(&self) -> Seq<EdgeView> {
        edges_view(self.edges@)
    }

    /// The adapter issues, in the order they were added.
    pub closed spec fn spec_issues(&self) -> Seq<crate::types::IssueView> {
        crate::types::issues_view(self.issues@)
    }

    /// The pathways, in name order.
    pub closed spec fn spec_pathways(&self) -> Seq<PathwayView> {
        pathways_view(self.pathways@)
    }

    pub fn new() -> (g: LatticeGraph)
        ensures
            g.spec_nodes() == Seq::<NodeView>::empty(),
            g.spec_edges() == Seq::<EdgeView>::empty(),
            g.spec_issues() == Seq::<crate::types::IssueView>::empty(),
            g.spec_pathways() == Seq::<PathwayView>::empty(),
            g.wf(),
    {
        let g = LatticeGraph { nodes: Vec::new(), edges: Vec::new(), issues: Vec::new(), pathways: Vec::new() };
        assert(g.spec_nodes() =~= Seq::<NodeView>::empty());
        assert(g.spec_edges() =~= Seq::<EdgeView>::empty());
        assert(g.spec_issues() =~= Seq::<crate::types::IssueView>::empty());
        assert(g.spec_pathways() =~= Seq::<PathwayView>::empty());
        g
    }

    fn find(&self, id: &str) -> (r: Option<usize>)
        ensures
            r matches Some(i) ==> i < self.nodes.len() && first_index(
                self.spec_nodes(),
                has_id(id@),
            ) == Some(i as int),
            r is None ==> first_index(self.spec_nodes(), has_id(id@)) is None,
    {
        let ghost s = self.spec_nodes();
        let mut i: usize = 0;
        while i < self.nodes.len()
            invariant
                i <= self.nodes.len(),
                s == nodes_view(self.nodes@),
                forall|k: int| 0 <= k < i ==> s[k].id != id@,
            decreases self.nodes.len() - i,
        {
            if str_eq(self.nodes[i].id.as_str(), id) {
                proof {
                    lemma_first_index_at(s, has_id(id@), i as int);
                }
                return Some(i);
            }
            i += 1;
        }
        proof {
            lemma_first_index_at(s, has_id(id@), i as int);
        }
        None
    }

    /// Add a node, or report the repeat. First declaration wins.
    pub fn add_node(
        &mut self,
        id: String,
        kind: String,
        attrs: Vec<(String, JsonValue)>,
        provenance: Provenance,
    ) -> (r: Result<(), DuplicateNode>)
        requires
            old(self).wf(),
        ensures
            final(self).wf(),
            final(self).spec_edges() == old(self).spec_edges(),
            final(self).spec_issues() == old(self).spec_issues(),
            final(self).spec_pathways() == old(self).spec_pathways(),
            match r {
                Ok(()) => {
                    &&& !declares(old(self).spec_nodes(), id@)
                    &&& final(self).spec_nodes() == old(self).spec_nodes().push(
                        NodeView { id: id@, kind: kind@, attrs: members_view(attrs@), provenance: provenance@ },
                    )
                },
                Err(d) => {
                    &&& node_lookup(old(self).spec_nodes(), id@) matches Some(n)
                    &&& d.node_id@ == id@
                    &&& d.existing_provenance@ == n.provenance
                    &&& d.new_provenance@ == provenance@
                    &&& final(self).spec_nodes() == old(self).spec_nodes()
                },
            },
    {
        match self.find(id.as_str()) {
            Some(at) => {
                proof {
                    lemma_first_index(self.spec_nodes(), has_id(id@));
                }
                let existing = self.nodes[at].provenance.copy();
                Err(DuplicateNode { node_id: id, existing_provenance: existing, new_provenance: provenance })
            },
            None => {
                proof {
                    lemma_first_index(self.spec_nodes(), has_id(id@));
                }
                let ghost old_nodes = self.spec_nodes();
                let node = Node { id, kind, attrs, provenance };
                self.nodes.push(node);
                assert(self.spec_nodes() =~= old_nodes.push(node@));
                Ok(())
            },
        }
    }

    pub fn add_edge(&mut self, edge: EdgeSpec, provenance: Provenance)
        requires
            old(self).wf(),
        ensures
            final(self).wf(),
            final(self).spec_nodes() == old(self).spec_nodes(),
            final(self).spec_issues() == old(self).spec_issues(),
            final(self).spec_pathways() == old(self).spec_pathways(),
            final(self).spec_edges() == old(self).spec_edges().push(
                EdgeView {
                    src: edge.src@,
                    tgt: edge.tgt@,
                    kind: edge.kind@,
                    attrs: members_view(edge.attrs@),
                    provenance: provenance@,
                },
            ),
    {
        let ghost old_edges = self.spec_edges();
        let e = Edge { src: edge.src, tgt: edge.tgt, kind: edge.kind, attrs: edge.attrs, provenance };
        self.edges.push(e);
        assert(self.spec_edges() =~= old_edges.push(e@));
    }

    pub fn add_issue(&mut self, issue: Issue)
        requires
            old(self).wf(),
        ensures
            final(self).wf(),
            final(self).spec_nodes() == old(self).spec_nodes(),
            final(self).spec_edges() == old(self).spec_edges(),
            final(self).spec_pathways() == old(self).spec_pathways(),
            final(self).spec_issues() == old(self).spec_issues().push(issue@),
    {
        let ghost old_issues = self.spec_issues();
        let ghost v = issue@;
        self.issues.push(issue);
        assert(self.spec_issues() =~= old_issues.push(v));
    }

    /// Attach an ordering pathway the adapter read from the target.
    ///
    /// Rejects rather than repairing: repeated positions, or a current position
    /// outside the order. A second pathway of one name replaces the first.
    pub fn set_pathway(&mut self, name: String, order: Vec<String>, current: String) -> (r: Result<
        (),
        PathwayError,
    >)
        requires
            old(self).wf(),
        ensures
            final(self).wf(),
            final(self).spec_nodes() == old(self).spec_nodes(),
            final(self).spec_edges() == old(self).spec_edges(),
            final(self).spec_issues() == old(self).spec_issues(),
            r is Ok <==> pathway_valid(PathwayView { name: name@, order: texts(order@), current: current@ }),
            r is Ok ==> pathway_lookup(final(self).spec_pathways(), name@) == Some(
                PathwayView { name: name@, order: texts(order@), current: current@ },
            ),
            r is Ok ==> forall|other: Seq<char>|
                other != name@ ==> pathway_lookup(final(self).spec_pathways(), other)
                    == pathway_lookup(old(self).spec_pathways(), other),
            r is Err ==> final(self).spec_pathways() == old(self).spec_pathways(),
            r matches Err(e) ==> e.0@ == pathway_error_text(PathwayView { name: name@, order: texts(order@), current: current@ }),
    {
        let ghost pv = PathwayView { name: name@, order: texts(order@), current: current@ };
        let mut i: usize = 0;
        while i < order.len()
            invariant
                i <= order.len(),
                self.wf(),
                *self == *old(self),
                pv == (PathwayView { name: name@, order: texts(order@), current: current@ }),
                forall|a: int, b: int| 0 <= a < b < i ==> texts(order@)[a] != texts(order@)[b],
            decreases order.len() - i,
        {
            let mut j: usize = 0;
            while j < i
                invariant
                    j <= i < order.len(),
                    self.wf(),
                    *self == *old(self),
                    pv == (PathwayView { name: name@, order: texts(order@), current: current@ }),
                    forall|b: int| 0 <= b < j ==> texts(order@)[b] != texts(order@)[i as int],
                decreases i - j,
            {
                if order[j] == order[i] {
                    assert(texts(order@)[j as int] == texts(order@)[i as int]);
                    let mut message = String::new();
                    push_str(&mut message, "pathway '");
                    push_str(&mut message, name.as_str());
                    push_str(&mut message, "': positions are not unique");
                    assert(pv.order[j as int] == pv.order[i as int]);
                    assert(message@ =~= pathway_error_text(pv));
                    return Err(PathwayError(message));
                }
                j += 1;
            }
            i += 1;
        }
        let mut found = false;
        let mut k: usize = 0;
        while k < order.len()
            invariant
                k <= order.len(),
                self.wf(),
                *self == *old(self),
                found == exists|b: int| 0 <= b < k && texts(order@)[b] == current@,
            decreases order.len() - k,
        {
            assert(texts(order@)[k as int] == order@[k as int]@);
            if order[k] == current {
                found = true;
            }
            k += 1;
        }
        if !found {
            assert(!texts(order@).contains(current@));
            let mut message = String::new();
            push_str(&mut message, "pathway '");
            push_str(&mut message, name.as_str());
            push_str(&mut message, "': current position '");
            push_str(&mut message, current.as_str());
            push_str(&mut message, "' is not in its order");
            assert(message@ =~= pathway_error_text(pv));
            return Err(PathwayError(message));
        }
        assert(pathway_valid(pv));
        let pathway = Pathway { name, order, current };
        self.place_pathway(pathway);
        Ok(())
    }

    fn place_pathway(&mut self, pathway: Pathway)
        requires
            old(self).wf(),
            pathway_valid(pathway@),
        ensures
            final(self).spec_nodes() == old(self).spec_nodes(),
            final(self).spec_edges() == old(self).spec_edges(),
            final(self).spec_issues() == old(self).spec_issues(),
            final(self).wf(),
            pathway_lookup(final(self).spec_pathways(), pathway@.name) == Some(pathway@),
            forall|other: Seq<char>|
                other != pathway@.name ==> pathway_lookup(final(self).spec_pathways(), other)
                    == pathway_lookup(old(self).spec_pathways(), other),
    {
        let ghost old_p = self.spec_pathways();
        let ghost pv = pathway@;
        let mut i: usize = 0;
        while i < self.pathways.len()
            invariant
                i <= self.pathways.len(),
                old_p == pathways_view(self.pathways@),
                pathways_wf(old_p),
                forall|k: int| 0 <= k < i ==> text_lt(#[trigger] old_p[k].name, pv.name),
                pv == pathway@,
                self.wf(),
            ensures
                i <= self.pathways.len(),
                old_p == pathways_view(self.pathways@),
                forall|k: int| 0 <= k < i ==> text_lt(#[trigger] old_p[k].name, pv.name),
                i < self.pathways.len() ==> !text_lt(old_p[i as int].name, pv.name),
            decreases self.pathways.len() - i,
        {
            assert(old_p[i as int].name == self.pathways@[i as int].name@);
            if compare_text(self.pathways[i].name.as_str(), pathway.name.as_str()) != -1 {
                break;
            }
            i += 1;
        }
        let replace = i < self.pathways.len() && self.pathways[i].name == pathway.name;
        proof {
            assert forall|k: int| 0 <= k < i implies #[trigger] old_p[k].name != pv.name by {
                lemma_text_lt_irreflexive(pv.name);
            }
            if i < old_p.len() && !replace {
                lemma_text_lt_total(old_p[i as int].name, pv.name);
            }
            assert forall|k: int| i < k < old_p.len() implies #[trigger] old_p[k].name != pv.name by {
                if i < old_p.len() {
                    if replace {
                        assert(text_lt(old_p[i as int].name, old_p[k].name));
                        lemma_text_lt_irreflexive(pv.name);
                    } else {
                        assert(text_lt(old_p[i as int].name, old_p[k].name));
                        lemma_text_lt_transitive(pv.name, old_p[i as int].name, old_p[k].name);
                        lemma_text_lt_irreflexive(pv.name);
                    }
                }
            }
        }
        if replace {
            self.pathways.set(i, pathway);
            proof {
                let np = self.spec_pathways();
                assert(np =~= old_p.update(i as int, pv));
                assert forall|k: int| 0 <= k < np.len() implies #[trigger] np[k].name == old_p[k].name by {}
                assert(pathways_wf(np));
                lemma_first_index_at(np, has_name(pv.name), i as int);
                assert forall|other: Seq<char>| other != pv.name implies pathway_lookup(np, other)
                    == pathway_lookup(old_p, other) by {
                    lemma_first_index(old_p, has_name(other));
                    lemma_first_index(np, has_name(other));
                    match first_index(old_p, has_name(other)) {
                        Some(a) => {
                            lemma_first_index_at(np, has_name(other), a);
                        },
                        None => {
                            lemma_first_index_at(np, has_name(other), np.len() as int);
                        },
                    }
                }
            }
        } else {
            self.pathways.insert(i, pathway);
            proof {
                let np = self.spec_pathways();
                assert(np =~= old_p.insert(i as int, pv));
                assert forall|a: int, b: int| 0 <= a < b < np.len() implies text_lt(
                    np[a].name,
                    np[b].name,
                ) by {
                    if b < i {
                    } else if a > i {
                    } else if a == i {
                        assert(np[b] == old_p[b - 1]);
                        if b - 1 > i {
                            lemma_text_lt_transitive(pv.name, old_p[i as int].name, old_p[b - 1].name);
                        }
                    } else if b == i {
                        if a < i - 1 {
                            lemma_text_lt_transitive(old_p[a].name, old_p[i - 1].name, pv.name);
                        }
                    } else {
                        assert(np[b] == old_p[b - 1]);
                    }
                }
                assert(pathways_wf(np));
                lemma_first_index_at(np, has_name(pv.name), i as int);
                assert forall|other: Seq<char>| other != pv.name implies pathway_lookup(np, other)
                    == pathway_lookup(old_p, other) by {
                    lemma_first_index(old_p, has_name(other));
                    match first_index(old_p, has_name(other)) {
                        Some(a) => {
                            if a < i {
                                lemma_first_index_at(np, has_name(other), a);
                            } else {
                                assert(np[a + 1] == old_p[a]);
                                lemma_first_index_at(np, has_name(other), a + 1);
                            }
                        },
                        None => {
                            lemma_first_index_at(np, has_name(other), np.len() as int);
                        },
                    }
                }
            }
        }
    }

    pub fn pathway(&self, name: &str) -> (r: Option<&Pathway>)
        ensures
            r matches Some(p) ==> pathway_lookup(self.spec_pathways(), name@) == Some(p@),
            r is None ==> pathway_lookup(self.spec_pathways(), name@) is None,
    {
        let ghost s = self.spec_pathways();
        let mut i: usize = 0;
        while i < self.pathways.len()
            invariant
                i <= self.pathways.len(),
                s == pathways_view(self.pathways@),
                forall|k: int| 0 <= k < i ==> s[k].name != name@,
            decreases self.pathways.len() - i,
        {
            if str_eq(self.pathways[i].name.as_str(), name) {
                proof {
                    lemma_first_index_at(s, has_name(name@), i as int);
                }
                return Some(&self.pathways[i]);
            }
            i += 1;
        }
        proof {
            lemma_first_index_at(s, has_name(name@), i as int);
        }
        None
    }

    /// The attached pathways, in name order.
    pub fn iter_pathways(&self) -> (r: &Vec<Pathway>)
        requires
            self.wf(),
        ensures
            pathways_view(r@) == self.spec_pathways(),
            pathways_wf(self.spec_pathways()),
    {
        &self.pathways
    }

    pub fn adapter_issues(&self) -> (r: &Vec<Issue>)
        ensures
            crate::types::issues_view(r@) == self.spec_issues(),
    {
        &self.issues
    }

    pub fn has_node(&self, id: &str) -> (r: bool)
        ensures
            r == declares(self.spec_nodes(), id@),
    {
        let r = self.find(id);
        proof {
            lemma_first_index(self.spec_nodes(), has_id(id@));
        }
        r.is_some()
    }

    pub fn node(&self, id: &str) -> (r: Option<&Node>)
        ensures
            r matches Some(n) ==> node_lookup(self.spec_nodes(), id@) == Some(n@) && n@.id == id@,
            r is None ==> node_lookup(self.spec_nodes(), id@) is None,
            r is Some == declares(self.spec_nodes(), id@),
    {
        proof {
            lemma_first_index(self.spec_nodes(), has_id(id@));
        }
        match self.find(id) {
            Some(at) => Some(&self.nodes[at]),
            None => None,
        }
    }

    /// The explicitly added nodes, in the order they were added.
    pub fn iter_nodes(&self) -> (r: &Vec<Node>)
        requires
            self.wf(),
        ensures
            nodes_view(r@) == self.spec_nodes(),
            ids_unique(self.spec_nodes()),
    {
        &self.nodes
    }

    pub fn iter_edges(&self) -> (r: &Vec<Edge>)
        ensures
            edges_view(r@) == self.spec_edges(),
    {
        &self.edges
    }
}

} // verus!
