//! The interface document an adapter writes: nodes, edges, pathways and the
//! findings the adapter itself raised while reading its source.

use vstd::prelude::*;

use crate::json::{members_view, Json, JsonValue};
use crate::text::texts;
use crate::types::opt_view;

verus! {

/// The interface version adapters declare.
pub const INTERFACE_VERSION: &'static str = "1.2";

/// Where an adapter read something: a file and a line, `0` for the file itself.
pub struct Provenance {
    pub file: String,
    pub line: u32,
}

pub struct ProvenanceView {
    pub file: Seq<char>,
    pub line: u32,
}

impl View for Provenance {
    type V = ProvenanceView;

    open spec fn view(&self) -> ProvenanceView {
        ProvenanceView { file: self.file@, line: self.line }
    }
}

impl Provenance {
    pub fn new(file: String, line: u32) -> (p: Provenance)
        ensures
            p@ == (ProvenanceView { file: file@, line }),
    {
        Provenance { file, line }
    }

    /// The provenance of a whole file.
    pub fn new_file(file: String) -> (p: Provenance)
        ensures
            p@ == (ProvenanceView { file: file@, line: 0 }),
    {
        Self::new(file, 0)
    }

    pub fn copy(&self) -> (p: Provenance)
        ensures
            p@ == self@,
    {
        Provenance { file: self.file.clone(), line: self.line }
    }
}

pub struct Node {
    pub id: String,
    pub kind: String,
    /// Attrs in key order.
    pub attrs: Vec<(String, JsonValue)>,
    pub provenance: Provenance,
}

pub struct NodeView {
    pub id: Seq<char>,
    pub kind: Seq<char>,
    pub attrs: Seq<(Seq<char>, Json)>,
    pub provenance: ProvenanceView,
}

impl View for Node {
    type V = NodeView;

    open spec fn view(&self) -> NodeView {
        NodeView { id: self.id@, kind: self.kind@, attrs: members_view(self.attrs@), provenance: self.provenance@ }
    }
}

pub struct Edge {
    pub src: String,
    pub tgt: String,
    pub kind: String,
    /// Attrs in key order; written out only when there are any.
    pub attrs: Vec<(String, JsonValue)>,
    pub provenance: Provenance,
}

pub struct EdgeView {
    pub src: Seq<char>,
    pub tgt: Seq<char>,
    pub kind: Seq<char>,
    pub attrs: Seq<(Seq<char>, Json)>,
    pub provenance: ProvenanceView,
}

impl View for Edge {
    type V = EdgeView;

    open spec fn view(&self) -> EdgeView {
        EdgeView {
            src: self.src@,
            tgt: self.tgt@,
            kind: self.kind@,
            attrs: members_view(self.attrs@),
            provenance: self.provenance@,
        }
    }
}

pub struct Pathway {
    pub name: String,
    pub order: Vec<String>,
    pub current: String,
}

pub struct PathwayView {
    pub name: Seq<char>,
    pub order: Seq<Seq<char>>,
    pub current: Seq<char>,
}

impl View for Pathway {
    type V = PathwayView;

    open spec fn view(&self) -> PathwayView {
        PathwayView { name: self.name@, order: texts(self.order@), current: self.current@ }
    }
}

pub struct Issue {
    pub severity: &'static str,
    pub code: &'static str,
    pub message: String,
    pub provenance: Provenance,
    pub node_id: Option<String>,
}

pub struct IssueView {
    pub severity: Seq<char>,
    pub code: Seq<char>,
    pub message: Seq<char>,
    pub provenance: ProvenanceView,
    pub node_id: Option<Seq<char>>,
}

impl View for Issue {
    type V = IssueView;

    open spec fn view(&self) -> IssueView {
        IssueView {
            severity: self.severity@,
            code: self.code@,
            message: self.message@,
            provenance: self.provenance@,
            node_id: opt_view(self.node_id),
        }
    }
}

pub struct Document {
    pub interface_version: &'static str,
    pub nodes: Vec<Node>,
    pub edges: Vec<Edge>,
    pub pathways: Vec<Pathway>,
    pub findings: Vec<Issue>,
}

pub open spec fn findings_view(s: Seq<Issue>) -> Seq<IssueView> {
    s.map_values(|i: Issue| i@)
}

pub open spec fn adapter_nodes_view(s: Seq<Node>) -> Seq<NodeView> {
    s.map_values(|n: Node| n@)
}

pub open spec fn adapter_edges_view(s: Seq<Edge>) -> Seq<EdgeView> {
    s.map_values(|e: Edge| e@)
}

/// An adapter finding as the document records it.
pub open spec fn finding(
    severity: Seq<char>,
    code: Seq<char>,
    message: Seq<char>,
    file: Seq<char>,
    line: u32,
    node_id: Option<Seq<char>>,
) -> IssueView {
    IssueView { severity, code, message, provenance: ProvenanceView { file, line }, node_id }
}

impl Default for Document {
    fn default() -> (d: Document)
        ensures
            d.interface_version@ == INTERFACE_VERSION@,
            d.nodes@.len() == 0,
            d.edges@.len() == 0,
            d.pathways@.len() == 0,
            d.findings@.len() == 0,
    {
        Document {
            interface_version: INTERFACE_VERSION,
            nodes: Vec::new(),
            edges: Vec::new(),
            pathways: Vec::new(),
            findings: Vec::new(),
        }
    }
}

impl Document {
    /// The document holds what it held, with one more finding.
    pub open spec fn adds(self, before: Document, f: IssueView) -> bool {
        &&& self.interface_version == before.interface_version
        &&& self.nodes == before.nodes
        &&& self.edges == before.edges
        &&& self.pathways == before.pathways
        &&& findings_view(self.findings@) == findings_view(before.findings@).push(f)
    }

    /// A source the adapter could not read.
    pub fn parse_error(&mut self, message: String, file: String, line: u32)
        ensures
            final(self).adds(*old(self), finding("error"@, "PARSE_ERROR"@, message@, file@, line, None)),
    {
        self.issue("error", "PARSE_ERROR", message, file, line, None);
    }

    /// A node the adapter could only partly read.
    pub fn node_parse_error(&mut self, message: String, file: String, line: u32, node_id: String)
        ensures
            final(self).adds(*old(self), finding("error"@, "PARSE_ERROR"@, message@, file@, line, Some(node_id@))),
    {
        self.issue("error", "PARSE_ERROR", message, file, line, Some(node_id));
    }

    /// A pathway the source declares but the adapter could not accept.
    pub fn pathway_invalid(&mut self, message: String, file: String)
        ensures
            final(self).adds(*old(self), finding("warning"@, "PATHWAY_INVALID"@, message@, file@, 0, None)),
    {
        self.issue("warning", "PATHWAY_INVALID", message, file, 0, None);
    }

    /// A reference to something outside the source.
    pub fn external_ref(&mut self, message: String, file: String)
        ensures
            final(self).adds(*old(self), finding("info"@, "EXTERNAL_REF"@, message@, file@, 0, None)),
    {
        self.issue("info", "EXTERNAL_REF", message, file, 0, None);
    }

    fn issue(
        &mut self,
        severity: &'static str,
        code: &'static str,
        message: String,
        file: String,
        line: u32,
        node_id: Option<String>,
    )
        ensures
            final(self).adds(*old(self), finding(severity@, code@, message@, file@, line, opt_view(node_id))),
    {
        let ghost before = findings_view(self.findings@);
        self.findings.push(Issue { severity, code, message, provenance: Provenance::new(file, line), node_id });
        assert(findings_view(self.findings@) =~= before.push(
            finding(severity@, code@, self.findings@.last().message@, self.findings@.last().provenance.file@, line, self.findings@.last()@.node_id),
        ));
    }
}

} // verus!
