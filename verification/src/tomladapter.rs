//! TOML registers: values as the `toml` crate parses them, and the ordering
//! pathway a register declares in one of its files.

use vstd::prelude::*;

use crate::adapter::{
    adapter_edges_view, adapter_nodes_view, finding, findings_view, Document, Edge, EdgeView, IssueView, Node, NodeView,
    Pathway, PathwayView, Provenance, ProvenanceView,
};
use crate::assoc::{assoc, assoc_get};
use crate::json::{json_put, lemma_members, members_view, object_put, Json, JsonValue};
use crate::text::{msg2, msg3, msg4, msg5, msg6, msg7, nat_text, split_char, split_on, str_eq, texts, usize_text};

verus! {

/// A TOML value. A float holds the JSON text of its value, or nothing where
/// it is not finite (JSON has no such number).
pub enum TomlValue {
    Str(String),
    Int(i64),
    Float(Option<String>),
    Bool(bool),
    Datetime(String),
    Array(Vec<TomlValue>),
    Table(Vec<(String, TomlValue)>),
}

/// The name of a TOML value's type.
pub open spec fn toml_type_name(v: TomlValue) -> Seq<char> {
    match v {
        TomlValue::Str(_) => "string"@,
        TomlValue::Int(_) => "integer"@,
        TomlValue::Float(_) => "float"@,
        TomlValue::Bool(_) => "boolean"@,
        TomlValue::Datetime(_) => "datetime"@,
        TomlValue::Array(_) => "array"@,
        TomlValue::Table(_) => "table"@,
    }
}

pub fn toml_type(v: &TomlValue) -> (r: &'static str)
    ensures
        r@ == toml_type_name(*v),
{
    match v {
        TomlValue::Str(_) => "string",
        TomlValue::Int(_) => "integer",
        TomlValue::Float(_) => "float",
        TomlValue::Bool(_) => "boolean",
        TomlValue::Datetime(_) => "datetime",
        TomlValue::Array(_) => "array",
        TomlValue::Table(_) => "table",
    }
}

/// A scalar as JSON, unchanged in kind: strings and datetimes as strings,
/// numbers and booleans as themselves. Arrays, tables and floats JSON cannot
/// hold are refused with what they are.
pub open spec fn json_of(v: TomlValue) -> Result<Json, Seq<char>> {
    match v {
        TomlValue::Str(s) => Ok(Json::Str(s@)),
        TomlValue::Int(n) => Ok(Json::Int(n as int)),
        TomlValue::Float(Some(t)) => Ok(Json::Float(t@)),
        TomlValue::Float(None) => Err("non-finite float"@),
        TomlValue::Bool(b) => Ok(Json::Bool(b)),
        TomlValue::Datetime(t) => Ok(Json::Str(t@)),
        TomlValue::Array(_) => Err("array"@),
        TomlValue::Table(_) => Err("table"@),
    }
}

pub fn json_value(v: &TomlValue) -> (r: Result<JsonValue, &'static str>)
    ensures
        match r {
            Ok(j) => json_of(*v) == Ok::<Json, Seq<char>>(j.deep()),
            Err(e) => json_of(*v) == Err::<Json, Seq<char>>(e@),
        },
{
    match v {
        TomlValue::Str(s) => Ok(JsonValue::Str(s.clone())),
        TomlValue::Int(n) => Ok(JsonValue::Int(*n as i128)),
        TomlValue::Float(Some(t)) => Ok(JsonValue::Float(t.clone())),
        TomlValue::Float(None) => Err("non-finite float"),
        TomlValue::Bool(b) => Ok(JsonValue::Bool(*b)),
        TomlValue::Datetime(t) => Ok(JsonValue::Str(t.clone())),
        TomlValue::Array(_) => Err("array"),
        TomlValue::Table(_) => Err("table"),
    }
}

/// Where a register declares an ordering: the file, and the dotted keys of
/// the order and of the current position within it.
pub struct PathwayConfig {
    pub source_file: String,
    pub name: String,
    pub order_key: String,
    pub current_key: String,
}

/// The value under a dotted path: each component a key of the table reached so far.
pub open spec fn dot_walk(v: TomlValue, parts: Seq<Seq<char>>) -> Option<TomlValue>
    decreases parts.len(),
{
    if parts.len() == 0 {
        Some(v)
    } else {
        match v {
            TomlValue::Table(m) => match assoc(m@, parts[0]) {
                Some(c) => dot_walk(c, parts.drop_first()),
                None => None,
            },
            _ => None,
        }
    }
}

/// The value under `path`, its components separated by dots.
pub fn dot_path<'a>(value: &'a TomlValue, path: &str) -> (r: Option<&'a TomlValue>)
    ensures
        match r {
            Some(x) => dot_walk(*value, split_on(path@, '.')) == Some(*x),
            None => dot_walk(*value, split_on(path@, '.')) is None,
        },
{
    let parts = split_char(path, '.');
    let ghost pv = texts(parts@);
    let mut current: &TomlValue = value;
    let mut i: usize = 0;
    assert(pv.skip(0) =~= pv);
    while i < parts.len()
        invariant
            i <= parts.len(),
            pv == texts(parts@),
            pv == split_on(path@, '.'),
            dot_walk(*value, pv) == dot_walk(*current, pv.skip(i as int)),
        decreases parts.len() - i,
    {
        proof {
            assert(pv.skip(i as int)[0] == parts@[i as int]@);
            assert(pv.skip(i as int).drop_first() =~= pv.skip(i + 1));
        }
        match current {
            TomlValue::Table(m) => match assoc_get(m, parts[i].as_str()) {
                Some(c) => {
                    current = c;
                },
                None => {
                    return None;
                },
            },
            _ => {
                return None;
            },
        }
        i += 1;
    }
    assert(pv.skip(i as int) =~= Seq::<Seq<char>>::empty());
    Some(current)
}

/// `s` with every backslash made a slash.
pub open spec fn slashed(s: Seq<char>) -> Seq<char> {
    s.map_values(|c: char| if c == '\\' { '/' } else { c })
}

fn to_slashes(s: &str) -> (r: String)
    ensures
        r@ == slashed(s@),
{
    let v = crate::text::chars_of(s);
    let mut out = String::new();
    let mut i: usize = 0;
    while i < v.len()
        invariant
            i <= v.len(),
            v@ == s@,
            out@ == slashed(s@).take(i as int),
        decreases v.len() - i,
    {
        let c = if v[i] == '\\' { '/' } else { v[i] };
        crate::text::push_char(&mut out, c);
        assert(out@ =~= slashed(s@).take(i + 1));
        i += 1;
    }
    assert(slashed(s@).take(i as int) =~= slashed(s@));
    out
}

/// Whether every item is a string.
pub open spec fn all_strings(items: Seq<TomlValue>) -> bool {
    forall|i: int| 0 <= i < items.len() ==> #[trigger] items[i] is Str
}

/// The strings of string items.
pub open spec fn strings_of(items: Seq<TomlValue>) -> Seq<Seq<char>> {
    items.map_values(|v: TomlValue| match v {
        TomlValue::Str(s) => s@,
        _ => Seq::empty(),
    })
}

/// No position occurs twice.
pub open spec fn distinct(s: Seq<Seq<char>>) -> bool {
    forall|i: int, j: int| 0 <= i < j < s.len() ==> #[trigger] s[i] != #[trigger] s[j]
}

/// What becomes of a declared pathway: nothing, a refusal with its message,
/// or the pathway.
pub enum PathwayOutcome {
    Absent,
    Invalid(Seq<char>),
    Attached(PathwayView),
}

/// The pathway a register declares: read from the parsed source file at the
/// order and current keys, both or neither present; the order strings, no
/// position twice, the current among them.
pub open spec fn pathway_outcome(c: PathwayConfig, parsed: Seq<(String, TomlValue)>) -> PathwayOutcome {
    let head = c.source_file@ + ": pathway '"@ + c.name@ + "' "@;
    match assoc(parsed, slashed(c.source_file@)) {
        None => PathwayOutcome::Invalid(head + "source file was not read"@),
        Some(source) => {
            let order = dot_walk(source, split_on(c.order_key@, '.'));
            let current = dot_walk(source, split_on(c.current_key@, '.'));
            if order is None && current is None {
                PathwayOutcome::Absent
            } else if order is None || current is None {
                let missing = if order is None {
                    c.order_key@
                } else {
                    c.current_key@
                };
                PathwayOutcome::Invalid(head + "declares only one of the pair, missing '"@ + missing + "'"@)
            } else {
                match (order->0, current->0) {
                    (TomlValue::Array(items), TomlValue::Str(cur)) => {
                        if !all_strings(items@) {
                            PathwayOutcome::Invalid(head + "order contains a non-string value"@)
                        } else {
                            let o = strings_of(items@);
                            if o.len() == 0 || !distinct(o) || !o.contains(cur@) {
                                PathwayOutcome::Invalid(
                                    head + "requires distinct positions and current '"@ + cur@ + "' among them"@,
                                )
                            } else {
                                PathwayOutcome::Attached(PathwayView { name: c.name@, order: o, current: cur@ })
                            }
                        }
                    },
                    _ => PathwayOutcome::Invalid(
                        head + "expects '"@ + c.order_key@ + "' to be an array of strings and '"@ + c.current_key@
                            + "' to be a string"@,
                    ),
                }
            }
        },
    }
}

/// The strings of an array whose items all are strings; `None` where one is not.
fn order_strings(items: &Vec<TomlValue>) -> (r: Option<Vec<String>>)
    ensures
        r is Some <==> all_strings(items@),
        r matches Some(v) ==> texts(v@) == strings_of(items@),
{
    let mut out: Vec<String> = Vec::new();
    let mut i: usize = 0;
    while i < items.len()
        invariant
            i <= items.len(),
            all_strings(items@.take(i as int)),
            texts(out@) == strings_of(items@.take(i as int)),
        decreases items.len() - i,
    {
        match &items[i] {
            TomlValue::Str(s) => {
                let ghost before = texts(out@);
                out.push(s.clone());
                proof {
                    assert(items@.take(i + 1) =~= items@.take(i as int).push(items@[i as int]));
                    assert(texts(out@) =~= before.push(s@));
                    assert(strings_of(items@.take(i + 1)) =~= strings_of(items@.take(i as int)).push(s@));
                    assert(texts(out@) =~= strings_of(items@.take(i + 1)));
                    assert(all_strings(items@.take(i + 1)));
                }
            },
            _ => {
                assert(!(items@[i as int] is Str));
                return None;
            },
        }
        i += 1;
    }
    assert(items@.take(i as int) =~= items@);
    Some(out)
}

/// Whether no position occurs twice.
fn all_distinct(order: &Vec<String>) -> (r: bool)
    ensures
        r == distinct(texts(order@)),
{
    let ghost t = texts(order@);
    let mut i: usize = 0;
    while i < order.len()
        invariant
            i <= order.len(),
            t == texts(order@),
            distinct(t.take(i as int)),
        decreases order.len() - i,
    {
        let mut j: usize = 0;
        while j < i
            invariant
                j <= i < order.len(),
                t == texts(order@),
                forall|x: int| 0 <= x < j ==> t[x] != t[i as int],
            decreases i - j,
        {
            if str_eq(order[j].as_str(), order[i].as_str()) {
                assert(t[j as int] == t[i as int]);
                return false;
            }
            j += 1;
        }
        assert(distinct(t.take(i + 1))) by {
            assert forall|x: int, y: int| 0 <= x < y < t.take(i + 1).len() implies #[trigger] t.take(i + 1)[x]
                != #[trigger] t.take(i + 1)[y] by {
                if y < i {
                    assert(t.take(i as int)[x] != t.take(i as int)[y]);
                }
            }
        }
        i += 1;
    }
    assert(t.take(i as int) =~= t);
    true
}

/// Read the pathway a register declares into the document: attached when it
/// is well formed, a `PATHWAY_INVALID` warning on the declaring file when it
/// is not, nothing when the file declares neither of its keys.
pub fn attach_pathway(document: &mut Document, config: &PathwayConfig, parsed: &Vec<(String, TomlValue)>)
    ensures
        match pathway_outcome(*config, parsed@) {
            PathwayOutcome::Absent => *final(document) == *old(document),
            PathwayOutcome::Invalid(m) => final(document).adds(
                *old(document),
                finding("warning"@, "PATHWAY_INVALID"@, m, config.source_file@, 0, None),
            ),
            PathwayOutcome::Attached(p) => {
                &&& final(document).interface_version == old(document).interface_version
                &&& final(document).nodes == old(document).nodes
                &&& final(document).edges == old(document).edges
                &&& final(document).findings == old(document).findings
                &&& final(document).pathways@.map_values(|q: Pathway| q@) == old(document).pathways@.map_values(
                    |q: Pathway| q@,
                ).push(p)
            },
        },
{
    let head = msg4(config.source_file.as_str(), ": pathway '", config.name.as_str(), "' ");
    let source_file = to_slashes(config.source_file.as_str());
    let source = match assoc_get(parsed, source_file.as_str()) {
        Some(s) => s,
        None => {
            let message = msg2(head.as_str(), "source file was not read");
            document.pathway_invalid(message, config.source_file.clone());
            return;
        },
    };
    let order = dot_path(source, config.order_key.as_str());
    let current = dot_path(source, config.current_key.as_str());
    if order.is_none() && current.is_none() {
        return;
    }
    if order.is_none() || current.is_none() {
        let missing = if order.is_none() {
            config.order_key.as_str()
        } else {
            config.current_key.as_str()
        };
        let message = msg4(head.as_str(), "declares only one of the pair, missing '", missing, "'");
        document.pathway_invalid(message, config.source_file.clone());
        return;
    }
    let (items, cur) = match (order, current) {
        (Some(TomlValue::Array(items)), Some(TomlValue::Str(cur))) => (items, cur),
        _ => {
            let message = msg6(
                head.as_str(),
                "expects '",
                config.order_key.as_str(),
                "' to be an array of strings and '",
                config.current_key.as_str(),
                "' to be a string",
            );
            document.pathway_invalid(message, config.source_file.clone());
            return;
        },
    };
    let strings = match order_strings(items) {
        Some(v) => v,
        None => {
            let message = msg2(head.as_str(), "order contains a non-string value");
            document.pathway_invalid(message, config.source_file.clone());
            return;
        },
    };
    let unique = all_distinct(&strings);
    let present = crate::assoc::contains_text(&strings, cur.as_str());
    if strings.len() == 0 || !unique || !present {
        let message = msg4(head.as_str(), "requires distinct positions and current '", cur.as_str(), "' among them");
        document.pathway_invalid(message, config.source_file.clone());
        return;
    }
    let ghost before = document.pathways@.map_values(|q: Pathway| q@);
    document.pathways.push(Pathway { name: config.name.clone(), order: strings, current: cur.clone() });
    assert(document.pathways@.map_values(|q: Pathway| q@) =~= before.push(
        PathwayView { name: config.name@, order: strings_of(items@), current: cur@ },
    ));
}

// ---------------------------------------------------------------- readers

/// How a table's rows are read.
pub struct TableConfig {
    pub kind: String,
    pub id_key: String,
    /// Source key to attr name, in key order.
    pub key_map: Vec<(String, String)>,
    /// Source key to edge kind, in key order.
    pub edge_keys: Vec<(String, String)>,
}

/// How a file's header table becomes one node.
pub struct HeaderConfig {
    pub table: String,
    pub kind: String,
    /// The header key that holds the ID, or `file_stem` for the file's stem.
    pub id: String,
    pub key_map: Vec<(String, String)>,
}

/// What a row's ID is prefixed with.
#[derive(Clone, Copy)]
pub enum IdPrefix {
    FileStem,
}

/// What the adapter reads: what it appends to the document, in order.
pub struct Out {
    pub nodes: Seq<NodeView>,
    pub edges: Seq<EdgeView>,
    pub findings: Seq<IssueView>,
}

pub open spec fn out_none() -> Out {
    Out { nodes: Seq::empty(), edges: Seq::empty(), findings: Seq::empty() }
}

pub open spec fn out_cat(a: Out, b: Out) -> Out {
    Out { nodes: a.nodes + b.nodes, edges: a.edges + b.edges, findings: a.findings + b.findings }
}

pub open spec fn out_finding(f: IssueView) -> Out {
    Out { nodes: Seq::empty(), edges: Seq::empty(), findings: seq![f] }
}

/// The document holds what it held, with `o` appended.
pub open spec fn extends(after: Document, before: Document, o: Out) -> bool {
    &&& after.interface_version == before.interface_version
    &&& after.pathways == before.pathways
    &&& adapter_nodes_view(after.nodes@) == adapter_nodes_view(before.nodes@) + o.nodes
    &&& adapter_edges_view(after.edges@) == adapter_edges_view(before.edges@) + o.edges
    &&& findings_view(after.findings@) == findings_view(before.findings@) + o.findings
}

pub proof fn lemma_extends_cat(a: Document, b: Document, c: Document, x: Out, y: Out)
    requires
        extends(b, a, x),
        extends(c, b, y),
    ensures
        extends(c, a, out_cat(x, y)),
{
    assert(adapter_nodes_view(a.nodes@) + x.nodes + y.nodes =~= adapter_nodes_view(a.nodes@) + (x.nodes + y.nodes));
    assert(adapter_edges_view(a.edges@) + x.edges + y.edges =~= adapter_edges_view(a.edges@) + (x.edges + y.edges));
    assert(findings_view(a.findings@) + x.findings + y.findings =~= findings_view(a.findings@) + (x.findings
        + y.findings));
}

pub proof fn lemma_extends_none(a: Document)
    ensures
        extends(a, a, out_none()),
{
    assert(adapter_nodes_view(a.nodes@) + Seq::empty() =~= adapter_nodes_view(a.nodes@));
    assert(adapter_edges_view(a.edges@) + Seq::empty() =~= adapter_edges_view(a.edges@));
    assert(findings_view(a.findings@) + Seq::empty() =~= findings_view(a.findings@));
}

pub proof fn lemma_adds_extends(after: Document, before: Document, f: IssueView)
    requires
        after.adds(before, f),
    ensures
        extends(after, before, out_finding(f)),
{
    assert(adapter_nodes_view(before.nodes@) + Seq::empty() =~= adapter_nodes_view(before.nodes@));
    assert(adapter_edges_view(before.edges@) + Seq::empty() =~= adapter_edges_view(before.edges@));
    assert(findings_view(before.findings@).push(f) =~= findings_view(before.findings@) + seq![f]);
}

/// A `PARSE_ERROR` on a file as a whole, about a node where one is named.
pub open spec fn file_error(message: Seq<char>, file: Seq<char>, node_id: Option<Seq<char>>) -> IssueView {
    finding("error"@, "PARSE_ERROR"@, message, file, 0, node_id)
}

/// Attrs mapped so far, and the keys refused.
pub struct Mapped {
    pub attrs: Seq<(Seq<char>, Json)>,
    pub findings: Seq<IssueView>,
}

/// The first `k` mapped keys read from `source`: a scalar becomes the attr
/// the map names, anything else a finding.
pub open spec fn map_walk(
    source: Seq<(String, TomlValue)>,
    mapping: Seq<(String, String)>,
    k: nat,
    file: Seq<char>,
    node_id: Option<Seq<char>>,
) -> Mapped
    decreases k,
{
    if k == 0 || k > mapping.len() {
        Mapped { attrs: Seq::empty(), findings: Seq::empty() }
    } else {
        let m = map_walk(source, mapping, (k - 1) as nat, file, node_id);
        let key = mapping[k - 1].0@;
        match assoc(source, key) {
            None => m,
            Some(v) => match json_of(v) {
                Ok(j) => Mapped { attrs: json_put(m.attrs, mapping[k - 1].1@, j), findings: m.findings },
                Err(shape) => Mapped {
                    attrs: m.attrs,
                    findings: m.findings.push(
                        file_error(
                            file + ": mapped key '"@ + key + "' has type "@ + shape + ", expected a scalar value"@,
                            file,
                            node_id,
                        ),
                    ),
                },
            },
        }
    }
}

/// A node read from a file, with no line.
pub open spec fn file_node(id: Seq<char>, kind: Seq<char>, attrs: Seq<(Seq<char>, Json)>, file: Seq<char>) -> NodeView {
    NodeView { id, kind, attrs, provenance: ProvenanceView { file, line: 0 } }
}

/// Read the mapped keys of `source` into attrs.
pub fn mapped_attributes(
    document: &mut Document,
    source: &Vec<(String, TomlValue)>,
    mapping: &Vec<(String, String)>,
    file: &str,
    node_id: Option<&str>,
) -> (r: Vec<(String, JsonValue)>)
    ensures
        ({
            let nid = match node_id {
                Some(n) => Some(n@),
                None => None::<Seq<char>>,
            };
            let m = map_walk(source@, mapping@, mapping@.len(), file@, nid);
            &&& members_view(r@) == m.attrs
            &&& extends(*final(document), *old(document), Out { nodes: Seq::empty(), edges: Seq::empty(), findings: m.findings })
        }),
{
    let ghost nid = match node_id {
        Some(n) => Some(n@),
        None => None::<Seq<char>>,
    };
    let ghost start = *document;
    let mut attrs: Vec<(String, JsonValue)> = Vec::new();
    proof {
        lemma_members(attrs@, 0);
        assert(members_view(attrs@) =~= Seq::<(Seq<char>, Json)>::empty());
        lemma_extends_none(*document);
    }
    let mut k: usize = 0;
    while k < mapping.len()
        invariant
            k <= mapping.len(),
            members_view(attrs@) == map_walk(source@, mapping@, k as nat, file@, nid).attrs,
            extends(*document, start, Out {
                nodes: Seq::empty(),
                edges: Seq::empty(),
                findings: map_walk(source@, mapping@, k as nat, file@, nid).findings,
            }),
            nid == match node_id {
                Some(n) => Some(n@),
                None => None::<Seq<char>>,
            },
        decreases mapping.len() - k,
    {
        let key = &mapping[k].0;
        let output = &mapping[k].1;
        match assoc_get(source, key.as_str()) {
            None => {},
            Some(v) => match json_value(v) {
                Ok(j) => {
                    object_put(&mut attrs, output.clone(), j);
                },
                Err(shape) => {
                    let message = msg6(file, ": mapped key '", key.as_str(), "' has type ", shape, ", expected a scalar value");
                    let ghost before = *document;
                    let ghost prev = map_walk(source@, mapping@, k as nat, file@, nid);
                    match node_id {
                        Some(n) => document.node_parse_error(message, crate::text::copy_str(file), 0, crate::text::copy_str(n)),
                        None => document.parse_error(message, crate::text::copy_str(file), 0),
                    }
                    proof {
                        let f = file_error(file@ + ": mapped key '"@ + key@ + "' has type "@ + shape@ + ", expected a scalar value"@, file@, nid);
                        lemma_adds_extends(*document, before, f);
                        lemma_extends_cat(start, before, *document, Out { nodes: Seq::empty(), edges: Seq::empty(), findings: prev.findings }, out_finding(f));
                        assert(Seq::<NodeView>::empty() + Seq::<NodeView>::empty() =~= Seq::<NodeView>::empty());
                        assert(Seq::<EdgeView>::empty() + Seq::<EdgeView>::empty() =~= Seq::<EdgeView>::empty());
                    }
                },
            },
        }
        k += 1;
    }
    attrs
}

/// An edge read from a file, with no attrs and no line.
pub open spec fn file_edge(src: Seq<char>, tgt: Seq<char>, kind: Seq<char>, file: Seq<char>) -> EdgeView {
    EdgeView { src, tgt, kind, attrs: Seq::empty(), provenance: ProvenanceView { file, line: 0 } }
}

pub open spec fn out_edges(es: Seq<EdgeView>) -> Out {
    Out { nodes: Seq::empty(), edges: es, findings: Seq::empty() }
}

/// The edges of the first `k` edge keys of a record: a string or an array of
/// strings under the key names targets; anything else is a finding.
pub open spec fn edges_walk(
    edge_keys: Seq<(String, String)>,
    row: Seq<(String, TomlValue)>,
    k: nat,
    node_id: Seq<char>,
    file: Seq<char>,
) -> Out
    decreases k,
{
    if k == 0 || k > edge_keys.len() {
        out_none()
    } else {
        let prev = edges_walk(edge_keys, row, (k - 1) as nat, node_id, file);
        let key = edge_keys[k - 1].0@;
        let kind = edge_keys[k - 1].1@;
        match assoc(row, key) {
            None => prev,
            Some(v) => match v {
                TomlValue::Str(t) => out_cat(prev, out_edges(seq![file_edge(node_id, t@, kind, file)])),
                TomlValue::Array(items) if all_strings(items@) => out_cat(
                    prev,
                    out_edges(strings_of(items@).map_values(|t: Seq<char>| file_edge(node_id, t, kind, file))),
                ),
                _ => out_cat(
                    prev,
                    out_finding(
                        file_error(
                            file + ": item '"@ + node_id + "' has edge key '"@ + key + "' of type "@ + toml_type_name(v)
                                + ", expected a string or array of strings"@,
                            file,
                            Some(node_id),
                        ),
                    ),
                ),
            },
        }
    }
}

/// Append the edges a record's edge keys name.
pub fn read_edges(document: &mut Document, config: &TableConfig, row: &Vec<(String, TomlValue)>, node_id: &str, file: &str)
    ensures
        extends(*final(document), *old(document), edges_walk(config.edge_keys@, row@, config.edge_keys@.len(), node_id@, file@)),
{
    let ghost start = *document;
    proof {
        lemma_extends_none(*document);
    }
    let mut k: usize = 0;
    while k < config.edge_keys.len()
        invariant
            k <= config.edge_keys.len(),
            extends(*document, start, edges_walk(config.edge_keys@, row@, k as nat, node_id@, file@)),
        decreases config.edge_keys.len() - k,
    {
        let key = &config.edge_keys[k].0;
        let kind = &config.edge_keys[k].1;
        let ghost prev = edges_walk(config.edge_keys@, row@, k as nat, node_id@, file@);
        let ghost before = *document;
        match assoc_get(row, key.as_str()) {
            None => {},
            Some(v) => {
                let targets: Option<Vec<String>> = match v {
                    TomlValue::Str(t) => {
                        let mut one: Vec<String> = Vec::new();
                        one.push(t.clone());
                        Some(one)
                    },
                    TomlValue::Array(items) => order_strings(items),
                    _ => None,
                };
                match targets {
                    None => {
                        let t = toml_type(v);
                        let message = msg7(
                            file,
                            ": item '",
                            node_id,
                            "' has edge key '",
                            key.as_str(),
                            "' of type ",
                            t,
                        );
                        let message = msg2(message.as_str(), ", expected a string or array of strings");
                        document.node_parse_error(message, crate::text::copy_str(file), 0, crate::text::copy_str(node_id));
                        proof {
                            let f = file_error(
                                file@ + ": item '"@ + node_id@ + "' has edge key '"@ + key@ + "' of type "@ + toml_type_name(*v)
                                    + ", expected a string or array of strings"@,
                                file@,
                                Some(node_id@),
                            );
                            lemma_adds_extends(*document, before, f);
                            lemma_extends_cat(start, before, *document, prev, out_finding(f));
                        }
                    },
                    Some(ts) => {
                        let ghost want = match v {
                            TomlValue::Str(t) => seq![file_edge(node_id@, t@, kind@, file@)],
                            TomlValue::Array(items) => strings_of(items@).map_values(
                                |t: Seq<char>| file_edge(node_id@, t, kind@, file@),
                            ),
                            _ => Seq::empty(),
                        };
                        assert(want =~= texts(ts@).map_values(|t: Seq<char>| file_edge(node_id@, t, kind@, file@)));
                        let mut j: usize = 0;
                        while j < ts.len()
                            invariant
                                j <= ts.len(),
                                want == texts(ts@).map_values(|t: Seq<char>| file_edge(node_id@, t, kind@, file@)),
                                extends(*document, before, out_edges(want.take(j as int))),
                            decreases ts.len() - j,
                        {
                            let ghost b2 = *document;
                            let edge = Edge {
                                src: crate::text::copy_str(node_id),
                                tgt: ts[j].clone(),
                                kind: kind.clone(),
                                attrs: Vec::new(),
                                provenance: Provenance::new(crate::text::copy_str(file), 0),
                            };
                            document.edges.push(edge);
                            proof {
                                lemma_members(document.edges@.last().attrs@, 0);
                                assert(members_view(document.edges@.last().attrs@) =~= Seq::<(Seq<char>, Json)>::empty());
                                assert(texts(ts@)[j as int] == ts@[j as int]@);
                                assert(want.take(j + 1) =~= want.take(j as int).push(want[j as int]));
                                assert(adapter_edges_view(document.edges@) =~= adapter_edges_view(b2.edges@).push(want[j as int]));
                                assert(adapter_nodes_view(document.nodes@) =~= adapter_nodes_view(b2.nodes@));
                                assert(adapter_edges_view(before.edges@) + want.take(j + 1) =~= adapter_edges_view(before.edges@)
                                    + want.take(j as int) + seq![want[j as int]]);
                            }
                            j += 1;
                        }
                        proof {
                            assert(want.take(j as int) =~= want);
                            lemma_extends_cat(start, before, *document, prev, out_edges(want));
                        }
                    },
                }
            },
        }
        k += 1;
    }
}

/// The ID a record's raw ID becomes under the configured prefix.
pub open spec fn prefixed(raw: Seq<char>, stem: Seq<char>, prefix: Option<IdPrefix>) -> Seq<char> {
    match prefix {
        Some(IdPrefix::FileStem) => stem + "/"@ + raw,
        None => raw,
    }
}

pub open spec fn out_node(n: NodeView) -> Out {
    Out { nodes: seq![n], edges: Seq::empty(), findings: Seq::empty() }
}

pub open spec fn out_findings(fs: Seq<IssueView>) -> Out {
    Out { nodes: Seq::empty(), edges: Seq::empty(), findings: fs }
}

/// A record: its string ID, its mapped attrs and its edges; without a string
/// ID, a finding and nothing else.
pub open spec fn record_out(
    config: TableConfig,
    record: Seq<(String, TomlValue)>,
    description: Seq<char>,
    file: Seq<char>,
    stem: Seq<char>,
    prefix: Option<IdPrefix>,
) -> Out {
    match assoc(record, config.id_key@) {
        Some(TomlValue::Str(raw)) => {
            let id = prefixed(raw@, stem, prefix);
            let m = map_walk(record, config.key_map@, config.key_map@.len(), file, Some(id));
            out_cat(
                out_findings(m.findings),
                out_cat(
                    out_node(file_node(id, config.kind@, m.attrs, file)),
                    edges_walk(config.edge_keys@, record, config.edge_keys@.len(), id, file),
                ),
            )
        },
        _ => out_finding(
            file_error(
                file + ": "@ + description + " declares no string '"@ + config.id_key@ + "' ID key"@,
                file,
                None,
            ),
        ),
    }
}

/// Read one record into a node and its edges.
pub fn read_record(
    document: &mut Document,
    config: &TableConfig,
    record: &Vec<(String, TomlValue)>,
    description: &str,
    file: &str,
    file_stem: &str,
    id_prefix: Option<IdPrefix>,
)
    ensures
        extends(*final(document), *old(document), record_out(*config, record@, description@, file@, file_stem@, id_prefix)),
{
    let ghost start = *document;
    let raw = match assoc_get(record, config.id_key.as_str()) {
        Some(TomlValue::Str(raw)) => raw,
        _ => {
            let message = msg5(file, ": ", description, " declares no string '", config.id_key.as_str());
            let message = msg2(message.as_str(), "' ID key");
            document.parse_error(message, crate::text::copy_str(file), 0);
            proof {
                lemma_adds_extends(
                    *document,
                    start,
                    file_error(
                        file@ + ": "@ + description@ + " declares no string '"@ + config.id_key@ + "' ID key"@,
                        file@,
                        None,
                    ),
                );
            }
            return;
        },
    };
    let id = match id_prefix {
        Some(IdPrefix::FileStem) => msg3(file_stem, "/", raw.as_str()),
        None => raw.clone(),
    };
    let attrs = mapped_attributes(document, record, &config.key_map, file, Some(id.as_str()));
    let ghost after_map = *document;
    let ghost m = map_walk(record@, config.key_map@, config.key_map@.len(), file@, Some(id@));
    let node = Node { id: id.clone(), kind: config.kind.clone(), attrs, provenance: Provenance::new(crate::text::copy_str(file), 0) };
    document.nodes.push(node);
    let ghost after_node = *document;
    proof {
        assert(adapter_nodes_view(document.nodes@) =~= adapter_nodes_view(after_map.nodes@) + seq![
            file_node(id@, config.kind@, m.attrs, file@),
        ]);
        assert(adapter_edges_view(document.edges@) =~= adapter_edges_view(after_map.edges@) + Seq::<EdgeView>::empty());
        assert(findings_view(document.findings@) =~= findings_view(after_map.findings@) + Seq::<IssueView>::empty());
    }
    read_edges(document, config, record, id.as_str(), file);
    proof {
        let e = edges_walk(config.edge_keys@, record@, config.edge_keys@.len(), id@, file@);
        lemma_extends_cat(after_map, after_node, *document, out_node(file_node(id@, config.kind@, m.attrs, file@)), e);
        lemma_extends_cat(start, after_map, *document, out_findings(m.findings), out_cat(
            out_node(file_node(id@, config.kind@, m.attrs, file@)),
            e,
        ));
    }
}

/// Whether every item is a table.
pub open spec fn all_tables(items: Seq<TomlValue>) -> bool {
    forall|i: int| 0 <= i < items.len() ==> #[trigger] items[i] is Table
}

/// The first `k` rows of a configured table, each a record named by its index.
pub open spec fn rows_walk(
    config: TableConfig,
    rows: Seq<TomlValue>,
    k: nat,
    name: Seq<char>,
    file: Seq<char>,
    stem: Seq<char>,
    prefix: Option<IdPrefix>,
) -> Out
    decreases k,
{
    if k == 0 || k > rows.len() {
        out_none()
    } else {
        let prev = rows_walk(config, rows, (k - 1) as nat, name, file, stem, prefix);
        let index = nat_text((k - 1) as nat);
        match rows[k - 1] {
            TomlValue::Table(r) => out_cat(prev, record_out(config, r@, name + " row "@ + index, file, stem, prefix)),
            other => out_cat(
                prev,
                out_finding(
                    file_error(
                        file + ": "@ + name + " row "@ + index + " has type "@ + toml_type_name(other) + ", expected a table"@,
                        file,
                        None,
                    ),
                ),
            ),
        }
    }
}

/// Read the rows of a configured table.
pub fn read_rows(
    document: &mut Document,
    config: &TableConfig,
    rows: &Vec<TomlValue>,
    table_name: &str,
    file: &str,
    file_stem: &str,
    id_prefix: Option<IdPrefix>,
)
    ensures
        extends(
            *final(document),
            *old(document),
            rows_walk(*config, rows@, rows@.len(), table_name@, file@, file_stem@, id_prefix),
        ),
{
    let ghost start = *document;
    proof {
        lemma_extends_none(*document);
    }
    let mut k: usize = 0;
    while k < rows.len()
        invariant
            k <= rows.len(),
            extends(*document, start, rows_walk(*config, rows@, k as nat, table_name@, file@, file_stem@, id_prefix)),
        decreases rows.len() - k,
    {
        let ghost before = *document;
        let ghost prev = rows_walk(*config, rows@, k as nat, table_name@, file@, file_stem@, id_prefix);
        let index = usize_text(k);
        match &rows[k] {
            TomlValue::Table(r) => {
                let description = msg3(table_name, " row ", index.as_str());
                read_record(document, config, r, description.as_str(), file, file_stem, id_prefix);
                proof {
                    lemma_extends_cat(
                        start,
                        before,
                        *document,
                        prev,
                        record_out(*config, r@, description@, file@, file_stem@, id_prefix),
                    );
                }
            },
            other => {
                let t = toml_type(other);
                let message = msg7(file, ": ", table_name, " row ", index.as_str(), " has type ", t);
                let message = msg2(message.as_str(), ", expected a table");
                document.parse_error(message, crate::text::copy_str(file), 0);
                proof {
                    let f = file_error(
                        file@ + ": "@ + table_name@ + " row "@ + index@ + " has type "@ + toml_type_name(*other)
                            + ", expected a table"@,
                        file@,
                        None,
                    );
                    lemma_adds_extends(*document, before, f);
                    lemma_extends_cat(start, before, *document, prev, out_finding(f));
                }
            },
        }
        k += 1;
    }
}

/// How files are read: each a register of tables, or each one record.
#[derive(Clone, Copy)]
pub enum Mode {
    Tables,
    Directory,
}

/// What the TOML adapter is configured to read.
pub struct Config {
    pub files: Vec<String>,
    /// Configured tables by name, in name order.
    pub tables: Vec<(String, TableConfig)>,
    pub id_prefix: Option<IdPrefix>,
    pub header: Option<HeaderConfig>,
    pub mode: Option<Mode>,
    pub pathway: Option<PathwayConfig>,
}

/// A header table's node: its ID from the configured key (or the file's stem),
/// its mapped attrs.
pub open spec fn header_out(h: HeaderConfig, root: Seq<(String, TomlValue)>, file: Seq<char>, stem: Seq<char>) -> Out {
    match assoc(root, h.table@) {
        None => out_finding(file_error(file + ": no ["@ + h.table@ + "] header table"@, file, None)),
        Some(TomlValue::Table(t)) => {
            let id: Result<Seq<char>, Seq<char>> = if h.id@ == "file_stem"@ {
                Ok(stem)
            } else {
                match assoc(t@, h.id@) {
                    Some(TomlValue::Str(i)) => Ok(i@),
                    Some(other) => Err(
                        file + ": header ID key '"@ + h.id@ + "' has type "@ + toml_type_name(other) + ", expected a string"@,
                    ),
                    None => Err(file + ": header declares no ID key '"@ + h.id@ + "'"@),
                }
            };
            match id {
                Err(m) => out_finding(file_error(m, file, None)),
                Ok(id) => {
                    let m = map_walk(t@, h.key_map@, h.key_map@.len(), file, Some(id));
                    out_cat(out_findings(m.findings), out_node(file_node(id, h.kind@, m.attrs, file)))
                },
            }
        },
        Some(other) => out_finding(
            file_error(
                file + ": header '"@ + h.table@ + "' has type "@ + toml_type_name(other) + ", expected a table"@,
                file,
                None,
            ),
        ),
    }
}

/// Read a file's header table into one node.
pub fn read_header(
    document: &mut Document,
    config: &HeaderConfig,
    root: &Vec<(String, TomlValue)>,
    file: &str,
    file_stem: &str,
)
    ensures
        extends(*final(document), *old(document), header_out(*config, root@, file@, file_stem@)),
{
    let ghost start = *document;
    let value = match assoc_get(root, config.table.as_str()) {
        Some(v) => v,
        None => {
            let message = msg4(file, ": no [", config.table.as_str(), "] header table");
            document.parse_error(message, crate::text::copy_str(file), 0);
            proof {
                lemma_adds_extends(*document, start, file_error(file@ + ": no ["@ + config.table@ + "] header table"@, file@, None));
            }
            return;
        },
    };
    let table = match value {
        TomlValue::Table(t) => t,
        other => {
            let message = msg6(file, ": header '", config.table.as_str(), "' has type ", toml_type(other), ", expected a table");
            document.parse_error(message, crate::text::copy_str(file), 0);
            proof {
                lemma_adds_extends(
                    *document,
                    start,
                    file_error(
                        file@ + ": header '"@ + config.table@ + "' has type "@ + toml_type_name(*other) + ", expected a table"@,
                        file@,
                        None,
                    ),
                );
            }
            return;
        },
    };
    let id = if str_eq(config.id.as_str(), "file_stem") {
        crate::text::copy_str(file_stem)
    } else {
        match assoc_get(table, config.id.as_str()) {
            Some(TomlValue::Str(i)) => i.clone(),
            Some(other) => {
                let message = msg6(file, ": header ID key '", config.id.as_str(), "' has type ", toml_type(other), ", expected a string");
                document.parse_error(message, crate::text::copy_str(file), 0);
                proof {
                    lemma_adds_extends(
                        *document,
                        start,
                        file_error(
                            file@ + ": header ID key '"@ + config.id@ + "' has type "@ + toml_type_name(*other)
                                + ", expected a string"@,
                            file@,
                            None,
                        ),
                    );
                }
                return;
            },
            None => {
                let message = msg4(file, ": header declares no ID key '", config.id.as_str(), "'");
                document.parse_error(message, crate::text::copy_str(file), 0);
                proof {
                    lemma_adds_extends(
                        *document,
                        start,
                        file_error(file@ + ": header declares no ID key '"@ + config.id@ + "'"@, file@, None),
                    );
                }
                return;
            },
        }
    };
    let attrs = mapped_attributes(document, table, &config.key_map, file, Some(id.as_str()));
    let ghost after_map = *document;
    let ghost m = map_walk(table@, config.key_map@, config.key_map@.len(), file@, Some(id@));
    let node = Node { id: id, kind: config.kind.clone(), attrs, provenance: Provenance::new(crate::text::copy_str(file), 0) };
    let ghost nv = node@;
    document.nodes.push(node);
    proof {
        assert(nv == file_node(id@, config.kind@, m.attrs, file@));
        assert(adapter_nodes_view(document.nodes@) =~= adapter_nodes_view(after_map.nodes@) + seq![nv]);
        assert(adapter_edges_view(document.edges@) =~= adapter_edges_view(after_map.edges@) + Seq::<EdgeView>::empty());
        assert(findings_view(document.findings@) =~= findings_view(after_map.findings@) + Seq::<IssueView>::empty());
        lemma_extends_cat(start, after_map, *document, out_findings(m.findings), out_node(nv));
    }
}

/// The first `k` top-level entries of a file: a configured table's rows; an
/// unconfigured array of tables is reported as unread.
pub open spec fn entries_walk(
    c: Config,
    root: Seq<(String, TomlValue)>,
    k: nat,
    file: Seq<char>,
    stem: Seq<char>,
) -> Out
    decreases k,
{
    if k == 0 || k > root.len() {
        out_none()
    } else {
        let prev = entries_walk(c, root, (k - 1) as nat, file, stem);
        let name = root[k - 1].0@;
        let v = root[k - 1].1;
        let here = match assoc(c.tables@, name) {
            Some(tc) => match v {
                TomlValue::Array(rows) if all_tables(rows@) => rows_walk(tc, rows@, rows@.len(), name, file, stem, c.id_prefix),
                _ => out_finding(
                    file_error(
                        file + ": configured table '"@ + name + "' has type "@ + toml_type_name(v)
                            + ", expected an array of tables"@,
                        file,
                        None,
                    ),
                ),
            },
            None => match v {
                TomlValue::Array(rows) if rows@.len() > 0 && all_tables(rows@) => out_finding(
                    file_error(
                        file + ": no reader for array-of-tables '"@ + name + "' ("@ + nat_text(rows@.len()) + " rows not read)"@,
                        file,
                        None,
                    ),
                ),
                _ => out_none(),
            },
        };
        out_cat(prev, here)
    }
}

/// A file read as a register of tables: its header, then its configured tables.
pub open spec fn file_out(c: Config, value: TomlValue, file: Seq<char>, stem: Seq<char>) -> Out {
    match value {
        TomlValue::Table(root) => out_cat(
            match c.header {
                Some(h) => header_out(h, root@, file, stem),
                None => out_none(),
            },
            entries_walk(c, root@, root@.len(), file, stem),
        ),
        _ => out_finding(file_error(file + ": TOML root is not a table"@, file, None)),
    }
}

fn every_table(items: &Vec<TomlValue>) -> (r: bool)
    ensures
        r == all_tables(items@),
{
    let mut i: usize = 0;
    while i < items.len()
        invariant
            i <= items.len(),
            forall|j: int| 0 <= j < i ==> #[trigger] items@[j] is Table,
        decreases items.len() - i,
    {
        match &items[i] {
            TomlValue::Table(_) => {},
            _ => {
                return false;
            },
        }
        i += 1;
    }
    true
}

/// Read a parsed file as a register of tables.
pub fn read_file(document: &mut Document, config: &Config, value: &TomlValue, file: &str, file_stem: &str)
    ensures
        extends(*final(document), *old(document), file_out(*config, *value, file@, file_stem@)),
{
    let ghost start = *document;
    let root = match value {
        TomlValue::Table(root) => root,
        _ => {
            let message = msg2(file, ": TOML root is not a table");
            document.parse_error(message, crate::text::copy_str(file), 0);
            proof {
                lemma_adds_extends(*document, start, file_error(file@ + ": TOML root is not a table"@, file@, None));
            }
            return;
        },
    };
    match &config.header {
        Some(h) => read_header(document, h, root, file, file_stem),
        None => {
            proof {
                lemma_extends_none(*document);
            }
        },
    }
    let ghost after_header = *document;
    let ghost hout = match &config.header {
        Some(h) => header_out(*h, root@, file@, file_stem@),
        None => out_none(),
    };
    proof {
        lemma_extends_none(*document);
    }
    let mut k: usize = 0;
    while k < root.len()
        invariant
            k <= root.len(),
            extends(*document, after_header, entries_walk(*config, root@, k as nat, file@, file_stem@)),
        decreases root.len() - k,
    {
        let ghost before = *document;
        let ghost prev = entries_walk(*config, root@, k as nat, file@, file_stem@);
        let name = &root[k].0;
        let v = &root[k].1;
        match assoc_get(&config.tables, name.as_str()) {
            Some(tc) => {
                let rows = match v {
                    TomlValue::Array(rows) => if every_table(rows) {
                        Some(rows)
                    } else {
                        None
                    },
                    _ => None,
                };
                match rows {
                    Some(rows) => {
                        read_rows(document, tc, rows, name.as_str(), file, file_stem, config.id_prefix);
                        proof {
                            lemma_extends_cat(after_header, before, *document, prev, rows_walk(
                                *tc,
                                rows@,
                                rows@.len(),
                                name@,
                                file@,
                                file_stem@,
                                config.id_prefix,
                            ));
                        }
                    },
                    None => {
                        let message = msg6(file, ": configured table '", name.as_str(), "' has type ", toml_type(v), ", expected an array of tables");
                        document.parse_error(message, crate::text::copy_str(file), 0);
                        proof {
                            let f = file_error(
                                file@ + ": configured table '"@ + name@ + "' has type "@ + toml_type_name(*v)
                                    + ", expected an array of tables"@,
                                file@,
                                None,
                            );
                            lemma_adds_extends(*document, before, f);
                            lemma_extends_cat(after_header, before, *document, prev, out_finding(f));
                        }
                    },
                }
            },
            None => {
                let unread = match v {
                    TomlValue::Array(rows) => if rows.len() > 0 && every_table(rows) {
                        Some(rows.len())
                    } else {
                        None
                    },
                    _ => None,
                };
                match unread {
                    Some(n) => {
                        let count = usize_text(n);
                        let message = msg6(file, ": no reader for array-of-tables '", name.as_str(), "' (", count.as_str(), " rows not read)");
                        document.parse_error(message, crate::text::copy_str(file), 0);
                        proof {
                            let f = file_error(
                                file@ + ": no reader for array-of-tables '"@ + name@ + "' ("@ + nat_text(n as nat)
                                    + " rows not read)"@,
                                file@,
                                None,
                            );
                            lemma_adds_extends(*document, before, f);
                            lemma_extends_cat(after_header, before, *document, prev, out_finding(f));
                        }
                    },
                    None => {
                        proof {
                            lemma_extends_none(*document);
                            lemma_extends_cat(after_header, before, *document, prev, out_none());
                            assert(out_cat(prev, out_none()) =~= prev) by {
                                assert(prev.nodes + Seq::<NodeView>::empty() =~= prev.nodes);
                                assert(prev.edges + Seq::<EdgeView>::empty() =~= prev.edges);
                                assert(prev.findings + Seq::<IssueView>::empty() =~= prev.findings);
                            }
                        }
                    },
                }
            },
        }
        k += 1;
    }
    proof {
        lemma_extends_cat(start, after_header, *document, hout, entries_walk(*config, root@, root@.len(), file@, file_stem@));
    }
}

/// A file read as one record of the first configured table.
pub open spec fn directory_file_out(c: Config, value: TomlValue, file: Seq<char>, stem: Seq<char>) -> Out {
    match value {
        TomlValue::Table(root) => record_out(c.tables@[0].1, root@, "record"@, file, stem, c.id_prefix),
        _ => out_finding(file_error(file + ": TOML root is not a table"@, file, None)),
    }
}

/// Read a parsed file as one record.
pub fn read_directory_file(document: &mut Document, config: &Config, value: &TomlValue, file: &str, file_stem: &str)
    requires
        config.tables@.len() > 0,
    ensures
        extends(*final(document), *old(document), directory_file_out(*config, *value, file@, file_stem@)),
{
    let ghost start = *document;
    match value {
        TomlValue::Table(root) => {
            read_record(document, &config.tables[0].1, root, "record", file, file_stem, config.id_prefix);
        },
        _ => {
            let message = msg2(file, ": TOML root is not a table");
            document.parse_error(message, crate::text::copy_str(file), 0);
            proof {
                lemma_adds_extends(*document, start, file_error(file@ + ": TOML root is not a table"@, file@, None));
            }
        },
    }
}

/// How many newline bytes `t` holds.
pub open spec fn newlines(t: Seq<u8>) -> nat
    decreases t.len(),
{
    if t.len() == 0 {
        0
    } else {
        newlines(t.drop_last()) + if t.last() == 10u8 {
            1nat
        } else {
            0nat
        }
    }
}

/// The line a TOML parse error points at: one more than the newlines in the
/// bytes before the start of its span; `0` where it has no span.
pub fn parse_line(text: &Vec<u8>, span_start: Option<usize>) -> (r: usize)
    requires
        text@.len() < usize::MAX,
    ensures
        match span_start {
            Some(start) => r == newlines(text@.take(if start < text@.len() { start as int } else { text@.len() as int })) + 1,
            None => r == 0,
        },
{
    match span_start {
        None => 0,
        Some(start) => {
            let end = if start < text.len() {
                start
            } else {
                text.len()
            };
            let mut n: usize = 0;
            let mut i: usize = 0;
            while i < end
                invariant
                    i <= end <= text.len() < usize::MAX,
                    n == newlines(text@.take(i as int)),
                    n <= i,
                decreases end - i,
            {
                assert(text@.take(i + 1).drop_last() =~= text@.take(i as int));
                if text[i] == 10u8 {
                    n += 1;
                }
                i += 1;
            }
            n + 1
        },
    }
}

} // verus!
