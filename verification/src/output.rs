//! The output formats a report is rendered in, and the JSON form of findings.

use vstd::prelude::*;
use crate::json::{deep_items, deep_members, hex, hex_digit, json_pretty_text, lemma_items, lemma_members, to_pretty_json_text, Json, JsonValue};
use crate::render::{format_findings_plain, format_findings_rich, lines_of, plain_finding, rich_finding, shown, tally_parts};
use crate::text::{copy_str, join, msg2, push_char, texts};
use crate::query::{CountsReport, NodeRef, NodeRefView, OrphanEntry, OrphanView, OrphansReport, PathReport, ReachReport};
use crate::render::{findings_tally_view, orphans_view, tally_view};
use crate::summary::{column_sum, sums_fit, StatusRollup, StructuralSummary};
use crate::assoc::{assoc, keys_sorted};
use crate::seqs::first_index;
use crate::text::text_lt;
use crate::types::Severity;
use crate::types::{issues_view, severity_text, sort_issues, sorted_stably, Issue, IssueView};

verus! {

broadcast use vstd::string::group_string_axioms;

/// An output format that is not `plain`, `json` or `rich`: a caller error,
/// not a finding.
pub struct UnknownFormat(pub String);

impl UnknownFormat {
    /// `unknown format: <name>`.
    pub fn text(&self) -> (r: String)
        ensures
            r@ == "unknown format: "@ + self.0@,
    {
        msg2("unknown format: ", self.0.as_str())
    }
}

/// The formats a report is rendered in.
#[derive(Clone, Copy, PartialEq, Eq, Debug)]
pub enum Format {
    Plain,
    Json,
    Rich,
}

/// The format a name stands for, if any.
pub open spec fn format_named(t: Seq<char>) -> Option<Format> {
    if t == "plain"@ {
        Some(Format::Plain)
    } else if t == "json"@ {
        Some(Format::Json)
    } else if t == "rich"@ {
        Some(Format::Rich)
    } else {
        None
    }
}

/// Read a format name: `plain`, `json` or `rich`, else `UnknownFormat` with
/// the name as given.
pub fn parse_format(name: &str) -> (r: Result<Format, UnknownFormat>)
    ensures
        match format_named(name@) {
            Some(f) => r == Ok::<Format, UnknownFormat>(f),
            None => r matches Err(e) && e.0@ == name@,
        },
{
    if crate::text::str_eq(name, "plain") {
        Ok(Format::Plain)
    } else if crate::text::str_eq(name, "json") {
        Ok(Format::Json)
    } else if crate::text::str_eq(name, "rich") {
        Ok(Format::Rich)
    } else {
        Err(UnknownFormat(copy_str(name)))
    }
}

// ---------------------------------------------------------------- escaping

/// `\uXXXX` for one UTF-16 code unit, in lower-case hexadecimal.
pub open spec fn unit_escape(u: int) -> Seq<char> {
    seq!['\\', 'u', hex_digit((u / 4096) % 16), hex_digit((u / 256) % 16), hex_digit((u / 16) % 16), hex_digit(u % 16)]
}

/// A character as escaped JSON text: itself when ASCII, else its UTF-16 code
/// units, a surrogate pair beyond the basic plane.
pub open spec fn char_escaped(c: char) -> Seq<char> {
    let v = (c as u32) as int;
    if v < 128 {
        seq![c]
    } else if v < 0x10000 {
        unit_escape(v)
    } else {
        unit_escape(0xD800 + (v - 0x10000) / 1024) + unit_escape(0xDC00 + (v - 0x10000) % 1024)
    }
}

/// Text with every non-ASCII character escaped.
pub open spec fn escaped_text(s: Seq<char>) -> Seq<char>
    decreases s.len(),
{
    if s.len() == 0 {
        Seq::empty()
    } else {
        escaped_text(s.drop_last()) + char_escaped(s.last())
    }
}

fn push_unit(out: &mut String, u: u32)
    requires
        u < 0x10000,
    ensures
        final(out)@ == old(out)@ + unit_escape(u as int),
{
    let ghost before = out@;
    push_char(out, '\\');
    push_char(out, 'u');
    push_char(out, hex((u / 4096) % 16));
    push_char(out, hex((u / 256) % 16));
    push_char(out, hex((u / 16) % 16));
    push_char(out, hex(u % 16));
    assert(out@ =~= before + unit_escape(u as int));
}

/// Escape every non-ASCII character as `\uXXXX`, a surrogate pair beyond the
/// basic plane, as JSON written for ASCII readers carries it.
pub fn escape_non_ascii(text: &str) -> (r: String)
    ensures
        r@ == escaped_text(text@),
{
    let v = crate::text::chars_of(text);
    let ghost all = v@;
    let mut out = String::new();
    let mut i: usize = 0;
    assert(all.take(0) =~= Seq::<char>::empty());
    while i < v.len()
        invariant
            all == v@,
            i <= v.len(),
            out@ == escaped_text(all.take(i as int)),
        decreases v.len() - i,
    {
        let c = v[i];
        let n = c as u32;
        let ghost before = out@;
        assert(all.take(i + 1).drop_last() =~= all.take(i as int));
        assert(all.take(i + 1).last() == c);
        if n < 128 {
            push_char(&mut out, c);
            assert(out@ =~= before + seq![c]);
        } else if n < 0x10000 {
            push_unit(&mut out, n);
        } else {
            let w = n - 0x10000;
            assert(w < 0x100000) by {
                vstd::utf8::char_is_scalar(c);
            }
            push_unit(&mut out, 0xD800 + w / 1024);
            push_unit(&mut out, 0xDC00 + w % 1024);
            assert(out@ =~= before + char_escaped(c));
        }
        i += 1;
    }
    assert(all.take(v.len() as int) =~= all);
    out
}

/// JSON as the reports print it: indented, with every non-ASCII character escaped.
pub fn render_json(v: &JsonValue) -> (r: String)
    ensures
        r@ == escaped_text(json_pretty_text(v.deep())),
{
    let text = to_pretty_json_text(v);
    escape_non_ascii(text.as_str())
}

// ---------------------------------------------------------------- findings

/// A finding in JSON: its fields in name order, `node_id` null where it has
/// none, `state` only where it has one.
pub open spec fn finding_model(i: IssueView) -> Json {
    let base = seq![
        ("code"@, Json::Str(i.code)),
        ("file"@, Json::Str(i.provenance.file)),
        ("line"@, Json::Int(i.provenance.line)),
        ("message"@, Json::Str(i.message)),
        ("node_id"@, match i.node_id {
            Some(n) => Json::Str(n),
            None => Json::Null,
        }),
        ("severity"@, Json::Str(severity_text(i.severity))),
    ];
    Json::Object(match i.state {
        Some(s) => base.push(("state"@, Json::Str(s))),
        None => base,
    })
}

/// Findings in JSON: `{"findings": [...]}`.
pub open spec fn findings_model(is: Seq<IssueView>) -> Json {
    Json::Object(seq![("findings"@, Json::Array(is.map_values(|i: IssueView| finding_model(i))))])
}

/// One finding as a JSON value.
pub fn finding_json(issue: &Issue) -> (r: JsonValue)
    ensures
        r.deep() == finding_model(issue@),
{
    let mut ms: Vec<(String, JsonValue)> = Vec::new();
    ms.push((copy_str("code"), JsonValue::Str(issue.code.clone())));
    ms.push((copy_str("file"), JsonValue::Str(issue.provenance.file.clone())));
    ms.push((copy_str("line"), JsonValue::Int(issue.provenance.line as i128)));
    ms.push((copy_str("message"), JsonValue::Str(issue.message.clone())));
    let node_id = match &issue.node_id {
        Some(n) => JsonValue::Str(n.clone()),
        None => JsonValue::Null,
    };
    ms.push((copy_str("node_id"), node_id));
    ms.push((copy_str("severity"), JsonValue::Str(copy_str(issue.severity.as_str()))));
    match &issue.state {
        Some(s) => {
            ms.push((copy_str("state"), JsonValue::Str(s.clone())));
        },
        None => {},
    }
    proof {
        lemma_members(ms@, ms@.len());
        let base = seq![
            ("code"@, Json::Str(issue@.code)),
            ("file"@, Json::Str(issue@.provenance.file)),
            ("line"@, Json::Int(issue@.provenance.line)),
            ("message"@, Json::Str(issue@.message)),
            ("node_id"@, match issue@.node_id {
                Some(n) => Json::Str(n),
                None => Json::Null,
            }),
            ("severity"@, Json::Str(severity_text(issue@.severity))),
        ];
        match issue@.state {
            Some(s) => {
                assert(deep_members(ms@, ms@.len()) =~= base.push(("state"@, Json::Str(s))));
                assert(finding_model(issue@)->Object_0 =~= base.push(("state"@, Json::Str(s))));
            },
            None => {
                assert(deep_members(ms@, ms@.len()) =~= base);
                assert(finding_model(issue@)->Object_0 =~= base);
            },
        }
        assert(Json::Object(deep_members(ms@, ms@.len())) == finding_model(issue@));
    }
    let r = JsonValue::Object(ms);
    assert(r.deep() == Json::Object(deep_members(ms@, ms@.len())));
    r
}

/// Findings as a JSON value: `{"findings": [...]}`, in the order given.
pub fn findings_json(issues: &Vec<Issue>) -> (r: JsonValue)
    ensures
        r.deep() == findings_model(issues_view(issues@)),
{
    let ghost iv = issues_view(issues@);
    let mut items: Vec<JsonValue> = Vec::new();
    let mut k: usize = 0;
    while k < issues.len()
        invariant
            k <= issues.len(),
            iv == issues_view(issues@),
            items.len() == k,
            forall|j: int| 0 <= j < k ==> #[trigger] items@[j].deep() == finding_model(iv[j]),
        decreases issues.len() - k,
    {
        assert(iv[k as int] == issues@[k as int]@);
        items.push(finding_json(&issues[k]));
        k += 1;
    }
    proof {
        lemma_items(items@, items@.len());
        assert(deep_items(items@, items@.len()) =~= iv.map_values(|i: IssueView| finding_model(i)));
    }
    let mut root: Vec<(String, JsonValue)> = Vec::new();
    root.push((copy_str("findings"), JsonValue::Array(items)));
    proof {
        lemma_members(root@, root@.len());
        assert(deep_members(root@, root@.len()) =~= seq![("findings"@, Json::Array(iv.map_values(|i: IssueView| finding_model(i))))]);
    }
    JsonValue::Object(root)
}

/// Findings in `plain`, the shown ones one per line.
pub open spec fn findings_plain(is: Seq<IssueView>) -> Seq<char> {
    join(lines_of(is, is.len(), |i: IssueView| shown(i), |i: IssueView| plain_finding(i)), "\n"@)
}

/// Findings in `rich`: aligned columns and the tally, or `No findings.`.
pub open spec fn findings_rich(is: Seq<IssueView>) -> Seq<char> {
    let lines = lines_of(is, is.len(), |i: IssueView| shown(i), |i: IssueView| rich_finding(i));
    if lines.len() == 0 {
        "No findings."@
    } else {
        join(lines.push("\n"@ + join(tally_parts(is), ", "@)), "\n"@)
    }
}

/// Findings in a format.
pub open spec fn findings_in(is: Seq<IssueView>, f: Format) -> Seq<char> {
    match f {
        Format::Plain => findings_plain(is),
        Format::Json => escaped_text(json_pretty_text(findings_model(is))),
        Format::Rich => findings_rich(is),
    }
}

/// Render findings in the named format, sorted first so the output does not
/// depend on the order they were collected in; an unknown format is refused.
pub fn output_findings(issues: &Vec<Issue>, format: &str) -> (r: Result<String, UnknownFormat>)
    ensures
        match format_named(format@) {
            Some(f) => r matches Ok(s) && s@ == findings_in(sorted_stably(issues_view(issues@)), f),
            None => r matches Err(e) && e.0@ == format@,
        },
{
    let f = match parse_format(format) {
        Ok(f) => f,
        Err(e) => {
            return Err(e);
        },
    };
    let mut sorted: Vec<Issue> = Vec::new();
    let mut k: usize = 0;
    while k < issues.len()
        invariant
            k <= issues.len(),
            issues_view(sorted@) == issues_view(issues@).take(k as int),
        decreases issues.len() - k,
    {
        let ghost before = issues_view(sorted@);
        sorted.push(issues[k].copy());
        assert(issues_view(sorted@) =~= before.push(issues@[k as int]@));
        assert(issues_view(issues@).take(k + 1) =~= issues_view(issues@).take(k as int).push(issues@[k as int]@));
        k += 1;
    }
    assert(issues_view(issues@).take(issues.len() as int) =~= issues_view(issues@));
    sort_issues(&mut sorted);
    match f {
        Format::Plain => Ok(format_findings_plain(&sorted)),
        Format::Json => Ok(render_json(&findings_json(&sorted))),
        Format::Rich => Ok(format_findings_rich(&sorted)),
    }
}

// ---------------------------------------------------------------- queries

/// Texts as a JSON array of strings.
pub open spec fn texts_model(ts: Seq<Seq<char>>) -> Json {
    Json::Array(ts.map_values(|t: Seq<char>| Json::Str(t)))
}

fn texts_json(v: &[String]) -> (r: JsonValue)
    ensures
        r.deep() == texts_model(texts(v@)),
{
    let mut items: Vec<JsonValue> = Vec::new();
    let mut k: usize = 0;
    while k < v.len()
        invariant
            k <= v.len(),
            items.len() == k,
            forall|j: int| 0 <= j < k ==> #[trigger] items@[j].deep() == Json::Str(v@[j]@),
        decreases v.len() - k,
    {
        items.push(JsonValue::Str(v[k].clone()));
        k += 1;
    }
    proof {
        lemma_items(items@, items@.len());
        assert(deep_items(items@, items@.len()) =~= texts(v@).map_values(|t: Seq<char>| Json::Str(t)));
    }
    JsonValue::Array(items)
}

/// A node in a query answer: `id` and `kind`, and `tainted` where the walk
/// was asked to tell.
pub open spec fn node_ref_model(n: NodeRefView) -> Json {
    let base = seq![("id"@, Json::Str(n.id)), ("kind"@, Json::Str(n.kind))];
    Json::Object(match n.tainted {
        Some(b) => base.push(("tainted"@, Json::Bool(b))),
        None => base,
    })
}

fn node_ref_json(n: &NodeRef) -> (r: JsonValue)
    ensures
        r.deep() == node_ref_model(n@),
{
    let mut ms: Vec<(String, JsonValue)> = Vec::new();
    ms.push((copy_str("id"), JsonValue::Str(n.id.clone())));
    ms.push((copy_str("kind"), JsonValue::Str(n.kind.clone())));
    match n.tainted {
        Some(b) => {
            ms.push((copy_str("tainted"), JsonValue::Bool(b)));
        },
        None => {},
    }
    proof {
        lemma_members(ms@, ms@.len());
        let base = seq![("id"@, Json::Str(n@.id)), ("kind"@, Json::Str(n@.kind))];
        match n.tainted {
            Some(b) => {
                assert(deep_members(ms@, ms@.len()) =~= base.push(("tainted"@, Json::Bool(b))));
                assert(node_ref_model(n@)->Object_0 =~= base.push(("tainted"@, Json::Bool(b))));
            },
            None => {
                assert(deep_members(ms@, ms@.len()) =~= base);
                assert(node_ref_model(n@)->Object_0 =~= base);
            },
        }
        assert(Json::Object(deep_members(ms@, ms@.len())) == node_ref_model(n@));
    }
    let r = JsonValue::Object(ms);
    assert(r.deep() == Json::Object(deep_members(ms@, ms@.len())));
    r
}

/// A reach answer in JSON.
pub open spec fn reach_model(origin: Seq<char>, direction: Seq<char>, kinds: Seq<Seq<char>>, nodes: Seq<NodeRefView>) -> Json {
    Json::Object(seq![
        ("direction"@, Json::Str(direction)),
        ("edge_kinds"@, texts_model(kinds)),
        ("nodes"@, Json::Array(nodes.map_values(|n: NodeRefView| node_ref_model(n)))),
        ("origin"@, Json::Str(origin)),
    ])
}

/// A reach answer as a JSON value: `direction`, `edge_kinds`, `nodes`, `origin`.
pub fn reach_json(report: &ReachReport) -> (r: JsonValue)
    ensures
        r.deep() == reach_model(
            report.origin@,
            report.direction@,
            texts(report.edge_kinds@),
            report.nodes@.map_values(|n: NodeRef| n@),
        ),
{
    let ghost nv = report.nodes@.map_values(|n: NodeRef| n@);
    let mut items: Vec<JsonValue> = Vec::new();
    let mut k: usize = 0;
    while k < report.nodes.len()
        invariant
            k <= report.nodes.len(),
            nv == report.nodes@.map_values(|n: NodeRef| n@),
            items.len() == k,
            forall|j: int| 0 <= j < k ==> #[trigger] items@[j].deep() == node_ref_model(nv[j]),
        decreases report.nodes.len() - k,
    {
        items.push(node_ref_json(&report.nodes[k]));
        k += 1;
    }
    proof {
        lemma_items(items@, items@.len());
        assert(deep_items(items@, items@.len()) =~= nv.map_values(|n: NodeRefView| node_ref_model(n)));
    }
    let mut ms: Vec<(String, JsonValue)> = Vec::new();
    ms.push((copy_str("direction"), JsonValue::Str(report.direction.clone())));
    ms.push((copy_str("edge_kinds"), texts_json(report.edge_kinds.as_slice())));
    ms.push((copy_str("nodes"), JsonValue::Array(items)));
    ms.push((copy_str("origin"), JsonValue::Str(report.origin.clone())));
    proof {
        lemma_members(ms@, ms@.len());
        assert(deep_members(ms@, ms@.len()) =~= reach_model(report.origin@, report.direction@, texts(report.edge_kinds@), nv)->Object_0);
    }
    JsonValue::Object(ms)
}

/// A path answer in JSON: the path's edge kinds and nodes, empty when none
/// was found.
pub open spec fn path_model(src: Seq<char>, tgt: Seq<char>, found: Option<(Seq<Seq<char>>, Seq<Seq<char>>)>) -> Json {
    let (ns, es) = match found {
        Some((n, e)) => (n, e),
        None => (Seq::empty(), Seq::empty()),
    };
    Json::Object(seq![
        ("edges"@, texts_model(es)),
        ("found"@, Json::Bool(found is Some)),
        ("nodes"@, texts_model(ns)),
        ("src"@, Json::Str(src)),
        ("tgt"@, Json::Str(tgt)),
    ])
}

/// A path answer as a JSON value: `edges`, `found`, `nodes`, `src`, `tgt`.
pub fn path_json(report: &PathReport) -> (r: JsonValue)
    ensures
        r.deep() == path_model(report.spec_src(), report.spec_tgt(), report.spec_found()),
{
    let (found, nodes, edges) = match report.found_path() {
        Some((n, e)) => (true, texts_json(n), texts_json(e)),
        None => {
            let empty: Vec<String> = Vec::new();
            proof {
                assert(texts(empty@) =~= Seq::<Seq<char>>::empty());
            }
            (false, texts_json(empty.as_slice()), texts_json(empty.as_slice()))
        },
    };
    let mut ms: Vec<(String, JsonValue)> = Vec::new();
    ms.push((copy_str("edges"), edges));
    ms.push((copy_str("found"), JsonValue::Bool(found)));
    ms.push((copy_str("nodes"), nodes));
    ms.push((copy_str("src"), JsonValue::Str(copy_str(report.src()))));
    ms.push((copy_str("tgt"), JsonValue::Str(copy_str(report.tgt()))));
    proof {
        lemma_members(ms@, ms@.len());
        assert(deep_members(ms@, ms@.len()) =~= path_model(report.spec_src(), report.spec_tgt(), report.spec_found())->Object_0);
    }
    JsonValue::Object(ms)
}

/// An orphan in JSON: where it is declared, its ID and kind.
pub open spec fn orphan_model(o: OrphanView) -> Json {
    Json::Object(seq![
        ("file"@, Json::Str(o.provenance.file)),
        ("id"@, Json::Str(o.id)),
        ("kind"@, Json::Str(o.kind)),
        ("line"@, Json::Int(o.provenance.line)),
    ])
}

/// An orphans answer in JSON: the kind restriction, null when none, and the orphans.
pub open spec fn orphans_model(kind_filter: Option<Seq<char>>, orphans: Seq<OrphanView>) -> Json {
    Json::Object(seq![
        ("kind_filter"@, match kind_filter {
            Some(k) => Json::Str(k),
            None => Json::Null,
        }),
        ("orphans"@, Json::Array(orphans.map_values(|o: OrphanView| orphan_model(o)))),
    ])
}

fn orphan_json(o: &OrphanEntry) -> (r: JsonValue)
    ensures
        r.deep() == orphan_model(o@),
{
    let mut ms: Vec<(String, JsonValue)> = Vec::new();
    ms.push((copy_str("file"), JsonValue::Str(o.provenance.file.clone())));
    ms.push((copy_str("id"), JsonValue::Str(o.id.clone())));
    ms.push((copy_str("kind"), JsonValue::Str(o.kind.clone())));
    ms.push((copy_str("line"), JsonValue::Int(o.provenance.line as i128)));
    proof {
        lemma_members(ms@, ms@.len());
        assert(deep_members(ms@, ms@.len()) =~= orphan_model(o@)->Object_0);
    }
    JsonValue::Object(ms)
}

/// An orphans answer as a JSON value: `kind_filter`, `orphans`.
pub fn orphans_json(report: &OrphansReport) -> (r: JsonValue)
    ensures
        r.deep() == orphans_model(crate::types::opt_view(report.kind_filter), orphans_view(report.orphans@)),
{
    let ghost ov = orphans_view(report.orphans@);
    let mut items: Vec<JsonValue> = Vec::new();
    let mut k: usize = 0;
    while k < report.orphans.len()
        invariant
            k <= report.orphans.len(),
            ov == orphans_view(report.orphans@),
            items.len() == k,
            forall|j: int| 0 <= j < k ==> #[trigger] items@[j].deep() == orphan_model(ov[j]),
        decreases report.orphans.len() - k,
    {
        items.push(orphan_json(&report.orphans[k]));
        k += 1;
    }
    proof {
        lemma_items(items@, items@.len());
        assert(deep_items(items@, items@.len()) =~= ov.map_values(|o: OrphanView| orphan_model(o)));
    }
    let filter = match &report.kind_filter {
        Some(k) => JsonValue::Str(k.clone()),
        None => JsonValue::Null,
    };
    let mut ms: Vec<(String, JsonValue)> = Vec::new();
    ms.push((copy_str("kind_filter"), filter));
    ms.push((copy_str("orphans"), JsonValue::Array(items)));
    let ghost kf = crate::types::opt_view(report.kind_filter);
    proof {
        lemma_members(ms@, ms@.len());
        assert(deep_members(ms@, ms@.len()) =~= orphans_model(kf, ov)->Object_0);
    }
    JsonValue::Object(ms)
}

/// Tallies as a JSON object from kind to count, in the tallies' order.
pub open spec fn tally_model(t: Seq<(Seq<char>, i64)>) -> Json {
    Json::Object(t.map_values(|e: (Seq<char>, i64)| (e.0, Json::Int(e.1 as int))))
}

fn tally_json(t: &Vec<(String, i64)>) -> (r: JsonValue)
    ensures
        r.deep() == tally_model(tally_view(t@)),
{
    let ghost tv = tally_view(t@);
    let mut ms: Vec<(String, JsonValue)> = Vec::new();
    let mut k: usize = 0;
    while k < t.len()
        invariant
            k <= t.len(),
            tv == tally_view(t@),
            ms.len() == k,
            forall|j: int| 0 <= j < k ==> #[trigger] ms@[j].0@ == tv[j].0 && ms@[j].1.deep() == Json::Int(tv[j].1 as int),
        decreases t.len() - k,
    {
        ms.push((t[k].0.clone(), JsonValue::Int(t[k].1 as i128)));
        k += 1;
    }
    proof {
        lemma_members(ms@, ms@.len());
        assert(deep_members(ms@, ms@.len()) =~= tv.map_values(|e: (Seq<char>, i64)| (e.0, Json::Int(e.1 as int))));
    }
    JsonValue::Object(ms)
}

/// A counts answer in JSON: edge and node tallies.
pub open spec fn counts_model(nodes: Seq<(Seq<char>, i64)>, edges: Seq<(Seq<char>, i64)>) -> Json {
    Json::Object(seq![("edges"@, tally_model(edges)), ("nodes"@, tally_model(nodes))])
}

/// A counts answer as a JSON value: `edges`, `nodes`.
pub fn counts_json(report: &CountsReport) -> (r: JsonValue)
    ensures
        r.deep() == counts_model(tally_view(report.nodes@), tally_view(report.edges@)),
{
    let mut ms: Vec<(String, JsonValue)> = Vec::new();
    ms.push((copy_str("edges"), tally_json(&report.edges)));
    ms.push((copy_str("nodes"), tally_json(&report.nodes)));
    proof {
        lemma_members(ms@, ms@.len());
        assert(deep_members(ms@, ms@.len()) =~= counts_model(tally_view(report.nodes@), tally_view(report.edges@))->Object_0);
    }
    JsonValue::Object(ms)
}

/// A finding tally in JSON: `code`, `count`, `severity`.
pub open spec fn finding_tally_model(t: (Seq<char>, Severity, i64)) -> Json {
    Json::Object(seq![
        ("code"@, Json::Str(t.0)),
        ("count"@, Json::Int(t.2 as int)),
        ("severity"@, Json::Str(severity_text(t.1))),
    ])
}

/// The structural counts in JSON: edge, finding and node tallies.
pub open spec fn structural_model(
    nodes: Seq<(Seq<char>, i64)>,
    edges: Seq<(Seq<char>, i64)>,
    findings: Seq<(Seq<char>, Severity, i64)>,
) -> Json {
    Json::Object(seq![
        ("edge_counts"@, tally_model(edges)),
        ("finding_counts"@, Json::Array(findings.map_values(|t: (Seq<char>, Severity, i64)| finding_tally_model(t)))),
        ("node_counts"@, tally_model(nodes)),
    ])
}

/// The structural counts as a JSON value: `edge_counts`, `finding_counts`, `node_counts`.
pub fn structural_json(report: &StructuralSummary) -> (r: JsonValue)
    ensures
        r.deep() == structural_model(
            tally_view(report.node_counts@),
            tally_view(report.edge_counts@),
            findings_tally_view(report.finding_counts@),
        ),
{
    let ghost fv = findings_tally_view(report.finding_counts@);
    let mut items: Vec<JsonValue> = Vec::new();
    let mut k: usize = 0;
    while k < report.finding_counts.len()
        invariant
            k <= report.finding_counts.len(),
            fv == findings_tally_view(report.finding_counts@),
            items.len() == k,
            forall|j: int| 0 <= j < k ==> #[trigger] items@[j].deep() == finding_tally_model(fv[j]),
        decreases report.finding_counts.len() - k,
    {
        let t = &report.finding_counts[k];
        let mut ms: Vec<(String, JsonValue)> = Vec::new();
        ms.push((copy_str("code"), JsonValue::Str(t.code.clone())));
        ms.push((copy_str("count"), JsonValue::Int(t.count as i128)));
        ms.push((copy_str("severity"), JsonValue::Str(copy_str(t.severity.as_str()))));
        proof {
            lemma_members(ms@, ms@.len());
            assert(fv[k as int] == (t.code@, t.severity, t.count));
            assert(deep_members(ms@, ms@.len()) =~= finding_tally_model(fv[k as int])->Object_0);
        }
        items.push(JsonValue::Object(ms));
        k += 1;
    }
    proof {
        lemma_items(items@, items@.len());
        assert(deep_items(items@, items@.len()) =~= fv.map_values(|t: (Seq<char>, Severity, i64)| finding_tally_model(t)));
    }
    let mut root: Vec<(String, JsonValue)> = Vec::new();
    root.push((copy_str("edge_counts"), tally_json(&report.edge_counts)));
    root.push((copy_str("finding_counts"), JsonValue::Array(items)));
    root.push((copy_str("node_counts"), tally_json(&report.node_counts)));
    proof {
        lemma_members(root@, root@.len());
        assert(deep_members(root@, root@.len()) =~= structural_model(
            tally_view(report.node_counts@),
            tally_view(report.edge_counts@),
            fv,
        )->Object_0);
    }
    JsonValue::Object(root)
}

/// Where a row puts its group: before the first count whose key sorts after
/// the group key, else at the end.
pub open spec fn group_slot(gk: Seq<char>, c: Seq<(Seq<char>, i64)>) -> int {
    match first_index(c, |e: (Seq<char>, i64)| text_lt(gk, e.0)) {
        Some(i) => i,
        None => c.len() as int,
    }
}

/// A rollup row in JSON: its counts by key, with the group under the group
/// key in key order, unless a count already holds that key.
pub open spec fn row_model(gk: Seq<char>, g: Seq<char>, c: Seq<(Seq<char>, i64)>) -> Json {
    let ints = c.map_values(|e: (Seq<char>, i64)| (e.0, Json::Int(e.1 as int)));
    Json::Object(
        if exists|j: int| 0 <= j < c.len() && c[j].0 == gk {
            ints
        } else {
            ints.insert(group_slot(gk, c), (gk, Json::Str(g)))
        },
    )
}

/// A rollup in JSON: its rows, then the column totals.
pub open spec fn rollup_model(
    gk: Seq<char>,
    groups: Seq<(String, Vec<(String, i64)>)>,
    totals: Seq<(Seq<char>, i64)>,
) -> Json {
    Json::Object(seq![
        ("groups"@, Json::Array(groups.map_values(|g: (String, Vec<(String, i64)>)| row_model(gk, g.0@, tally_view(g.1@))))),
        ("totals"@, tally_model(totals)),
    ])
}

fn row_json(gk: &str, g: &String, c: &Vec<(String, i64)>) -> (r: JsonValue)
    ensures
        r.deep() == row_model(gk@, g@, tally_view(c@)),
{
    let ghost cv = tally_view(c@);
    let ghost ints = cv.map_values(|e: (Seq<char>, i64)| (e.0, Json::Int(e.1 as int)));
    let mut collides = false;
    let mut slot: usize = c.len();
    let mut found = false;
    let mut k: usize = 0;
    while k < c.len()
        invariant
            k <= c.len(),
            cv == tally_view(c@),
            collides <==> exists|j: int| 0 <= j < k && cv[j].0 == gk@,
            found ==> slot < k && text_lt(gk@, cv[slot as int].0) && forall|j: int| 0 <= j < slot ==> !text_lt(gk@, #[trigger] cv[j].0),
            !found ==> slot == c.len() && forall|j: int| 0 <= j < k ==> !text_lt(gk@, #[trigger] cv[j].0),
        decreases c.len() - k,
    {
        let order = crate::text::compare_text(gk, c[k].0.as_str());
        assert(cv[k as int] == (c@[k as int].0@, c@[k as int].1));
        if order == 0 {
            collides = true;
        }
        if order == -1 && !found {
            found = true;
            slot = k;
        }
        k += 1;
    }
    proof {
        crate::seqs::lemma_first_index_at(cv, |e: (Seq<char>, i64)| text_lt(gk@, e.0), slot as int);
        assert(group_slot(gk@, cv) == slot as int);
    }
    let mut ms: Vec<(String, JsonValue)> = Vec::new();
    let mut j: usize = 0;
    while j < c.len()
        invariant
            j <= c.len(),
            slot <= c.len(),
            cv == tally_view(c@),
            ints == cv.map_values(|e: (Seq<char>, i64)| (e.0, Json::Int(e.1 as int))),
            collides ==> deep_members(ms@, ms@.len()) == ints.take(j as int),
            !collides ==> deep_members(ms@, ms@.len()) == (if j <= slot {
                ints.take(j as int)
            } else {
                ints.take(j as int).insert(slot as int, (gk@, Json::Str(g@)))
            }),
        decreases c.len() - j,
    {
        if !collides && j == slot {
            let ghost before = ms@;
            ms.push((copy_str(gk), JsonValue::Str(g.clone())));
            proof {
                lemma_members(before, before.len());
                lemma_members(ms@, ms@.len());
                assert(deep_members(ms@, ms@.len()) =~= deep_members(before, before.len()).push((gk@, Json::Str(g@))));
            }
        }
        let ghost before = ms@;
        ms.push((c[j].0.clone(), JsonValue::Int(c[j].1 as i128)));
        proof {
            lemma_members(before, before.len());
            lemma_members(ms@, ms@.len());
            assert(cv[j as int] == (c@[j as int].0@, c@[j as int].1));
            assert(deep_members(ms@, ms@.len()) =~= deep_members(before, before.len()).push(ints[j as int]));
            assert(ints.take(j + 1) =~= ints.take(j as int).push(ints[j as int]));
            if !collides && j + 1 > slot {
                assert(ints.take(j + 1).insert(slot as int, (gk@, Json::Str(g@))) =~= (if j <= slot {
                    ints.take(j as int).push((gk@, Json::Str(g@)))
                } else {
                    ints.take(j as int).insert(slot as int, (gk@, Json::Str(g@)))
                }).push(ints[j as int]));
            }
        }
        j += 1;
    }
    if !collides && slot == c.len() {
        let ghost before = ms@;
        ms.push((copy_str(gk), JsonValue::Str(g.clone())));
        proof {
            lemma_members(before, before.len());
            lemma_members(ms@, ms@.len());
            assert(deep_members(ms@, ms@.len()) =~= deep_members(before, before.len()).push((gk@, Json::Str(g@))));
        }
    }
    proof {
        assert(ints.take(c.len() as int) =~= ints);
        if !collides && slot == c.len() {
            assert(ints.insert(slot as int, (gk@, Json::Str(g@))) =~= ints.push((gk@, Json::Str(g@))));
        }
        assert(ints.len() == c.len());
    }
    let r = JsonValue::Object(ms);
    assert(r.deep() == Json::Object(deep_members(ms@, ms@.len())));
    r
}

/// A rollup as a JSON value: `groups`, each row its counts with the group
/// under the group key, and `totals`, the column sums in key order.
pub fn rollup_json(report: &StatusRollup) -> (r: JsonValue)
    requires
        sums_fit(report.groups@, texts(report.status_keys@)),
    ensures
        exists|t: Seq<(String, i64)>|
            {
                &&& keys_sorted(t)
                &&& forall|k: Seq<char>| #[trigger] assoc(t, k) == if texts(report.status_keys@).contains(k) || k == "total"@ {
                    Some(column_sum(report.groups@, report.groups@.len() as nat, k) as i64)
                } else {
                    None
                }
                &&& r.deep() == rollup_model(report.group_key@, report.groups@, tally_view(t))
            },
{
    let ghost gs = report.groups@;
    let mut rows: Vec<JsonValue> = Vec::new();
    let mut k: usize = 0;
    while k < report.groups.len()
        invariant
            k <= report.groups.len(),
            gs == report.groups@,
            rows.len() == k,
            forall|j: int| 0 <= j < k ==> #[trigger] rows@[j].deep() == row_model(report.group_key@, gs[j].0@, tally_view(gs[j].1@)),
        decreases report.groups.len() - k,
    {
        rows.push(row_json(report.group_key.as_str(), &report.groups[k].0, &report.groups[k].1));
        k += 1;
    }
    proof {
        lemma_items(rows@, rows@.len());
        assert(deep_items(rows@, rows@.len()) =~= gs.map_values(
            |g: (String, Vec<(String, i64)>)| row_model(report.group_key@, g.0@, tally_view(g.1@)),
        ));
    }
    let totals = report.totals();
    let mut ms: Vec<(String, JsonValue)> = Vec::new();
    ms.push((copy_str("groups"), JsonValue::Array(rows)));
    ms.push((copy_str("totals"), tally_json(&totals)));
    proof {
        lemma_members(ms@, ms@.len());
        assert(deep_members(ms@, ms@.len()) =~= rollup_model(report.group_key@, gs, tally_view(totals@))->Object_0);
    }
    JsonValue::Object(ms)
}

} // verus!
