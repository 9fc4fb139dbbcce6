//! GitLab issues as register nodes: each issue a node of the kind its labels
//! pick, with edges from the patterns its description matches and from the
//! issue links GitLab records.

use vstd::prelude::*;

use crate::adapter::{adapter_edges_view, adapter_nodes_view, finding, findings_view, Document, Edge, EdgeView, IssueView, Node, NodeView, Provenance, ProvenanceView};
use crate::assoc::{assoc, assoc_get};
use crate::gitlab::{Config, LinkMapping};
use crate::json::{lemma_items, lemma_members, members_view, Json, JsonValue};
use crate::pattern::{regex_all_group_one, regex_compiles, regex_first_groups};
use crate::text::{chars_of, msg2, msg3, msg4, msg5, msg6, nat_text, texts, u64_text, usize_text};
use crate::tomladapter::{extends, lemma_extends_cat, lemma_extends_none, out_cat, out_finding, out_none, Out};
use crate::types::opt_view;

verus! {

/// An issue as GitLab's API gives it, in the fields the adapter reads.
pub struct GitLabIssue {
    pub iid: u64,
    pub project_id: Option<u64>,
    pub title: String,
    pub state: String,
    pub labels: Vec<String>,
    /// The assignee's username.
    pub assignee: Option<String>,
    pub description: Option<String>,
}

/// One link of an issue to another.
pub struct IssueLink {
    pub iid: u64,
    pub project_id: Option<u64>,
    pub link_type: String,
}

/// `gitlab:group/project#iid`: where everything read of an issue points.
pub open spec fn issue_file_of(project: Seq<char>, iid: u64) -> Seq<char> {
    "gitlab:"@ + project + "#"@ + nat_text(iid as nat)
}

/// `#iid`: an issue's node ID.
pub open spec fn issue_id_of(iid: nat) -> Seq<char> {
    "#"@ + nat_text(iid)
}

pub fn issue_file(project: &str, iid: u64) -> (r: String)
    ensures
        r@ == issue_file_of(project@, iid),
{
    let n = u64_text(iid);
    msg4("gitlab:", project, "#", n.as_str())
}

fn issue_id(iid: u64) -> (r: String)
    ensures
        r@ == issue_id_of(iid as nat),
{
    let n = u64_text(iid);
    msg2("#", n.as_str())
}

/// The kind of the first label the label map names, else the default kind.
pub open spec fn label_kind(labels: Seq<Seq<char>>, m: Seq<(String, String)>, default: Seq<char>) -> Seq<char>
    decreases labels.len(),
{
    if labels.len() == 0 {
        default
    } else {
        match assoc(m, labels[0]) {
            Some(k) => k@,
            None => label_kind(labels.drop_first(), m, default),
        }
    }
}

/// Every kind a label can pick, and the default, declares its attrs.
pub open spec fn kinds_declared(c: Config) -> bool {
    &&& assoc(c.attrs_by_kind@, c.default_kind@) is Some
    &&& forall|i: int| 0 <= i < c.label_map@.len() ==> #[trigger] assoc(c.attrs_by_kind@, c.label_map@[i].1@) is Some
}

proof fn lemma_label_kind_declared(labels: Seq<Seq<char>>, c: Config)
    requires
        kinds_declared(c),
    ensures
        assoc(c.attrs_by_kind@, label_kind(labels, c.label_map@, c.default_kind@)) is Some,
    decreases labels.len(),
{
    if labels.len() > 0 {
        let m = c.label_map@;
        crate::seqs::lemma_first_index(crate::assoc::keys_of(m), crate::graph::same_text(labels[0]));
        match crate::seqs::first_index(crate::assoc::keys_of(m), crate::graph::same_text(labels[0])) {
            Some(i) => {
                assert(assoc(c.attrs_by_kind@, m[i].1@) is Some);
            },
            None => {
                lemma_label_kind_declared(labels.drop_first(), c);
            },
        }
    }
}

/// The node kind of an issue.
pub fn node_kind(issue: &GitLabIssue, config: &Config) -> (r: String)
    ensures
        r@ == label_kind(texts(issue.labels@), config.label_map@, config.default_kind@),
{
    let ghost all = texts(issue.labels@);
    let mut i: usize = 0;
    assert(all.skip(0) =~= all);
    while i < issue.labels.len()
        invariant
            i <= issue.labels.len(),
            all == texts(issue.labels@),
            label_kind(all, config.label_map@, config.default_kind@) == label_kind(
                all.skip(i as int),
                config.label_map@,
                config.default_kind@,
            ),
        decreases issue.labels.len() - i,
    {
        proof {
            assert(all.skip(i as int)[0] == issue.labels@[i as int]@);
            assert(all.skip(i as int).drop_first() =~= all.skip(i + 1));
        }
        match assoc_get(&config.label_map, issue.labels[i].as_str()) {
            Some(k) => {
                return k.clone();
            },
            None => {},
        }
        i += 1;
    }
    assert(all.skip(i as int) =~= Seq::<Seq<char>>::empty());
    config.default_kind.clone()
}

/// Whether `kind` declares the attr `name`.
pub open spec fn declares(c: Config, kind: Seq<char>, name: Seq<char>) -> bool {
    match assoc(c.attrs_by_kind@, kind) {
        Some(v) => texts(v@).contains(name),
        None => false,
    }
}

/// An issue's attrs, in key order: those its kind declares among assignee,
/// labels, state and summary (the title).
pub open spec fn issue_attrs(issue: GitLabIssue, c: Config, kind: Seq<char>) -> Seq<(Seq<char>, Json)> {
    let a0 = Seq::<(Seq<char>, Json)>::empty();
    let a1 = match issue.assignee {
        Some(u) => if declares(c, kind, "assignee"@) {
            a0.push(("assignee"@, Json::Str(u@)))
        } else {
            a0
        },
        None => a0,
    };
    let a2 = if declares(c, kind, "labels"@) {
        a1.push(("labels"@, Json::Array(texts(issue.labels@).map_values(|l: Seq<char>| Json::Str(l)))))
    } else {
        a1
    };
    let a3 = if declares(c, kind, "state"@) {
        a2.push(("state"@, Json::Str(issue.state@)))
    } else {
        a2
    };
    if declares(c, kind, "summary"@) {
        a3.push(("summary"@, Json::Str(issue.title@)))
    } else {
        a3
    }
}

fn push_attr(attrs: &mut Vec<(String, JsonValue)>, key: &str, value: JsonValue)
    ensures
        members_view(final(attrs)@) == members_view(old(attrs)@).push((key@, value.deep())),
{
    let ghost before = attrs@;
    let ghost j = value.deep();
    attrs.push((crate::text::copy_str(key), value));
    proof {
        lemma_members(before, before.len());
        lemma_members(attrs@, attrs@.len());
        assert(members_view(attrs@) =~= members_view(before).push((key@, j)));
    }
}

/// The attrs of an issue of `kind`.
pub fn attrs(issue: &GitLabIssue, config: &Config, kind: &str) -> (r: Vec<(String, JsonValue)>)
    requires
        assoc(config.attrs_by_kind@, kind@) is Some,
    ensures
        members_view(r@) == issue_attrs(*issue, *config, kind@),
{
    let declared = match assoc_get(&config.attrs_by_kind, kind) {
        Some(d) => d,
        None => {
            return Vec::new();
        },
    };
    let mut out: Vec<(String, JsonValue)> = Vec::new();
    proof {
        lemma_members(out@, 0);
        assert(members_view(out@) =~= Seq::<(Seq<char>, Json)>::empty());
    }
    match &issue.assignee {
        Some(u) => {
            if crate::assoc::contains_text(declared, "assignee") {
                push_attr(&mut out, "assignee", JsonValue::Str(u.clone()));
            }
        },
        None => {},
    }
    if crate::assoc::contains_text(declared, "labels") {
        let mut items: Vec<JsonValue> = Vec::new();
        let mut i: usize = 0;
        while i < issue.labels.len()
            invariant
                i <= issue.labels.len(),
                items@.len() == i,
                forall|j: int| 0 <= j < i ==> #[trigger] items@[j].deep() == Json::Str(issue.labels@[j]@),
            decreases issue.labels.len() - i,
        {
            items.push(JsonValue::Str(issue.labels[i].clone()));
            i += 1;
        }
        let ghost iv = items@;
        let v = JsonValue::Array(items);
        proof {
            lemma_items(iv, iv.len());
            assert(crate::json::deep_items(iv, iv.len()) =~= texts(issue.labels@).map_values(|l: Seq<char>| Json::Str(l)));
        }
        push_attr(&mut out, "labels", v);
    }
    if crate::assoc::contains_text(declared, "state") {
        push_attr(&mut out, "state", JsonValue::Str(issue.state.clone()));
    }
    if crate::assoc::contains_text(declared, "summary") {
        push_attr(&mut out, "summary", JsonValue::Str(issue.title.clone()));
    }
    out
}

/// `str::parse::<u64>`: an optional `+`, then at least one digit, of a value
/// that fits.
pub open spec fn u64_field(t: Seq<char>) -> Option<nat> {
    let body = if t.len() > 0 && t[0] == '+' {
        t.drop_first()
    } else {
        t
    };
    if body.len() > 0 && all_digit_chars(body) && digit_chars_value(body) <= u64::MAX {
        Some(digit_chars_value(body))
    } else {
        None
    }
}

pub open spec fn all_digit_chars(s: Seq<char>) -> bool {
    forall|i: int| 0 <= i < s.len() ==> '0' <= #[trigger] s[i] <= '9'
}

pub open spec fn digit_chars_value(s: Seq<char>) -> nat
    decreases s.len(),
{
    if s.len() == 0 {
        0
    } else {
        digit_chars_value(s.drop_last()) * 10 + (s.last() as int - '0' as int) as nat
    }
}

proof fn lemma_digit_chars_grow(s: Seq<char>, i: int, j: int)
    requires
        0 <= i <= j <= s.len(),
        all_digit_chars(s),
    ensures
        digit_chars_value(s.take(i)) <= digit_chars_value(s.take(j)),
    decreases j - i,
{
    if i < j {
        lemma_digit_chars_grow(s, i, j - 1);
        assert(s.take(j).drop_last() =~= s.take(j - 1));
    }
}

pub fn parse_u64_text(t: &str) -> (r: Option<u64>)
    ensures
        r matches Some(n) ==> u64_field(t@) == Some(n as nat),
        r is None ==> u64_field(t@) is None,
{
    let v = chars_of(t);
    let start: usize = if v.len() > 0 && v[0] == '+' {
        1
    } else {
        0
    };
    let ghost body = if t@.len() > 0 && t@[0] == '+' {
        t@.drop_first()
    } else {
        t@
    };
    assert(body =~= v@.subrange(start as int, v@.len() as int));
    assert(u64_field(t@) == (if body.len() > 0 && all_digit_chars(body) && digit_chars_value(body) <= u64::MAX {
        Some(digit_chars_value(body))
    } else {
        None
    }));
    if start == v.len() {
        return None;
    }
    let mut i: usize = start;
    while i < v.len()
        invariant
            start <= i <= v.len(),
            v@ == t@,
            body == v@.subrange(start as int, v@.len() as int),
            u64_field(t@) == (if body.len() > 0 && all_digit_chars(body) && digit_chars_value(body) <= u64::MAX {
                Some(digit_chars_value(body))
            } else {
                None
            }),
            forall|k: int| start <= k < i ==> '0' <= #[trigger] v@[k] <= '9',
        decreases v.len() - i,
    {
        if v[i] < '0' || v[i] > '9' {
            assert(body[i - start] == v@[i as int]);
            assert(!('0' <= body[i - start] <= '9'));
            return None;
        }
        i += 1;
    }
    assert(all_digit_chars(body)) by {
        assert forall|k: int| 0 <= k < body.len() implies '0' <= #[trigger] body[k] <= '9' by {
            assert(body[k] == v@[k + start]);
        }
    }
    let mut acc: u64 = 0;
    let mut i: usize = start;
    while i < v.len()
        invariant
            start <= i <= v.len(),
            v@ == t@,
            body == v@.subrange(start as int, v@.len() as int),
            u64_field(t@) == (if body.len() > 0 && all_digit_chars(body) && digit_chars_value(body) <= u64::MAX {
                Some(digit_chars_value(body))
            } else {
                None
            }),
            body.len() > 0,
            all_digit_chars(body),
            acc == digit_chars_value(body.take(i - start)),
        decreases v.len() - i,
    {
        proof {
            assert(body[i - start] == v@[i as int]);
            assert(body.take(i - start + 1).drop_last() =~= body.take(i - start));
            assert(body.take(i - start + 1).last() == v@[i as int]);
        }
        let d = (v[i] as u32 - '0' as u32) as u64;
        assert(digit_chars_value(body.take(i - start + 1)) == acc * 10 + d);
        match acc.checked_mul(10) {
            Some(a) => match a.checked_add(d) {
                Some(b) => {
                    acc = b;
                },
                None => {
                    proof {
                        lemma_digit_chars_grow(body, i - start + 1, body.len() as int);
                        assert(body.take(body.len() as int) =~= body);
                    }
                    return None;
                },
            },
            None => {
                proof {
                    lemma_digit_chars_grow(body, i - start + 1, body.len() as int);
                    assert(body.take(body.len() as int) =~= body);
                }
                return None;
            },
        }
        i += 1;
    }
    assert(body.take(body.len() as int) =~= body);
    Some(acc)
}

/// An edge read from an issue.
pub open spec fn issue_edge(src: Seq<char>, tgt: Seq<char>, kind: Seq<char>, file: Seq<char>) -> EdgeView {
    EdgeView { src, tgt, kind, attrs: Seq::empty(), provenance: ProvenanceView { file, line: 0 } }
}

pub open spec fn out_edge(e: EdgeView) -> Out {
    Out { nodes: Seq::empty(), edges: seq![e], findings: Seq::empty() }
}

/// A `PARSE_ERROR` about an issue.
pub open spec fn issue_error(message: Seq<char>, file: Seq<char>) -> IssueView {
    finding("error"@, "PARSE_ERROR"@, message, file, 0, None)
}

/// One match of an edge pattern: an edge to the issue its group names, or a
/// finding where there is no group or it is no issue number.
pub open spec fn capture_out(g: Option<Seq<char>>, pattern: Seq<char>, kind: Seq<char>, iid: u64, file: Seq<char>) -> Out {
    match g {
        None => out_finding(issue_error("edge pattern '"@ + pattern + "' matched without a target iid capture"@, file)),
        Some(t) => match u64_field(t) {
            None => out_finding(issue_error("edge pattern '"@ + pattern + "' captured invalid target iid '"@ + t + "'"@, file)),
            Some(n) => out_edge(issue_edge(issue_id_of(iid as nat), issue_id_of(n), kind, file)),
        },
    }
}

/// The first `k` matches of one pattern.
pub open spec fn captures_out(gs: Seq<Option<Seq<char>>>, k: nat, pattern: Seq<char>, kind: Seq<char>, iid: u64, file: Seq<char>) -> Out
    decreases k,
{
    if k == 0 || k > gs.len() {
        out_none()
    } else {
        out_cat(captures_out(gs, (k - 1) as nat, pattern, kind, iid, file), capture_out(gs[k - 1], pattern, kind, iid, file))
    }
}

/// What the first `k` edge patterns read from a description.
pub open spec fn patterns_out(c: Config, k: nat, description: Seq<char>, iid: u64, file: Seq<char>) -> Out
    decreases k,
{
    if k == 0 || k > c.edge_patterns@.len() {
        out_none()
    } else {
        let p = c.edge_patterns@[k - 1];
        let here = if regex_compiles(p.pattern@) {
            let gs = regex_first_groups(p.pattern@, description);
            captures_out(gs, gs.len(), p.pattern@, p.kind@, iid, file)
        } else {
            out_none()
        };
        out_cat(patterns_out(c, (k - 1) as nat, description, iid, file), here)
    }
}

/// What an issue's description gives: nothing without one.
pub open spec fn text_edges_out(c: Config, project: Seq<char>, issue: GitLabIssue) -> Out {
    match issue.description {
        None => out_none(),
        Some(d) => patterns_out(c, c.edge_patterns@.len(), d@, issue.iid, issue_file_of(project, issue.iid)),
    }
}

proof fn lemma_cat_none(o: Out)
    ensures
        out_cat(o, out_none()) == o,
{
    assert(out_cat(o, out_none()) =~= o) by {
        assert(o.nodes + Seq::<NodeView>::empty() =~= o.nodes);
        assert(o.edges + Seq::<EdgeView>::empty() =~= o.edges);
        assert(o.findings + Seq::<IssueView>::empty() =~= o.findings);
    }
}

/// Push one edge.
pub fn push_issue_edge(document: &mut Document, src: String, tgt: String, kind: String, file: String)
    ensures
        extends(*final(document), *old(document), out_edge(issue_edge(src@, tgt@, kind@, file@))),
{
    let ghost before = *document;
    let ghost e = issue_edge(src@, tgt@, kind@, file@);
    document.edges.push(Edge { src, tgt, kind, attrs: Vec::new(), provenance: Provenance::new(file, 0) });
    proof {
        lemma_members(document.edges@.last().attrs@, 0);
        assert(members_view(document.edges@.last().attrs@) =~= Seq::<(Seq<char>, Json)>::empty());
        assert(adapter_edges_view(document.edges@) =~= adapter_edges_view(before.edges@) + seq![e]);
        assert(adapter_nodes_view(document.nodes@) =~= adapter_nodes_view(before.nodes@) + Seq::<NodeView>::empty());
        assert(findings_view(document.findings@) =~= findings_view(before.findings@) + Seq::<IssueView>::empty());
    }
}

/// Edges from the patterns an issue's description matches.
pub fn add_text_edges(document: &mut Document, project: &str, issue: &GitLabIssue, config: &Config)
    ensures
        extends(*final(document), *old(document), text_edges_out(*config, project@, *issue)),
{
    let ghost start = *document;
    proof {
        lemma_extends_none(*document);
    }
    let description = match &issue.description {
        Some(d) => d,
        None => {
            return;
        },
    };
    let file = issue_file(project, issue.iid);
    let mut k: usize = 0;
    while k < config.edge_patterns.len()
        invariant
            k <= config.edge_patterns.len(),
            file@ == issue_file_of(project@, issue.iid),
            issue.description == Some(*description),
            extends(*document, start, patterns_out(*config, k as nat, description@, issue.iid, file@)),
        decreases config.edge_patterns.len() - k,
    {
        let p = &config.edge_patterns[k];
        let ghost before = *document;
        let ghost prev = patterns_out(*config, k as nat, description@, issue.iid, file@);
        match regex_all_group_one(p.pattern.as_str(), description.as_str()) {
            None => {
                proof {
                    lemma_cat_none(prev);
                }
            },
            Some(groups) => {
                let ghost gs = regex_first_groups(p.pattern@, description@);
                proof {
                    lemma_extends_none(*document);
                }
                let mut j: usize = 0;
                while j < groups.len()
                    invariant
                        j <= groups.len(),
                        gs == groups@.map_values(|g: Option<String>| opt_view(g)),
                        file@ == issue_file_of(project@, issue.iid),
                        extends(*document, before, captures_out(gs, j as nat, p.pattern@, p.kind@, issue.iid, file@)),
                    decreases groups.len() - j,
                {
                    let ghost b2 = *document;
                    let ghost cp = captures_out(gs, j as nat, p.pattern@, p.kind@, issue.iid, file@);
                    assert(gs[j as int] == opt_view(groups@[j as int]));
                    match &groups[j] {
                        None => {
                            let message = msg3("edge pattern '", p.pattern.as_str(), "' matched without a target iid capture");
                            document.parse_error(message, file.clone(), 0);
                            proof {
                                let f = issue_error("edge pattern '"@ + p.pattern@ + "' matched without a target iid capture"@, file@);
                                crate::tomladapter::lemma_adds_extends(*document, b2, f);
                                lemma_extends_cat(before, b2, *document, cp, out_finding(f));
                            }
                        },
                        Some(t) => match parse_u64_text(t.as_str()) {
                            None => {
                                let message = msg5("edge pattern '", p.pattern.as_str(), "' captured invalid target iid '", t.as_str(), "'");
                                document.parse_error(message, file.clone(), 0);
                                proof {
                                    let f = issue_error(
                                        "edge pattern '"@ + p.pattern@ + "' captured invalid target iid '"@ + t@ + "'"@,
                                        file@,
                                    );
                                    crate::tomladapter::lemma_adds_extends(*document, b2, f);
                                    lemma_extends_cat(before, b2, *document, cp, out_finding(f));
                                }
                            },
                            Some(n) => {
                                push_issue_edge(document, issue_id(issue.iid), issue_id(n), p.kind.clone(), file.clone());
                                proof {
                                    lemma_extends_cat(
                                        before,
                                        b2,
                                        *document,
                                        cp,
                                        out_edge(issue_edge(issue_id_of(issue.iid as nat), issue_id_of(n as nat), p.kind@, file@)),
                                    );
                                }
                            },
                        },
                    }
                    j += 1;
                }
                proof {
                    assert(groups@.len() == gs.len());
                    lemma_extends_cat(start, before, *document, prev, captures_out(gs, gs.len(), p.pattern@, p.kind@, issue.iid, file@));
                }
            },
        }
        k += 1;
    }
}

/// One link: an edge where both issues are known to be of this project and
/// the link type is mapped; otherwise a finding saying why not.
pub open spec fn link_out(
    c: Config,
    project: Seq<char>,
    issue: GitLabIssue,
    link: IssueLink,
    local: Seq<u64>,
) -> Out {
    let file = issue_file_of(project, issue.iid);
    let here = nat_text(issue.iid as nat);
    let there = nat_text(link.iid as nat);
    if issue.project_id is None || link.project_id is None {
        out_finding(
            issue_error(
                "issue #"@ + here + " links to issue #"@ + there
                    + " without enough project identity to determine whether the link is local; no edge was created"@,
                file,
            ),
        )
    } else if !local.contains(link.iid) || issue.project_id != link.project_id {
        out_finding(
            finding(
                "info"@,
                "EXTERNAL_REF"@,
                "issue #"@ + here + " links to external or cross-project issue #"@ + there + "; no edge was created"@,
                file,
                0,
                None,
            ),
        )
    } else {
        match assoc(c.link_type_map@, link.link_type@) {
            None => out_finding(
                issue_error(
                    "issue #"@ + here + " has link_type '"@ + link.link_type@ + "' not declared in adapter.link_type_map"@,
                    file,
                ),
            ),
            Some(m) => if m.reverse {
                out_edge(issue_edge(issue_id_of(link.iid as nat), issue_id_of(issue.iid as nat), m.edge_kind@, file))
            } else {
                out_edge(issue_edge(issue_id_of(issue.iid as nat), issue_id_of(link.iid as nat), m.edge_kind@, file))
            },
        }
    }
}

/// The first `k` links of an issue.
pub open spec fn links_out(c: Config, project: Seq<char>, issue: GitLabIssue, links: Seq<IssueLink>, k: nat, local: Seq<u64>) -> Out
    decreases k,
{
    if k == 0 || k > links.len() {
        out_none()
    } else {
        out_cat(links_out(c, project, issue, links, (k - 1) as nat, local), link_out(c, project, issue, links[k - 1], local))
    }
}

fn has_iid(local: &Vec<u64>, iid: u64) -> (r: bool)
    ensures
        r == local@.contains(iid),
{
    let mut i: usize = 0;
    while i < local.len()
        invariant
            i <= local.len(),
            forall|j: int| 0 <= j < i ==> local@[j] != iid,
        decreases local.len() - i,
    {
        if local[i] == iid {
            assert(local@[i as int] == iid);
            return true;
        }
        i += 1;
    }
    false
}

/// Edges from an issue's links.
pub fn add_link_edges(
    document: &mut Document,
    project: &str,
    issue: &GitLabIssue,
    links: &Vec<IssueLink>,
    local_iids: &Vec<u64>,
    config: &Config,
)
    ensures
        extends(*final(document), *old(document), links_out(*config, project@, *issue, links@, links@.len(), local_iids@)),
{
    let ghost start = *document;
    proof {
        lemma_extends_none(*document);
    }
    let file = issue_file(project, issue.iid);
    let here = u64_text(issue.iid);
    let mut k: usize = 0;
    while k < links.len()
        invariant
            k <= links.len(),
            file@ == issue_file_of(project@, issue.iid),
            here@ == nat_text(issue.iid as nat),
            extends(*document, start, links_out(*config, project@, *issue, links@, k as nat, local_iids@)),
        decreases links.len() - k,
    {
        let link = &links[k];
        let ghost before = *document;
        let ghost prev = links_out(*config, project@, *issue, links@, k as nat, local_iids@);
        let ghost lo = link_out(*config, project@, *issue, *link, local_iids@);
        let there = u64_text(link.iid);
        if issue.project_id.is_none() || link.project_id.is_none() {
            let message = msg5("issue #", here.as_str(), " links to issue #", there.as_str(), " without enough project identity to determine whether the link is local; no edge was created");
            document.parse_error(message, file.clone(), 0);
            proof {
                crate::tomladapter::lemma_adds_extends(*document, before, lo.findings[0]);
                assert(out_finding(lo.findings[0]) == lo);
            }
        } else if !has_iid(local_iids, link.iid) || issue.project_id != link.project_id {
            let message = msg5("issue #", here.as_str(), " links to external or cross-project issue #", there.as_str(), "; no edge was created");
            document.external_ref(message, file.clone());
            proof {
                crate::tomladapter::lemma_adds_extends(*document, before, lo.findings[0]);
                assert(out_finding(lo.findings[0]) == lo);
            }
        } else {
            match assoc_get(&config.link_type_map, link.link_type.as_str()) {
                None => {
                    let message = msg5("issue #", here.as_str(), " has link_type '", link.link_type.as_str(), "' not declared in adapter.link_type_map");
                    document.parse_error(message, file.clone(), 0);
                    proof {
                        crate::tomladapter::lemma_adds_extends(*document, before, lo.findings[0]);
                        assert(out_finding(lo.findings[0]) == lo);
                    }
                },
                Some(m) => {
                    if m.reverse {
                        push_issue_edge(document, issue_id(link.iid), issue_id(issue.iid), m.edge_kind.clone(), file.clone());
                    } else {
                        push_issue_edge(document, issue_id(issue.iid), issue_id(link.iid), m.edge_kind.clone(), file.clone());
                    }
                },
            }
        }
        proof {
            lemma_extends_cat(start, before, *document, prev, lo);
        }
        k += 1;
    }
}

/// The node of an issue.
pub open spec fn gitlab_node(c: Config, project: Seq<char>, issue: GitLabIssue) -> NodeView {
    let kind = label_kind(texts(issue.labels@), c.label_map@, c.default_kind@);
    NodeView {
        id: issue_id_of(issue.iid as nat),
        kind,
        attrs: issue_attrs(issue, c, kind),
        provenance: ProvenanceView { file: issue_file_of(project, issue.iid), line: 0 },
    }
}

/// All an issue gives: its node, its description's edges, then its links'
/// edges, or the error fetching its links.
pub open spec fn issue_out(
    c: Config,
    project: Seq<char>,
    issue: GitLabIssue,
    links: Result<Vec<IssueLink>, String>,
    local: Seq<u64>,
) -> Out {
    let node = Out { nodes: seq![gitlab_node(c, project, issue)], edges: Seq::empty(), findings: Seq::empty() };
    let tail = match links {
        Ok(ls) => links_out(c, project, issue, ls@, ls@.len(), local),
        Err(e) => out_finding(issue_error(e@, issue_file_of(project, issue.iid))),
    };
    out_cat(out_cat(node, text_edges_out(c, project, issue)), tail)
}

/// The first `k` issues.
pub open spec fn issues_out(
    c: Config,
    project: Seq<char>,
    issues: Seq<GitLabIssue>,
    links: Seq<Result<Vec<IssueLink>, String>>,
    k: nat,
    local: Seq<u64>,
) -> Out
    decreases k,
{
    if k == 0 || k > issues.len() {
        out_none()
    } else {
        out_cat(issues_out(c, project, issues, links, (k - 1) as nat, local), issue_out(c, project, issues[k - 1], links[k - 1], local))
    }
}

/// Map issues and their fetched links into the document, in issue order.
/// `links` holds, for each issue, its links or why they could not be fetched.
pub fn map_issues(
    document: &mut Document,
    project: &str,
    config: &Config,
    issues: &Vec<GitLabIssue>,
    links: &Vec<Result<Vec<IssueLink>, String>>,
)
    requires
        links.len() == issues.len(),
        kinds_declared(*config),
    ensures
        ({
            let local = issues@.map_values(|i: GitLabIssue| i.iid);
            extends(*final(document), *old(document), issues_out(*config, project@, issues@, links@, issues@.len(), local))
        }),
{
    let ghost start = *document;
    let mut local: Vec<u64> = Vec::new();
    let mut i: usize = 0;
    while i < issues.len()
        invariant
            i <= issues.len(),
            local@ == issues@.take(i as int).map_values(|x: GitLabIssue| x.iid),
        decreases issues.len() - i,
    {
        local.push(issues[i].iid);
        assert(issues@.take(i + 1) =~= issues@.take(i as int).push(issues@[i as int]));
        assert(local@ =~= issues@.take(i + 1).map_values(|x: GitLabIssue| x.iid));
        i += 1;
    }
    assert(issues@.take(i as int) =~= issues@);
    proof {
        lemma_extends_none(*document);
    }
    let mut k: usize = 0;
    while k < issues.len()
        invariant
            k <= issues.len(),
            links.len() == issues.len(),
            kinds_declared(*config),
            local@ == issues@.map_values(|x: GitLabIssue| x.iid),
            extends(*document, start, issues_out(*config, project@, issues@, links@, k as nat, local@)),
        decreases issues.len() - k,
    {
        let issue = &issues[k];
        let ghost before = *document;
        let ghost prev = issues_out(*config, project@, issues@, links@, k as nat, local@);
        let kind = node_kind(issue, config);
        proof {
            lemma_label_kind_declared(texts(issue.labels@), *config);
        }
        let a = attrs(issue, config, kind.as_str());
        let node = Node { id: issue_id(issue.iid), kind, attrs: a, provenance: Provenance::new(issue_file(project, issue.iid), 0) };
        let ghost nv = node@;
        document.nodes.push(node);
        let ghost after_node = *document;
        let ghost node_out = Out { nodes: seq![nv], edges: Seq::empty(), findings: Seq::empty() };
        proof {
            assert(nv == gitlab_node(*config, project@, *issue));
            assert(adapter_nodes_view(document.nodes@) =~= adapter_nodes_view(before.nodes@) + seq![nv]);
            assert(adapter_edges_view(document.edges@) =~= adapter_edges_view(before.edges@) + Seq::<EdgeView>::empty());
            assert(findings_view(document.findings@) =~= findings_view(before.findings@) + Seq::<IssueView>::empty());
        }
        add_text_edges(document, project, issue, config);
        let ghost after_text = *document;
        proof {
            lemma_extends_cat(before, after_node, *document, node_out, text_edges_out(*config, project@, *issue));
        }
        match &links[k] {
            Ok(ls) => {
                add_link_edges(document, project, issue, ls, &local, config);
            },
            Err(e) => {
                document.parse_error(e.clone(), issue_file(project, issue.iid), 0);
                proof {
                    crate::tomladapter::lemma_adds_extends(*document, after_text, issue_error(e@, issue_file_of(project@, issue.iid)));
                }
            },
        }
        proof {
            let tail = match links@[k as int] {
                Ok(ls) => links_out(*config, project@, *issue, ls@, ls@.len(), local@),
                Err(e) => out_finding(issue_error(e@, issue_file_of(project@, issue.iid))),
            };
            lemma_extends_cat(before, after_text, *document, out_cat(node_out, text_edges_out(*config, project@, *issue)), tail);
            lemma_extends_cat(start, before, *document, prev, issue_out(*config, project@, *issue, links@[k as int], local@));
        }
        k += 1;
    }
}


/// The issues among the first `n` decoded responses, in order.
pub open spec fn decoded_issues(d: Seq<Result<GitLabIssue, String>>, n: nat) -> Seq<GitLabIssue>
    decreases n,
{
    if n == 0 || n > d.len() {
        Seq::empty()
    } else {
        match d[n - 1] {
            Ok(i) => decoded_issues(d, (n - 1) as nat).push(i),
            Err(_) => decoded_issues(d, (n - 1) as nat),
        }
    }
}

/// One PARSE_ERROR for each of the first `n` responses that did not decode,
/// in order, naming the response by its 1-based position.
pub open spec fn decode_findings(d: Seq<Result<GitLabIssue, String>>, project: Seq<char>, n: nat) -> Seq<IssueView>
    decreases n,
{
    if n == 0 || n > d.len() {
        Seq::empty()
    } else {
        match d[n - 1] {
            Ok(_) => decode_findings(d, project, (n - 1) as nat),
            Err(e) => decode_findings(d, project, (n - 1) as nat).push(
                finding(
                    "error"@,
                    "PARSE_ERROR"@,
                    "issue response "@ + nat_text(n) + ": "@ + e@,
                    "gitlab:"@ + project,
                    0,
                    None,
                ),
            ),
        }
    }
}

/// Keep the issue responses that decoded, reporting each one that did not as
/// a PARSE_ERROR, so one malformed issue never hides the others.
pub fn keep_decoded(document: &mut Document, project: &str, decoded: Vec<Result<GitLabIssue, String>>) -> (r: Vec<GitLabIssue>)
    requires
        decoded.len() < usize::MAX,
    ensures
        r@ == decoded_issues(decoded@, decoded@.len()),
        final(document).interface_version == old(document).interface_version,
        final(document).nodes == old(document).nodes,
        final(document).edges == old(document).edges,
        final(document).pathways == old(document).pathways,
        findings_view(final(document).findings@) == findings_view(old(document).findings@) + decode_findings(
            decoded@,
            project@,
            decoded@.len(),
        ),
{
    let ghost all = decoded@;
    let ghost f0 = findings_view(document.findings@);
    let mut kept: Vec<GitLabIssue> = Vec::new();
    let mut rest = decoded;
    let n = rest.len();
    let mut k: usize = 0;
    assert(f0 + decode_findings(all, project@, 0) =~= f0);
    while k < n
        invariant
            k <= n,
            n == all.len(),
            n < usize::MAX,
            rest@ == all.skip(k as int),
            kept@ == decoded_issues(all, k as nat),
            document.interface_version == old(document).interface_version,
            document.nodes == old(document).nodes,
            document.edges == old(document).edges,
            document.pathways == old(document).pathways,
            f0 == findings_view(old(document).findings@),
            findings_view(document.findings@) == f0 + decode_findings(all, project@, k as nat),
        decreases n - k,
    {
        let item = rest.remove(0);
        assert(item == all[k as int]);
        assert(rest@ =~= all.skip(k + 1));
        match item {
            Ok(issue) => {
                kept.push(issue);
            },
            Err(e) => {
                let position = usize_text(k + 1);
                let message = msg4("issue response ", position.as_str(), ": ", e.as_str());
                let file = msg2("gitlab:", project);
                let ghost before = findings_view(document.findings@);
                document.parse_error(message, file, 0);
                assert(findings_view(document.findings@) =~= f0 + decode_findings(all, project@, (k + 1) as nat));
            },
        }
        k += 1;
    }
    kept
}

} // verus!
