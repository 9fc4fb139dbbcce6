//! An entomologist register: the issues ent keeps on the `entomologist-data`
//! branch of a git repository, one directory per issue.
//!
//! Git itself is asked from outside; what is here sorts the branch's tree
//! entries into what must be fetched and what the paths already say, frames
//! the blobs of one `git cat-file --batch` answer, and turns both into nodes
//! and edges.

use vstd::prelude::*;

use crate::adapter::{adapter_edges_view, adapter_nodes_view, finding, findings_view, Document, Edge, EdgeView, IssueView, Node, NodeView, Provenance, ProvenanceView};
use crate::json::{lemma_items, lemma_members, members_view, Json, JsonValue};
use crate::text::{lemma_text_lt_total, sort_texts, text_lt, texts_sorted, trim, trim_str};
use crate::assoc::{assoc, keys_sorted, sorted_index, sorted_insert, sorted_push};
use crate::pattern::{regex_compiles, regex_finds, regex_first_group, regex_group_one, regex_search};
use crate::json::{hex, hex_digit};
use crate::seqs::{first_index, lemma_first_index};
use crate::text::{msg2, msg3, msg4, msg6, nat_text, split_char, split_on, str_eq, texts, usize_text};
use vstd::utf8::{decode_utf8, valid_utf8};

verus! {

/// The branch ent keeps its register on.
pub const BRANCH: &'static str = "entomologist-data";

/// A top-level issue directory; its group is the issue's ID.
pub const ISSUE_DIR: &'static str = "^([0-9a-f]{32})/";

/// The files whose contents become attrs.
pub const FETCHED: &'static str = "^(?P<issue>[0-9a-f]{32})/(?P<field>description|author|state|assignee)$";

/// The files the register may hold whose paths say all that is read of them.
pub const UNFETCHED: &'static str = "^(README\\.md|[0-9a-f]{32}/(creation_time|done_time)|[0-9a-f]{32}/tags/[^/]+|[0-9a-f]{32}/dependencies/[0-9a-f]{32}|[0-9a-f]{32}/comments/[0-9a-f]{32}/(author|creation_time|description))$";

/// `entomologist-data:path`: where a finding about a branch file points.
pub open spec fn branch_file_of(path: Seq<char>) -> Seq<char> {
    BRANCH@ + ":"@ + path
}

pub fn branch_file(path: &str) -> (r: String)
    ensures
        r@ == branch_file_of(path@),
{
    msg3(BRANCH, ":", path)
}

/// One entry of the branch's recursive tree listing.
pub struct TreeEntry {
    pub path: String,
    pub oid: String,
    pub object_type: String,
}

pub struct TreeEntryView {
    pub path: Seq<char>,
    pub oid: Seq<char>,
    pub object_type: Seq<char>,
}

impl View for TreeEntry {
    type V = TreeEntryView;

    open spec fn view(&self) -> TreeEntryView {
        TreeEntryView { path: self.path@, oid: self.oid@, object_type: self.object_type@ }
    }
}

pub open spec fn tree_view(s: Seq<TreeEntry>) -> Seq<TreeEntryView> {
    s.map_values(|e: TreeEntry| e@)
}

/// What an issue's paths say of it: its tags and the issues it depends on.
pub struct IssueData {
    pub tags: Vec<String>,
    pub dependencies: Vec<String>,
}

impl View for IssueData {
    type V = (Seq<Seq<char>>, Seq<Seq<char>>);

    open spec fn view(&self) -> (Seq<Seq<char>>, Seq<Seq<char>>) {
        (texts(self.tags@), texts(self.dependencies@))
    }
}

/// A `PARSE_ERROR` about a branch file.
pub open spec fn branch_error(message: Seq<char>, path: Seq<char>) -> IssueView {
    finding("error"@, "PARSE_ERROR"@, message, branch_file_of(path), 0, None)
}

/// The document holds what it held, with `fs` added to its findings.
pub open spec fn adds_findings(after: Document, before: Document, fs: Seq<IssueView>) -> bool {
    &&& after.interface_version == before.interface_version
    &&& after.nodes == before.nodes
    &&& after.edges == before.edges
    &&& after.pathways == before.pathways
    &&& findings_view(after.findings@) == findings_view(before.findings@) + fs
}

/// The issue directory a path lies in, as the `ISSUE_DIR` pattern captures it.
pub open spec fn issue_of(path: Seq<char>) -> Option<Seq<char>> {
    if regex_compiles(ISSUE_DIR@) {
        regex_first_group(ISSUE_DIR@, path)
    } else {
        None
    }
}

/// Whether a constant pattern matches a path.
pub open spec fn shape(pattern: Seq<char>, path: Seq<char>) -> bool {
    regex_compiles(pattern) && regex_finds(pattern, path)
}

/// What sorting the tree entries has found so far.
pub struct Classified {
    /// Each issue seen, with its tags and dependencies in the order met.
    pub issues: Map<Seq<char>, (Seq<Seq<char>>, Seq<Seq<char>>)>,
    /// The files to fetch, with their object IDs, in the order met.
    pub wanted: Seq<(Seq<char>, Seq<char>)>,
    pub findings: Seq<IssueView>,
}

/// The issue's data so far, empty for one not yet seen.
pub open spec fn data_of(
    m: Map<Seq<char>, (Seq<Seq<char>>, Seq<Seq<char>>)>,
    id: Seq<char>,
) -> (Seq<Seq<char>>, Seq<Seq<char>>) {
    if m.contains_key(id) {
        m[id]
    } else {
        (Seq::empty(), Seq::empty())
    }
}

/// One entry sorted: its issue is noted; a non-blob is refused; a file to
/// fetch is queued; a tag or dependency path is recorded on its issue; any
/// other file shape is refused.
pub open spec fn classify_step(c: Classified, e: TreeEntryView) -> Classified {
    let issues = match issue_of(e.path) {
        Some(id) => c.issues.insert(id, data_of(c.issues, id)),
        None => c.issues,
    };
    if e.object_type != "blob"@ {
        Classified {
            issues,
            wanted: c.wanted,
            findings: c.findings.push(branch_error(e.path + ": unexpected "@ + e.object_type + " entry"@, e.path)),
        }
    } else if shape(FETCHED@, e.path) {
        Classified { issues, wanted: c.wanted.push((e.path, e.oid)), findings: c.findings }
    } else if shape(UNFETCHED@, e.path) {
        let parts = split_on(e.path, '/');
        let d = data_of(issues, parts[0]);
        let issues = if parts.len() == 3 && parts[1] == "tags"@ {
            issues.insert(parts[0], (d.0.push(parts[2]), d.1))
        } else if parts.len() == 3 && parts[1] == "dependencies"@ {
            issues.insert(parts[0], (d.0, d.1.push(parts[2])))
        } else {
            issues
        };
        Classified { issues, wanted: c.wanted, findings: c.findings }
    } else {
        Classified {
            issues,
            wanted: c.wanted,
            findings: c.findings.push(branch_error(e.path + ": no reader for this file shape"@, e.path)),
        }
    }
}

/// The first `k` entries sorted.
pub open spec fn classify_walk(es: Seq<TreeEntryView>, k: nat) -> Classified
    decreases k,
{
    if k == 0 || k > es.len() {
        Classified { issues: Map::empty(), wanted: Seq::empty(), findings: Seq::empty() }
    } else {
        classify_step(classify_walk(es, (k - 1) as nat), es[k - 1])
    }
}

/// The lists under one key, empty where the key holds none.
pub open spec fn listed(s: Seq<(String, Vec<String>)>, k: Seq<char>) -> Seq<Seq<char>> {
    match assoc(s, k) {
        Some(v) => texts(v@),
        None => Seq::empty(),
    }
}

/// Three sorted lists hold the issues of a map: the IDs, and the tags and the
/// dependencies of each.
pub open spec fn holds_issues(
    ids: Seq<(String, ())>,
    tags: Seq<(String, Vec<String>)>,
    deps: Seq<(String, Vec<String>)>,
    m: Map<Seq<char>, (Seq<Seq<char>>, Seq<Seq<char>>)>,
) -> bool {
    &&& keys_sorted(ids)
    &&& keys_sorted(tags)
    &&& keys_sorted(deps)
    &&& forall|k: Seq<char>| #[trigger] assoc(ids, k) is Some <==> m.contains_key(k)
    &&& forall|k: Seq<char>| m.contains_key(k) ==> #[trigger] m[k] == (listed(tags, k), listed(deps, k))
    &&& forall|k: Seq<char>| !m.contains_key(k) ==> #[trigger] listed(tags, k) == Seq::<Seq<char>>::empty()
        && listed(deps, k) == Seq::<Seq<char>>::empty()
}

/// An issue map as a sorted list: each issue once, in ID order.
pub open spec fn lists_issues(r: Seq<(String, IssueData)>, m: Map<Seq<char>, (Seq<Seq<char>>, Seq<Seq<char>>)>) -> bool {
    &&& keys_sorted(r)
    &&& forall|k: Seq<char>| #[trigger] assoc(r, k) is Some <==> m.contains_key(k)
    &&& forall|k: Seq<char>| #[trigger] assoc(r, k) is Some ==> m[k] == assoc(r, k)->0@
}

/// Note the issue an entry lies in.
fn note_issue(ids: &mut Vec<(String, ())>, path: &str)
    requires
        keys_sorted(old(ids)@),
    ensures
        keys_sorted(final(ids)@),
        forall|k: Seq<char>| #[trigger] assoc(final(ids)@, k) is Some <==> (assoc(old(ids)@, k) is Some || issue_of(path@) == Some(k)),
{
    match regex_group_one(ISSUE_DIR, path) {
        Some(Some(id)) => {
            sorted_insert(ids, id, ());
        },
        _ => {},
    }
}

/// Record the pieces of a tag or dependency path on their issue.
fn note_piece(
    ids: &mut Vec<(String, ())>,
    tags: &mut Vec<(String, Vec<String>)>,
    deps: &mut Vec<(String, Vec<String>)>,
    path: &str,
    m: Ghost<Map<Seq<char>, (Seq<Seq<char>>, Seq<Seq<char>>)>>,
)
    requires
        holds_issues(old(ids)@, old(tags)@, old(deps)@, m@),
    ensures
        ({
            let parts = split_on(path@, '/');
            let d = data_of(m@, parts[0]);
            let n = if parts.len() == 3 && parts[1] == "tags"@ {
                m@.insert(parts[0], (d.0.push(parts[2]), d.1))
            } else if parts.len() == 3 && parts[1] == "dependencies"@ {
                m@.insert(parts[0], (d.0, d.1.push(parts[2])))
            } else {
                m@
            };
            holds_issues(final(ids)@, final(tags)@, final(deps)@, n)
        }),
{
    let parts = split_char(path, '/');
    let ghost pv = texts(parts@);
    proof {
        crate::text::lemma_split_on_len(path@, '/');
    }
    if parts.len() == 3 && (str_eq(parts[1].as_str(), "tags") || str_eq(parts[1].as_str(), "dependencies")) {
        let is_tag = str_eq(parts[1].as_str(), "tags");
        assert(pv[0] == parts@[0]@ && pv[1] == parts@[1]@ && pv[2] == parts@[2]@);
        let id = parts[0].clone();
        let piece = parts[2].clone();
        let ghost d = data_of(m@, pv[0]);
        let ghost n = if is_tag {
            m@.insert(pv[0], (d.0.push(pv[2]), d.1))
        } else {
            m@.insert(pv[0], (d.0, d.1.push(pv[2])))
        };
        let ghost ids0 = ids@;
        let ghost tags0 = tags@;
        let ghost deps0 = deps@;
        sorted_insert(ids, id.clone(), ());
        if is_tag {
            sorted_push(tags, id, piece);
        } else {
            sorted_push(deps, id, piece);
        }
        proof {
            assert forall|k: Seq<char>| #[trigger] assoc(ids@, k) is Some <==> n.contains_key(k) by {
                if k != pv[0] {
                    assert(assoc(ids@, k) == assoc(ids0, k));
                }
            }
            assert forall|k: Seq<char>| n.contains_key(k) implies #[trigger] n[k] == (listed(tags@, k), listed(deps@, k)) by {
                if k != pv[0] {
                    assert(assoc(tags@, k) == assoc(tags0, k));
                    assert(assoc(deps@, k) == assoc(deps0, k));
                } else {
                    if is_tag {
                        assert(assoc(deps@, k) == assoc(deps0, k));
                        assert(listed(tags@, k) =~= listed(tags0, k).push(pv[2]));
                    } else {
                        assert(assoc(tags@, k) == assoc(tags0, k));
                        assert(listed(deps@, k) =~= listed(deps0, k).push(pv[2]));
                    }
                }
            }
            assert forall|k: Seq<char>| !n.contains_key(k) implies #[trigger] listed(tags@, k) == Seq::<Seq<char>>::empty()
                && listed(deps@, k) == Seq::<Seq<char>>::empty() by {
                assert(k != pv[0]);
                assert(!m@.contains_key(k));
                assert(listed(tags0, k) == Seq::<Seq<char>>::empty());
                assert(assoc(tags@, k) == assoc(tags0, k));
                assert(assoc(deps@, k) == assoc(deps0, k));
            }
        }
    }
}

/// Sort the branch's tree entries: the issues they lie in, with the tags and
/// dependencies their paths record, and the files to fetch, in entry order.
/// A non-blob entry, and a file of no known shape, become `PARSE_ERROR`
/// findings.
pub fn classify_entries(document: &mut Document, entries: &Vec<TreeEntry>) -> (r: (
    Vec<(String, IssueData)>,
    Vec<(String, String)>,
))
    ensures
        ({
            let c = classify_walk(tree_view(entries@), entries@.len());
            &&& lists_issues(r.0@, c.issues)
            &&& r.1@.map_values(|w: (String, String)| (w.0@, w.1@)) == c.wanted
            &&& adds_findings(*final(document), *old(document), c.findings)
        }),
{
    let ghost ev = tree_view(entries@);
    let ghost start = *document;
    let mut ids: Vec<(String, ())> = Vec::new();
    let mut tags: Vec<(String, Vec<String>)> = Vec::new();
    let mut deps: Vec<(String, Vec<String>)> = Vec::new();
    let mut wanted: Vec<(String, String)> = Vec::new();
    let mut k: usize = 0;
    while k < entries.len()
        invariant
            k <= entries.len(),
            ev == tree_view(entries@),
            ({
                let c = classify_walk(ev, k as nat);
                &&& holds_issues(ids@, tags@, deps@, c.issues)
                &&& wanted@.map_values(|w: (String, String)| (w.0@, w.1@)) == c.wanted
                &&& adds_findings(*document, start, c.findings)
            }),
        decreases entries.len() - k,
    {
        let e = &entries[k];
        assert(ev[k as int] == e@);
        let ghost c = classify_walk(ev, k as nat);
        let ghost c1 = classify_step(c, e@);
        let ghost m1 = match issue_of(e@.path) {
            Some(id) => c.issues.insert(id, data_of(c.issues, id)),
            None => c.issues,
        };
        let ghost ids0 = ids@;
        note_issue(&mut ids, e.path.as_str());
        proof {
            assert forall|q: Seq<char>| #[trigger] assoc(ids@, q) is Some <==> m1.contains_key(q) by {}
            assert forall|q: Seq<char>| m1.contains_key(q) implies #[trigger] m1[q] == (listed(tags@, q), listed(deps@, q)) by {
                if !c.issues.contains_key(q) {
                    assert(listed(tags@, q) == Seq::<Seq<char>>::empty());
                }
            }
            assert forall|q: Seq<char>| !m1.contains_key(q) implies #[trigger] listed(tags@, q) == Seq::<Seq<char>>::empty()
                && listed(deps@, q) == Seq::<Seq<char>>::empty() by {}
            assert(holds_issues(ids@, tags@, deps@, m1));
        }
        if !str_eq(e.object_type.as_str(), "blob") {
            let m = msg3(e.path.as_str(), ": unexpected ", e.object_type.as_str());
            let message = msg2(m.as_str(), " entry");
            let ghost before = *document;
            document.parse_error(message, branch_file(e.path.as_str()), 0);
            assert(findings_view(document.findings@) =~= findings_view(start.findings@) + c1.findings);
        } else {
            match regex_search(FETCHED, e.path.as_str()) {
                Some(true) => {
                    let ghost w0 = wanted@;
                    wanted.push((e.path.clone(), e.oid.clone()));
                    assert(wanted@.map_values(|w: (String, String)| (w.0@, w.1@)) =~= w0.map_values(
                        |w: (String, String)| (w.0@, w.1@),
                    ).push((e@.path, e@.oid)));
                },
                _ => {
                    match regex_search(UNFETCHED, e.path.as_str()) {
                        Some(true) => {
                            note_piece(&mut ids, &mut tags, &mut deps, e.path.as_str(), Ghost(m1));
                        },
                        _ => {
                            let message = msg2(e.path.as_str(), ": no reader for this file shape");
                            document.parse_error(message, branch_file(e.path.as_str()), 0);
                            assert(findings_view(document.findings@) =~= findings_view(start.findings@) + c1.findings);
                        },
                    }
                },
            }
        }
        k += 1;
    }
    let ghost c = classify_walk(ev, entries@.len());
    let mut issues: Vec<(String, IssueData)> = Vec::new();
    let mut i: usize = 0;
    while i < ids.len()
        invariant
            i <= ids.len(),
            holds_issues(ids@, tags@, deps@, c.issues),
            issues@.len() == i,
            forall|j: int| 0 <= j < i ==> #[trigger] issues@[j].0@ == ids@[j].0@,
            forall|j: int| 0 <= j < i ==> #[trigger] issues@[j].1@ == (listed(tags@, ids@[j].0@), listed(deps@, ids@[j].0@)),
        decreases ids.len() - i,
    {
        let id = ids[i].0.clone();
        let t = match sorted_index(&tags, id.as_str()) {
            Some(x) => tags[x].1.clone(),
            None => Vec::new(),
        };
        let d = match sorted_index(&deps, id.as_str()) {
            Some(x) => deps[x].1.clone(),
            None => Vec::new(),
        };
        assert(texts(t@) == listed(tags@, id@));
        assert(texts(d@) == listed(deps@, id@));
        issues.push((id, IssueData { tags: t, dependencies: d }));
        i += 1;
    }
    proof {
        crate::assoc::lemma_sorted_distinct(ids@);
        assert forall|a: int, b: int| 0 <= a < b < issues@.len() implies crate::text::text_lt(
            #[trigger] issues@[a].0@,
            #[trigger] issues@[b].0@,
        ) by {
            assert(crate::text::text_lt(ids@[a].0@, ids@[b].0@));
        }
        assert forall|q: Seq<char>| #[trigger] assoc(issues@, q) is Some <==> c.issues.contains_key(q) by {
            crate::assoc::lemma_assoc_same_keys(issues@, ids@, q);
        }
        assert forall|q: Seq<char>| #[trigger] assoc(issues@, q) is Some implies c.issues[q] == assoc(issues@, q)->0@ by {
            crate::assoc::lemma_assoc_same_keys(issues@, ids@, q);
            let j = choose|j: int|
                0 <= j < issues@.len() && issues@[j].0@ == q && assoc(issues@, q) == Some(#[trigger] issues@[j].1)
                    && assoc(ids@, q) == Some(ids@[j].1);
            assert(issues@[j].1@ == (listed(tags@, ids@[j].0@), listed(deps@, ids@[j].0@)));
        }
    }
    (issues, wanted)
}

// ---------------------------------------------------------------- blobs

/// The index up to which `std::str::from_utf8` found valid UTF-8, as its
/// error reports it: the longest valid prefix short of the whole.
pub open spec fn utf8_valid_prefix(bytes: Seq<u8>) -> nat {
    choose|at: nat|
        at < bytes.len() && valid_utf8(bytes.take(at as int)) && forall|j: int|
            at < j <= bytes.len() ==> !valid_utf8(#[trigger] bytes.take(j))
}

/// What `Utf8Error::error_len` reports for bytes that are not UTF-8: the
/// length of the invalid sequence, or nothing where the input ended inside one.
pub uninterp spec fn utf8_error_len(bytes: Seq<u8>) -> Option<nat>;

/// The display text of the error `std::str::from_utf8` reports for bytes
/// that are not UTF-8.
pub uninterp spec fn utf8_error_message(bytes: Seq<u8>) -> Seq<char>;

/// Two longest valid prefixes are one.
proof fn lemma_valid_prefix_unique(bytes: Seq<u8>, a: nat)
    requires
        a < bytes.len(),
        valid_utf8(bytes.take(a as int)),
        forall|j: int| a < j <= bytes.len() ==> !valid_utf8(#[trigger] bytes.take(j)),
    ensures
        utf8_valid_prefix(bytes) == a,
{
    let b = utf8_valid_prefix(bytes);
    assert(a < bytes.len() && valid_utf8(bytes.take(a as int)) && forall|j: int|
        a < j <= bytes.len() ==> !valid_utf8(#[trigger] bytes.take(j)));
    if b < a {
        assert(!valid_utf8(bytes.take(a as int)));
    } else if b > a {
        assert(!valid_utf8(bytes.take(b as int)));
    }
}

/// `std::str::from_utf8`. Where the bytes are UTF-8 it gives the text they
/// encode; where not, its error's `valid_up_to` (the longest valid prefix) and
/// `error_len`, and its display text. The first two are stated by vstd's
/// UTF-8 model; the last two are only named.
#[verifier::external_body]
fn utf8_text(bytes: &[u8]) -> (r: Result<String, (usize, Option<usize>, String)>)
    ensures
        r is Ok <==> valid_utf8(bytes@),
        r matches Ok(t) ==> t@ == decode_utf8(bytes@),
        r matches Err(e) ==> e.0 < bytes@.len() && valid_utf8(bytes@.take(e.0 as int)) && (forall|j: int|
            e.0 < j <= bytes@.len() ==> !valid_utf8(#[trigger] bytes@.take(j))) && utf8_error_len(bytes@) == (match e.1 {
            Some(n) => Some(n as nat),
            None => None::<nat>,
        }) && e.2@ == utf8_error_message(bytes@),
{
    match std::str::from_utf8(bytes) {
        Ok(text) => Ok(text.to_owned()),
        Err(error) => Err((error.valid_up_to(), error.error_len(), error.to_string())),
    }
}

/// Two lower-case hex digits.
pub open spec fn hex2(b: u8) -> Seq<char> {
    seq![hex_digit(b as int / 16), hex_digit(b as int % 16)]
}

/// The message Python's UTF-8 decoder gives for bytes it cannot decode, in
/// the form the register's readers report it.
pub open spec fn python_utf8_message(bytes: Seq<u8>) -> Seq<char> {
    let at = utf8_valid_prefix(bytes);
    "'utf-8' codec can't decode byte 0x"@ + hex2(bytes[at as int]) + " in position "@ + nat_text(at) + ": "@ + if utf8_error_len(
        bytes,
    ) == Some(1nat) {
        "invalid start byte"@
    } else {
        "invalid continuation byte"@
    }
}

/// The Python-style message for `bytes`, given where `from_utf8` stopped.
fn python_utf8_error(at: usize, error_len: Option<usize>, bytes: &[u8]) -> (r: String)
    requires
        at < bytes@.len(),
        valid_utf8(bytes@.take(at as int)),
        forall|j: int| at < j <= bytes@.len() ==> !valid_utf8(#[trigger] bytes@.take(j)),
        utf8_error_len(bytes@) == (match error_len {
            Some(n) => Some(n as nat),
            None => None::<nat>,
        }),
    ensures
        r@ == python_utf8_message(bytes@),
{
    proof {
        lemma_valid_prefix_unique(bytes@, at as nat);
    }
    let b = bytes[at];
    let mut h = String::new();
    crate::text::push_char(&mut h, hex((b / 16) as u32));
    crate::text::push_char(&mut h, hex((b % 16) as u32));
    assert(h@ =~= hex2(b));
    let reason = match error_len {
        Some(1) => "invalid start byte",
        _ => "invalid continuation byte",
    };
    let n = usize_text(at);
    msg6("'utf-8' codec can't decode byte 0x", h.as_str(), " in position ", n.as_str(), ": ", reason)
}

/// The pieces of `t` between occurrences of `c`.
pub open spec fn split_bytes(t: Seq<u8>, c: u8) -> Seq<Seq<u8>>
    decreases t.len(),
{
    if t.len() == 0 {
        seq![Seq::<u8>::empty()]
    } else {
        let rest = split_bytes(t.drop_last(), c);
        if t.last() == c {
            rest.push(Seq::<u8>::empty())
        } else {
            rest.update(rest.len() - 1, rest.last().push(t.last()))
        }
    }
}

proof fn lemma_split_bytes_len(t: Seq<u8>, c: u8)
    ensures
        split_bytes(t, c).len() >= 1,
    decreases t.len(),
{
    if t.len() > 0 {
        lemma_split_bytes_len(t.drop_last(), c);
    }
}

/// The space-separated fields of `v[from..to]`.
fn fields_of(v: &Vec<u8>, from: usize, to: usize) -> (r: Vec<Vec<u8>>)
    requires
        from <= to <= v.len(),
    ensures
        r@.map_values(|f: Vec<u8>| f@) == split_bytes(v@.subrange(from as int, to as int), 32u8),
{
    let ghost t = v@.subrange(from as int, to as int);
    let mut parts: Vec<Vec<u8>> = Vec::new();
    let mut current: Vec<u8> = Vec::new();
    let mut i: usize = from;
    while i < to
        invariant
            from <= i <= to <= v.len(),
            t == v@.subrange(from as int, to as int),
            parts@.map_values(|f: Vec<u8>| f@).push(current@) == split_bytes(t.take(i - from), 32u8),
        decreases to - i,
    {
        proof {
            assert(t.take(i - from + 1).drop_last() =~= t.take(i - from));
            lemma_split_bytes_len(t.take(i - from), 32u8);
            assert(t.take(i - from + 1).last() == v@[i as int]);
        }
        if v[i] == 32u8 {
            let done = current;
            let ghost before = parts@.map_values(|f: Vec<u8>| f@);
            parts.push(done);
            current = Vec::new();
            assert(parts@.map_values(|f: Vec<u8>| f@).push(current@) =~= split_bytes(t.take(i - from + 1), 32u8));
        } else {
            let ghost before = parts@.map_values(|f: Vec<u8>| f@);
            current.push(v[i]);
            assert(parts@.map_values(|f: Vec<u8>| f@).push(current@) =~= split_bytes(t.take(i - from + 1), 32u8));
        }
        i += 1;
    }
    parts.push(current);
    assert(t.take(to - from) =~= t);
    assert(parts@.map_values(|f: Vec<u8>| f@) =~= split_bytes(t, 32u8));
    parts
}

/// Whether every byte is an ASCII digit.
pub open spec fn all_digits(s: Seq<u8>) -> bool {
    forall|i: int| 0 <= i < s.len() ==> 48 <= #[trigger] s[i] <= 57
}

/// The number ASCII digits spell.
pub open spec fn digits_value(s: Seq<u8>) -> nat
    decreases s.len(),
{
    if s.len() == 0 {
        0
    } else {
        digits_value(s.drop_last()) * 10 + (s.last() - 48) as nat
    }
}

/// `str::parse::<usize>` on a field: an optional `+`, then at least one
/// digit, of a value that fits.
pub open spec fn size_field(f: Seq<u8>) -> Option<nat> {
    let body = if f.len() > 0 && f[0] == 43u8 {
        f.drop_first()
    } else {
        f
    };
    if body.len() > 0 && all_digits(body) && digits_value(body) <= usize::MAX {
        Some(digits_value(body))
    } else {
        None
    }
}

/// A longer run of digits spells no smaller number.
proof fn lemma_digits_grow(s: Seq<u8>, i: int, j: int)
    requires
        0 <= i <= j <= s.len(),
        all_digits(s),
    ensures
        digits_value(s.take(i)) <= digits_value(s.take(j)),
    decreases j - i,
{
    if i < j {
        lemma_digits_grow(s, i, j - 1);
        assert(s.take(j).drop_last() =~= s.take(j - 1));
    }
}

fn parse_size(f: &Vec<u8>) -> (r: Option<usize>)
    ensures
        r matches Some(n) ==> size_field(f@) == Some(n as nat),
        r is None ==> size_field(f@) is None,
{
    let start: usize = if f.len() > 0 && f[0] == 43u8 {
        1
    } else {
        0
    };
    let ghost body = if f@.len() > 0 && f@[0] == 43u8 {
        f@.drop_first()
    } else {
        f@
    };
    assert(body =~= f@.subrange(start as int, f@.len() as int));
    assert(size_field(f@) == (if body.len() > 0 && all_digits(body) && digits_value(body) <= usize::MAX {
        Some(digits_value(body))
    } else {
        None
    }));
    if start == f.len() {
        return None;
    }
    let mut i: usize = start;
    while i < f.len()
        invariant
            start <= i <= f.len(),
            body == f@.subrange(start as int, f@.len() as int),
            size_field(f@) == (if body.len() > 0 && all_digits(body) && digits_value(body) <= usize::MAX {
                Some(digits_value(body))
            } else {
                None
            }),
            forall|k: int| start <= k < i ==> 48 <= #[trigger] f@[k] <= 57,
        decreases f.len() - i,
    {
        if f[i] < 48 || f[i] > 57 {
            assert(body[i - start] == f@[i as int]);
            assert(!(48 <= body[i - start] <= 57));
            return None;
        }
        i += 1;
    }
    assert(all_digits(body)) by {
        assert forall|k: int| 0 <= k < body.len() implies 48 <= #[trigger] body[k] <= 57 by {
            assert(body[k] == f@[k + start]);
        }
    }
    let mut acc: usize = 0;
    let mut i: usize = start;
    while i < f.len()
        invariant
            start <= i <= f.len(),
            body == f@.subrange(start as int, f@.len() as int),
            size_field(f@) == (if body.len() > 0 && all_digits(body) && digits_value(body) <= usize::MAX {
                Some(digits_value(body))
            } else {
                None
            }),
            body.len() > 0,
            all_digits(body),
            acc == digits_value(body.take(i - start)),
        decreases f.len() - i,
    {
        proof {
            assert(body[i - start] == f@[i as int]);
            assert(48 <= body[i - start] <= 57);
            assert(body.take(i - start + 1).drop_last() =~= body.take(i - start));
            assert(body.take(i - start + 1).last() == f@[i as int]);
        }
        let d = (f[i] - 48) as usize;
        assert(digits_value(body.take(i - start + 1)) == acc * 10 + d);
        match acc.checked_mul(10) {
            Some(a) => match a.checked_add(d) {
                Some(b) => {
                    acc = b;
                },
                None => {
                    proof {
                        lemma_digits_grow(body, i - start + 1, body.len() as int);
                        assert(body.take(body.len() as int) =~= body);
                    }
                    return None;
                },
            },
            None => {
                proof {
                    lemma_digits_grow(body, i - start + 1, body.len() as int);
                    assert(body.take(body.len() as int) =~= body);
                }
                return None;
            },
        }
        i += 1;
    }
    assert(body.take(body.len() as int) =~= body);
    Some(acc)
}

/// `missing`, as git writes it for an object it does not have.
pub open spec fn missing_bytes() -> Seq<u8> {
    seq![109u8, 105u8, 115u8, 115u8, 105u8, 110u8, 103u8]
}

/// Where the next newline at or after `from` is.
pub open spec fn newline_at(out: Seq<u8>, from: int) -> Option<int> {
    match first_index(out.subrange(from, out.len() as int), |b: u8| b == 10u8) {
        Some(i) => Some(from + i),
        None => None,
    }
}

/// How far framing has got: where the next header starts, the texts read so
/// far, and what went wrong.
pub struct Framed {
    pub pos: int,
    pub texts: Map<Seq<char>, Seq<char>>,
    pub findings: Seq<IssueView>,
}

/// The answer for one requested file: a header line `oid type size` (or
/// `oid missing`), then `size` bytes and a newline. A blob that is UTF-8
/// becomes the file's text.
pub open spec fn frame_step(out: Seq<u8>, f: Framed, path: Seq<char>) -> Framed {
    let malformed = branch_error(path + ": malformed response from git cat-file"@, path);
    match newline_at(out, f.pos) {
        None => Framed { pos: f.pos, texts: f.texts, findings: f.findings.push(malformed) },
        Some(he) => {
            let fields = split_bytes(out.subrange(f.pos, he), 32u8);
            let p1 = he + 1;
            if fields.len() > 1 && fields[1] == missing_bytes() {
                Framed {
                    pos: p1,
                    texts: f.texts,
                    findings: f.findings.push(branch_error(path + ": object not in the repository"@, path)),
                }
            } else {
                match if fields.len() > 2 {
                    size_field(fields[2])
                } else {
                    None
                } {
                    None => Framed { pos: p1, texts: f.texts, findings: f.findings.push(malformed) },
                    Some(size) => if p1 + size > usize::MAX {
                        Framed { pos: p1, texts: f.texts, findings: f.findings.push(malformed) }
                    } else if p1 + size > out.len() {
                        Framed {
                            pos: out.len() as int,
                            texts: f.texts,
                            findings: f.findings.push(branch_error(path + ": truncated response from git cat-file"@, path)),
                        }
                    } else {
                        let blob = out.subrange(p1, p1 + size);
                        let p2 = if p1 + size + 1 < out.len() {
                            p1 + size + 1
                        } else {
                            out.len() as int
                        };
                        if valid_utf8(blob) {
                            Framed { pos: p2, texts: f.texts.insert(path, decode_utf8(blob)), findings: f.findings }
                        } else {
                            Framed {
                                pos: p2,
                                texts: f.texts,
                                findings: f.findings.push(
                                    branch_error(path + ": not valid UTF-8: "@ + python_utf8_message(blob), path),
                                ),
                            }
                        }
                    },
                }
            }
        },
    }
}

/// The answers for the first `k` requested files.
pub open spec fn frame_walk(out: Seq<u8>, wanted: Seq<(Seq<char>, Seq<char>)>, k: nat) -> Framed
    decreases k,
{
    if k == 0 || k > wanted.len() {
        Framed { pos: 0, texts: Map::empty(), findings: Seq::empty() }
    } else {
        frame_step(out, frame_walk(out, wanted, (k - 1) as nat), wanted[k - 1].0)
    }
}

/// A sorted list holds a map's texts.
pub open spec fn holds_texts(r: Seq<(String, String)>, m: Map<Seq<char>, Seq<char>>) -> bool {
    &&& keys_sorted(r)
    &&& forall|k: Seq<char>| #[trigger] assoc(r, k) is Some <==> m.contains_key(k)
    &&& forall|k: Seq<char>| #[trigger] assoc(r, k) is Some ==> m[k] == assoc(r, k)->0@
}

pub open spec fn wanted_view(w: Seq<(String, String)>) -> Seq<(Seq<char>, Seq<char>)> {
    w.map_values(|p: (String, String)| (p.0@, p.1@))
}

/// The first newline at or after `from`.
fn find_newline(out: &Vec<u8>, from: usize) -> (r: Option<usize>)
    requires
        from <= out.len(),
    ensures
        r matches Some(i) ==> from <= i < out.len(),
        match newline_at(out@, from as int) {
            Some(i) => from <= i < out.len() && r == Some(i as usize),
            None => r is None,
        },
{
    let ghost rest = out@.subrange(from as int, out@.len() as int);
    let mut i: usize = from;
    while i < out.len()
        invariant
            from <= i <= out.len(),
            rest == out@.subrange(from as int, out@.len() as int),
            forall|k: int| from <= k < i ==> #[trigger] out@[k] != 10u8,
        decreases out.len() - i,
    {
        if out[i] == 10u8 {
            proof {
                assert forall|k: int| 0 <= k < i - from implies !((|b: u8| b == 10u8)(#[trigger] rest[k])) by {
                    assert(rest[k] == out@[k + from]);
                }
                assert(rest[i - from] == out@[i as int]);
                crate::seqs::lemma_first_index_at(rest, |b: u8| b == 10u8, i - from);
            }
            return Some(i);
        }
        i += 1;
    }
    proof {
        assert forall|k: int| 0 <= k < rest.len() implies !((|b: u8| b == 10u8)(#[trigger] rest[k])) by {
            assert(rest[k] == out@[k + from]);
        }
        crate::seqs::lemma_first_index_at(rest, |b: u8| b == 10u8, rest.len() as int);
    }
    None
}

/// Frame a `git cat-file --batch` answer to the requested files, in order:
/// the texts of those that came back as UTF-8, keyed by path, and a
/// `PARSE_ERROR` for each that did not. Where git could not be asked at all
/// (`output` is the error), each requested file gets that error; where
/// nothing was requested, nothing happens.
pub fn parse_batch(document: &mut Document, wanted: &Vec<(String, String)>, output: &Result<Vec<u8>, String>) -> (r: Vec<
    (String, String),
>)
    ensures
        wanted@.len() == 0 ==> r@.len() == 0 && *final(document) == *old(document),
        wanted@.len() > 0 ==> match output {
            Err(e) => r@.len() == 0 && adds_findings(
                *final(document),
                *old(document),
                wanted_view(wanted@).map_values(
                    |w: (Seq<char>, Seq<char>)| branch_error(w.0 + ": could not read object: "@ + e@, w.0),
                ),
            ),
            Ok(out) => {
                let f = frame_walk(out@, wanted_view(wanted@), wanted@.len());
                holds_texts(r@, f.texts) && adds_findings(*final(document), *old(document), f.findings)
            },
        },
{
    let ghost start = *document;
    let ghost wv = wanted_view(wanted@);
    let mut texts_out: Vec<(String, String)> = Vec::new();
    if wanted.len() == 0 {
        return texts_out;
    }
    match output {
        Err(e) => {
            let mut k: usize = 0;
            while k < wanted.len()
                invariant
                    k <= wanted.len(),
                    wv == wanted_view(wanted@),
                    adds_findings(
                        *document,
                        start,
                        wv.take(k as int).map_values(
                            |w: (Seq<char>, Seq<char>)| branch_error(w.0 + ": could not read object: "@ + e@, w.0),
                        ),
                    ),
                decreases wanted.len() - k,
            {
                let path = &wanted[k].0;
                let message = msg3(path.as_str(), ": could not read object: ", e.as_str());
                document.parse_error(message, branch_file(path.as_str()), 0);
                proof {
                    assert(wv[k as int].0 == path@);
                    assert(wv.take(k + 1) =~= wv.take(k as int).push(wv[k as int]));
                    assert(findings_view(document.findings@) =~= findings_view(start.findings@) + wv.take(k + 1).map_values(
                        |w: (Seq<char>, Seq<char>)| branch_error(w.0 + ": could not read object: "@ + e@, w.0),
                    ));
                }
                k += 1;
            }
            assert(wv.take(k as int) =~= wv);
            texts_out
        },
        Ok(out) => {
            let mut pos: usize = 0;
            let mut k: usize = 0;
            while k < wanted.len()
                invariant
                    k <= wanted.len(),
                    wv == wanted_view(wanted@),
                    pos <= out.len(),
                    ({
                        let f = frame_walk(out@, wv, k as nat);
                        &&& f.pos == pos
                        &&& holds_texts(texts_out@, f.texts)
                        &&& adds_findings(*document, start, f.findings)
                    }),
                decreases wanted.len() - k,
            {
                let path = &wanted[k].0;
                assert(wv[k as int].0 == path@);
                let ghost f = frame_walk(out@, wv, k as nat);
                let ghost before = *document;
                assert(frame_walk(out@, wv, (k + 1) as nat) == frame_step(out@, f, path@));
                match find_newline(out, pos) {
                    None => {
                        let message = msg2(path.as_str(), ": malformed response from git cat-file");
                        document.parse_error(message, branch_file(path.as_str()), 0);
                        assert(findings_view(document.findings@) =~= findings_view(start.findings@) + frame_walk(out@, wv, (k + 1) as nat).findings);
                    },
                    Some(he) => {
                        let fields = fields_of(out, pos, he);
                        let ghost fv = fields@.map_values(|x: Vec<u8>| x@);
                        assert(fv == split_bytes(out@.subrange(pos as int, he as int), 32u8));
                        assert(newline_at(out@, pos as int) == Some(he as int));
                        assert(fv.len() == fields.len());
                        let p1 = he + 1;
                        let is_missing = fields.len() > 1 && fields[1].len() == 7 && fields[1][0] == 109u8
                            && fields[1][1] == 105u8 && fields[1][2] == 115u8 && fields[1][3] == 115u8
                            && fields[1][4] == 105u8 && fields[1][5] == 110u8 && fields[1][6] == 103u8;
                        proof {
                            if fields.len() > 1 {
                                assert(fv[1] == fields@[1]@);
                                if is_missing {
                                    assert(fv[1] =~= missing_bytes());
                                } else if fv[1] == missing_bytes() {
                                    assert(fields@[1]@.len() == 7);
                                }
                            }
                        }
                        if is_missing {
                            let message = msg2(path.as_str(), ": object not in the repository");
                            document.parse_error(message, branch_file(path.as_str()), 0);
                            assert(findings_view(document.findings@) =~= findings_view(start.findings@) + frame_walk(out@, wv, (k + 1) as nat).findings);
                            pos = p1;
                        } else {
                            let size = if fields.len() > 2 {
                                assert(fv[2] == fields@[2]@);
                                parse_size(&fields[2])
                            } else {
                                None
                            };
                            match size {
                                None => {
                                    let message = msg2(path.as_str(), ": malformed response from git cat-file");
                                    document.parse_error(message, branch_file(path.as_str()), 0);
                                    assert(findings_view(document.findings@) =~= findings_view(start.findings@) + frame_walk(out@, wv, (k + 1) as nat).findings);
                                    pos = p1;
                                },
                                Some(n) => match p1.checked_add(n) {
                                    None => {
                                        let message = msg2(path.as_str(), ": malformed response from git cat-file");
                                        document.parse_error(message, branch_file(path.as_str()), 0);
                                        assert(findings_view(document.findings@) =~= findings_view(start.findings@) + frame_walk(out@, wv, (k + 1) as nat).findings);
                                        pos = p1;
                                    },
                                    Some(be) => {
                                        if be > out.len() {
                                            let message = msg2(path.as_str(), ": truncated response from git cat-file");
                                            document.parse_error(message, branch_file(path.as_str()), 0);
                                            assert(findings_view(document.findings@) =~= findings_view(start.findings@) + frame_walk(out@, wv, (k + 1) as nat).findings);
                                            pos = out.len();
                                        } else {
                                            let blob = vstd::slice::slice_subrange(out.as_slice(), p1, be);
                                            let p2 = if be < out.len() - 1 {
                                                be + 1
                                            } else {
                                                out.len()
                                            };
                                            match utf8_text(blob) {
                                                Ok(t) => {
                                                    sorted_insert(&mut texts_out, path.clone(), t);
                                                    assert(frame_walk(out@, wv, (k + 1) as nat).texts == f.texts.insert(path@, decode_utf8(blob@)));
                                                    assert forall|q: Seq<char>| #[trigger] assoc(texts_out@, q) is Some <==> frame_walk(out@, wv, (k + 1) as nat).texts.contains_key(q) by {}
                                                    assert forall|q: Seq<char>| #[trigger] assoc(texts_out@, q) is Some implies frame_walk(out@, wv, (k + 1) as nat).texts[q] == assoc(texts_out@, q)->0@ by {}
                                                },
                                                Err((at, len, _)) => {
                                                    let why = python_utf8_error(at, len, blob);
                                                    let message = msg3(path.as_str(), ": not valid UTF-8: ", why.as_str());
                                                    document.parse_error(message, branch_file(path.as_str()), 0);
                                                    assert(findings_view(document.findings@) =~= findings_view(start.findings@) + frame_walk(out@, wv, (k + 1) as nat).findings);
                                                },
                                            }
                                            pos = p2;
                                        }
                                    },
                                },
                            }
                        }
                    },
                }
                k += 1;
            }
            texts_out
        },
    }
}

// ---------------------------------------------------------------- issues

/// Texts sorted in `str` order: the one sorted arrangement of `s`.
pub open spec fn sorted_of(s: Seq<Seq<char>>) -> Seq<Seq<char>> {
    choose|t: Seq<Seq<char>>| texts_sorted(t) && t.to_multiset() == s.to_multiset()
}

/// A multiset of texts has one sorted arrangement.
pub proof fn lemma_sorted_texts_unique(a: Seq<Seq<char>>, b: Seq<Seq<char>>)
    requires
        texts_sorted(a),
        texts_sorted(b),
        a.to_multiset() == b.to_multiset(),
    ensures
        a == b,
    decreases a.len(),
{
    vstd::seq_lib::to_multiset_len(a);
    vstd::seq_lib::to_multiset_len(b);
    if a.len() == 0 {
        assert(a =~= b);
    } else {
        vstd::seq_lib::to_multiset_contains(a, a[0]);
        vstd::seq_lib::to_multiset_contains(b, a[0]);
        vstd::seq_lib::to_multiset_contains(a, b[0]);
        vstd::seq_lib::to_multiset_contains(b, b[0]);
        assert(a.contains(a[0]));
        assert(b.contains(b[0]));
        let j = choose|j: int| 0 <= j < b.len() && b[j] == a[0];
        let i = choose|i: int| 0 <= i < a.len() && a[i] == b[0];
        if i > 0 {
            assert(!text_lt(a[i], a[0]));
        }
        if j > 0 {
            assert(!text_lt(b[j], b[0]));
        }
        lemma_text_lt_total(a[0], b[0]);
        assert(a[0] == b[0]);
        vstd::seq_lib::to_multiset_remove(a, 0);
        vstd::seq_lib::to_multiset_remove(b, 0);
        assert(a.remove(0) =~= a.drop_first());
        assert(b.remove(0) =~= b.drop_first());
        assert forall|x: int, y: int| 0 <= x < y < a.drop_first().len() implies !text_lt(
            #[trigger] a.drop_first()[y],
            #[trigger] a.drop_first()[x],
        ) by {
            assert(!text_lt(a[y + 1], a[x + 1]));
        }
        assert forall|x: int, y: int| 0 <= x < y < b.drop_first().len() implies !text_lt(
            #[trigger] b.drop_first()[y],
            #[trigger] b.drop_first()[x],
        ) by {
            assert(!text_lt(b[y + 1], b[x + 1]));
        }
        lemma_sorted_texts_unique(a.drop_first(), b.drop_first());
        assert(a =~= seq![a[0]] + a.drop_first());
        assert(b =~= seq![b[0]] + b.drop_first());
    }
}

/// `sort` on a list of texts gives their one sorted arrangement.
fn sorted_copy(v: &Vec<String>) -> (r: Vec<String>)
    ensures
        texts(r@) == sorted_of(texts(v@)),
{
    let r = sort_texts(v);
    proof {
        let t = sorted_of(texts(v@));
        assert(texts_sorted(texts(r@)) && texts(r@).to_multiset() == texts(v@).to_multiset());
        lemma_sorted_texts_unique(t, texts(r@));
    }
    r
}

/// The text fetched for a path, if it was.
pub open spec fn text_in(fetched: Seq<(String, String)>, k: Seq<char>) -> Option<Seq<char>> {
    match assoc(fetched, k) {
        Some(v) => Some(v@),
        None => None,
    }
}

/// Whether a path was among those requested.
pub open spec fn requested(wanted: Seq<(String, String)>, p: Seq<char>) -> bool {
    exists|i: int| 0 <= i < wanted.len() && #[trigger] wanted[i].0@ == p
}

/// An issue's attrs, in key order: its assignee and author, its state (`new`
/// where the register records none), the first line of its description as
/// its summary, and its tags.
pub open spec fn issue_attrs(
    id: Seq<char>,
    tags: Seq<Seq<char>>,
    fetched: Seq<(String, String)>,
    wanted: Seq<(String, String)>,
) -> Seq<(Seq<char>, Json)> {
    let a0 = Seq::<(Seq<char>, Json)>::empty();
    let a1 = match text_in(fetched, id + "/assignee"@) {
        Some(t) => a0.push(("assignee"@, Json::Str(trim(t)))),
        None => a0,
    };
    let a2 = match text_in(fetched, id + "/author"@) {
        Some(t) => a1.push(("author"@, Json::Str(trim(t)))),
        None => a1,
    };
    let a3 = match text_in(fetched, id + "/state"@) {
        Some(t) => a2.push(("state"@, Json::Str(trim(t)))),
        None => if requested(wanted, id + "/state"@) {
            a2
        } else {
            a2.push(("state"@, Json::Str("new"@)))
        },
    };
    let a4 = match text_in(fetched, id + "/description"@) {
        Some(t) => a3.push(("summary"@, Json::Str(trim(split_on(t, '\n')[0])))),
        None => a3,
    };
    let st = sorted_of(tags);
    if st.len() > 0 {
        a4.push(("tags"@, Json::Array(st.map_values(|x: Seq<char>| Json::Str(x)))))
    } else {
        a4
    }
}

/// The node of an issue.
pub open spec fn issue_node(
    id: Seq<char>,
    d: (Seq<Seq<char>>, Seq<Seq<char>>),
    fetched: Seq<(String, String)>,
    wanted: Seq<(String, String)>,
) -> NodeView {
    NodeView {
        id,
        kind: "issue"@,
        attrs: issue_attrs(id, d.0, fetched, wanted),
        provenance: ProvenanceView { file: branch_file_of(id), line: 0 },
    }
}

/// The `depends_on` edges of an issue, to its dependencies in order.
pub open spec fn issue_edges(id: Seq<char>, deps: Seq<Seq<char>>) -> Seq<EdgeView> {
    sorted_of(deps).map_values(
        |t: Seq<char>|
            EdgeView {
                src: id,
                tgt: t,
                kind: "depends_on"@,
                attrs: Seq::empty(),
                provenance: ProvenanceView { file: branch_file_of(id + "/dependencies/"@ + t), line: 0 },
            },
    )
}

/// The edges of the first `k` issues.
pub open spec fn all_issue_edges(issues: Seq<(String, IssueData)>, k: nat) -> Seq<EdgeView>
    decreases k,
{
    if k == 0 || k > issues.len() {
        Seq::empty()
    } else {
        all_issue_edges(issues, (k - 1) as nat) + issue_edges(issues[k - 1].0@, issues[k - 1].1@.1)
    }
}

/// Append a text attr.
fn push_text_attr(attrs: &mut Vec<(String, JsonValue)>, key: &str, value: String)
    ensures
        members_view(final(attrs)@) == members_view(old(attrs)@).push((key@, Json::Str(value@))),
{
    let ghost before = attrs@;
    attrs.push((crate::text::copy_str(key), JsonValue::Str(value)));
    proof {
        lemma_members(before, before.len());
        lemma_members(attrs@, attrs@.len());
        assert(members_view(attrs@) =~= members_view(before).push((key@, Json::Str(value@))));
    }
}

/// The text fetched for a path.
fn fetched_text(fetched: &Vec<(String, String)>, k: &str) -> (r: Option<String>)
    ensures
        crate::types::opt_view(r) == text_in(fetched@, k@),
{
    match crate::assoc::assoc_get(fetched, k) {
        Some(t) => Some(t.clone()),
        None => None,
    }
}

fn was_requested(wanted: &Vec<(String, String)>, p: &str) -> (r: bool)
    ensures
        r == requested(wanted@, p@),
{
    let mut i: usize = 0;
    while i < wanted.len()
        invariant
            i <= wanted.len(),
            forall|j: int| 0 <= j < i ==> #[trigger] wanted@[j].0@ != p@,
        decreases wanted.len() - i,
    {
        if str_eq(wanted[i].0.as_str(), p) {
            return true;
        }
        i += 1;
    }
    false
}

/// The attrs of one issue.
fn attrs_of(id: &str, tags: &Vec<String>, fetched: &Vec<(String, String)>, wanted: &Vec<(String, String)>) -> (r: Vec<
    (String, JsonValue),
>)
    ensures
        members_view(r@) == issue_attrs(id@, texts(tags@), fetched@, wanted@),
{
    let mut attrs: Vec<(String, JsonValue)> = Vec::new();
    proof {
        lemma_members(attrs@, 0);
        assert(members_view(attrs@) =~= Seq::<(Seq<char>, Json)>::empty());
    }
    let p = msg2(id, "/assignee");
    match fetched_text(fetched, p.as_str()) {
        Some(t) => push_text_attr(&mut attrs, "assignee", trim_str(t.as_str())),
        None => {},
    }
    let p = msg2(id, "/author");
    match fetched_text(fetched, p.as_str()) {
        Some(t) => push_text_attr(&mut attrs, "author", trim_str(t.as_str())),
        None => {},
    }
    let p = msg2(id, "/state");
    match fetched_text(fetched, p.as_str()) {
        Some(t) => push_text_attr(&mut attrs, "state", trim_str(t.as_str())),
        None => {
            if !was_requested(wanted, p.as_str()) {
                push_text_attr(&mut attrs, "state", crate::text::copy_str("new"));
            }
        },
    }
    let p = msg2(id, "/description");
    match fetched_text(fetched, p.as_str()) {
        Some(t) => {
            let lines = split_char(t.as_str(), '\n');
            proof {
                crate::text::lemma_split_on_len(t@, '\n');
            }
            assert(texts(lines@)[0] == lines@[0]@);
            push_text_attr(&mut attrs, "summary", trim_str(lines[0].as_str()));
        },
        None => {},
    }
    let st = sorted_copy(tags);
    if st.len() > 0 {
        let ghost before = attrs@;
        let mut items: Vec<JsonValue> = Vec::new();
        let mut i: usize = 0;
        while i < st.len()
            invariant
                i <= st.len(),
                items@.len() == i,
                forall|j: int| 0 <= j < i ==> #[trigger] items@[j].deep() == Json::Str(st@[j]@),
            decreases st.len() - i,
        {
            items.push(JsonValue::Str(st[i].clone()));
            i += 1;
        }
        let ghost iv = items@;
        attrs.push((crate::text::copy_str("tags"), JsonValue::Array(items)));
        proof {
            lemma_items(iv, iv.len());
            let arr = Json::Array(deep_items_of(iv));
            assert(deep_items_of(iv) =~= sorted_of(texts(tags@)).map_values(|x: Seq<char>| Json::Str(x)));
            lemma_members(before, before.len());
            lemma_members(attrs@, attrs@.len());
            assert(members_view(attrs@) =~= members_view(before).push(
                ("tags"@, Json::Array(sorted_of(texts(tags@)).map_values(|x: Seq<char>| Json::Str(x)))),
            ));
        }
    }
    attrs
}

pub open spec fn deep_items_of(s: Seq<JsonValue>) -> Seq<Json> {
    crate::json::deep_items(s, s.len())
}

/// The nodes and edges of the register's issues, in ID order: one `issue`
/// node each, with the attrs its fetched files give, and a `depends_on` edge
/// to each of its dependencies.
pub fn issue_nodes(
    document: &mut Document,
    issues: &Vec<(String, IssueData)>,
    wanted: &Vec<(String, String)>,
    fetched: &Vec<(String, String)>,
)
    ensures
        final(document).interface_version == old(document).interface_version,
        final(document).pathways == old(document).pathways,
        final(document).findings == old(document).findings,
        adapter_nodes_view(final(document).nodes@) == adapter_nodes_view(old(document).nodes@) + issues@.map_values(
            |e: (String, IssueData)| issue_node(e.0@, e.1@, fetched@, wanted@),
        ),
        adapter_edges_view(final(document).edges@) == adapter_edges_view(old(document).edges@) + all_issue_edges(
            issues@,
            issues@.len(),
        ),
{
    let ghost n0 = adapter_nodes_view(document.nodes@);
    let ghost e0 = adapter_edges_view(document.edges@);
    let ghost f = |e: (String, IssueData)| issue_node(e.0@, e.1@, fetched@, wanted@);
    let mut k: usize = 0;
    while k < issues.len()
        invariant
            k <= issues.len(),
            f == (|e: (String, IssueData)| issue_node(e.0@, e.1@, fetched@, wanted@)),
            document.interface_version == old(document).interface_version,
            document.pathways == old(document).pathways,
            document.findings == old(document).findings,
            adapter_nodes_view(document.nodes@) == n0 + issues@.take(k as int).map_values(f),
            adapter_edges_view(document.edges@) == e0 + all_issue_edges(issues@, k as nat),
        decreases issues.len() - k,
    {
        let id = &issues[k].0;
        let data = &issues[k].1;
        let attrs = attrs_of(id.as_str(), &data.tags, fetched, wanted);
        let node = Node {
            id: id.clone(),
            kind: crate::text::copy_str("issue"),
            attrs,
            provenance: Provenance::new_file(branch_file(id.as_str())),
        };
        let ghost nb = adapter_nodes_view(document.nodes@);
        document.nodes.push(node);
        proof {
            assert(issues@.take(k + 1) =~= issues@.take(k as int).push(issues@[k as int]));
            assert(adapter_nodes_view(document.nodes@) =~= nb.push(f(issues@[k as int])));
        }
        let deps = sorted_copy(&data.dependencies);
        let ghost eb = adapter_edges_view(document.edges@);
        let ghost target = issue_edges(id@, data@.1);
        let mut j: usize = 0;
        while j < deps.len()
            invariant
                j <= deps.len(),
                texts(deps@) == sorted_of(data@.1),
                target == issue_edges(id@, data@.1),
                document.interface_version == old(document).interface_version,
                document.pathways == old(document).pathways,
                document.findings == old(document).findings,
                adapter_nodes_view(document.nodes@) == n0 + issues@.take(k + 1).map_values(f),
                adapter_edges_view(document.edges@) == eb + target.take(j as int),
            decreases deps.len() - j,
        {
            let dep = &deps[j];
            let where_at = msg3(id.as_str(), "/dependencies/", dep.as_str());
            let edge = Edge {
                src: id.clone(),
                tgt: dep.clone(),
                kind: crate::text::copy_str("depends_on"),
                attrs: Vec::new(),
                provenance: Provenance::new_file(branch_file(where_at.as_str())),
            };
            let ghost before = adapter_edges_view(document.edges@);
            document.edges.push(edge);
            proof {
                lemma_members(document.edges@.last().attrs@, 0);
                assert(members_view(document.edges@.last().attrs@) =~= Seq::<(Seq<char>, Json)>::empty());
                assert(texts(deps@)[j as int] == dep@);
                assert(target.take(j + 1) =~= target.take(j as int).push(target[j as int]));
                assert(adapter_edges_view(document.edges@) =~= before.push(target[j as int]));
            }
            j += 1;
        }
        proof {
            assert(target.take(j as int) =~= target);
            assert(all_issue_edges(issues@, (k + 1) as nat) == all_issue_edges(issues@, k as nat) + issue_edges(
                issues@[k as int].0@,
                issues@[k as int].1@.1,
            ));
        }
        k += 1;
    }
    assert(issues@.take(k as int) =~= issues@);
}

// ---------------------------------------------------------------- tree listing

/// What reading `git ls-tree -r -z` has found so far.
pub struct Listed {
    pub entries: Seq<TreeEntryView>,
    pub findings: Seq<IssueView>,
}

/// A finding about the listing as a whole.
pub open spec fn listing_error(message: Seq<char>) -> IssueView {
    finding("error"@, "PARSE_ERROR"@, message, "."@, 0, None)
}

/// One NUL-terminated record: `mode type oid`, a tab, then the path.
pub open spec fn list_step(l: Listed, rec: Seq<u8>) -> Listed {
    match first_index(rec, |b: u8| b == 9u8) {
        None => Listed { entries: l.entries, findings: l.findings.push(listing_error("git ls-tree returned a malformed record"@)) },
        Some(tab) => {
            let meta = rec.take(tab);
            let path = rec.skip(tab + 1);
            if !valid_utf8(meta) {
                Listed {
                    entries: l.entries,
                    findings: l.findings.push(
                        listing_error("git ls-tree metadata is not valid UTF-8: "@ + utf8_error_message(meta)),
                    ),
                }
            } else if !valid_utf8(path) {
                Listed {
                    entries: l.entries,
                    findings: l.findings.push(listing_error("git ls-tree path is not valid UTF-8: "@ + utf8_error_message(path))),
                }
            } else {
                let fields = split_on(decode_utf8(meta), ' ');
                let p = decode_utf8(path);
                if fields.len() != 3 {
                    Listed { entries: l.entries, findings: l.findings.push(listing_error(p + ": malformed git ls-tree metadata"@)) }
                } else {
                    Listed {
                        entries: l.entries.push(TreeEntryView { path: p, oid: fields[2], object_type: fields[1] }),
                        findings: l.findings,
                    }
                }
            }
        },
    }
}

/// The non-empty records among the first `k` pieces.
pub open spec fn list_walk(recs: Seq<Seq<u8>>, k: nat) -> Listed
    decreases k,
{
    if k == 0 || k > recs.len() {
        Listed { entries: Seq::empty(), findings: Seq::empty() }
    } else {
        let prev = list_walk(recs, (k - 1) as nat);
        if recs[k - 1].len() == 0 {
            prev
        } else {
            list_step(prev, recs[k - 1])
        }
    }
}

/// The sort key of an entry: its path.
pub open spec fn path_key(e: TreeEntryView) -> Seq<crate::sortkey::KeyView> {
    seq![crate::sortkey::KeyView::Text(e.path)]
}

/// The entries of a `git ls-tree -r -z` listing, sorted by path. A record
/// without a tab, with metadata or a path that is not UTF-8, or with other
/// than three metadata fields is a `PARSE_ERROR` on `.` and is left out.
pub fn parse_tree_listing(document: &mut Document, stdout: &Vec<u8>) -> (r: Vec<TreeEntry>)
    ensures
        ({
            let l = list_walk(split_bytes(stdout@, 0u8), split_bytes(stdout@, 0u8).len());
            &&& tree_view(r@).to_multiset() == l.entries.to_multiset()
            &&& forall|i: int, j: int| 0 <= i < j < r@.len() ==> !crate::sortkey::key_lt(
                path_key(#[trigger] tree_view(r@)[j]),
                path_key(#[trigger] tree_view(r@)[i]),
            )
            &&& adds_findings(*final(document), *old(document), l.findings)
        }),
{
    let ghost start = *document;
    let recs = split_records(stdout);
    let ghost rv = split_bytes(stdout@, 0u8);
    let mut keyed: Vec<(Vec<crate::sortkey::KeyPart>, TreeEntry)> = Vec::new();
    let ghost f = |e: TreeEntry| path_key(e@);
    let ghost g = |e: (Vec<crate::sortkey::KeyPart>, TreeEntry)| e.1@;
    let mut k: usize = 0;
    while k < recs.len()
        invariant
            k <= recs.len(),
            recs@.map_values(|x: Vec<u8>| x@) == rv,
            f == (|e: TreeEntry| path_key(e@)),
            g == (|e: (Vec<crate::sortkey::KeyPart>, TreeEntry)| e.1@),
            keyed@.map_values(g) == list_walk(rv, k as nat).entries,
            crate::sortkey::keyed_by(keyed@, f),
            adds_findings(*document, start, list_walk(rv, k as nat).findings),
        decreases recs.len() - k,
    {
        let rec = &recs[k];
        assert(rv[k as int] == rec@);
        let ghost before = *document;
        let ghost kb = keyed@;
        if rec.len() > 0 {
            match find_byte(rec, 9u8) {
                None => {
                    document.parse_error(crate::text::copy_str("git ls-tree returned a malformed record"), crate::text::copy_str("."), 0);
                    assert(findings_view(document.findings@) =~= findings_view(start.findings@) + list_walk(rv, (k + 1) as nat).findings);
                },
                Some(tab) => {
                    let meta = vstd::slice::slice_subrange(rec.as_slice(), 0, tab);
                    let path = vstd::slice::slice_subrange(rec.as_slice(), tab + 1, rec.len());
                    assert(meta@ =~= rec@.take(tab as int));
                    assert(path@ =~= rec@.skip(tab + 1));
                    match utf8_text(meta) {
                        Err((_, _, why)) => {
                            let message = msg2("git ls-tree metadata is not valid UTF-8: ", why.as_str());
                            document.parse_error(message, crate::text::copy_str("."), 0);
                            assert(findings_view(document.findings@) =~= findings_view(start.findings@) + list_walk(rv, (k + 1) as nat).findings);
                        },
                        Ok(meta_text) => match utf8_text(path) {
                            Err((_, _, why)) => {
                                let message = msg2("git ls-tree path is not valid UTF-8: ", why.as_str());
                                document.parse_error(message, crate::text::copy_str("."), 0);
                                assert(findings_view(document.findings@) =~= findings_view(start.findings@) + list_walk(rv, (k + 1) as nat).findings);
                            },
                            Ok(p) => {
                                let fields = split_char(meta_text.as_str(), ' ');
                                if fields.len() != 3 {
                                    let message = msg2(p.as_str(), ": malformed git ls-tree metadata");
                                    document.parse_error(message, crate::text::copy_str("."), 0);
                                    assert(findings_view(document.findings@) =~= findings_view(start.findings@) + list_walk(rv, (k + 1) as nat).findings);
                                } else {
                                    assert(texts(fields@)[1] == fields@[1]@ && texts(fields@)[2] == fields@[2]@);
                                    let e = TreeEntry { path: p.clone(), oid: fields[2].clone(), object_type: fields[1].clone() };
                                    let mut key: Vec<crate::sortkey::KeyPart> = Vec::new();
                                    key.push(crate::sortkey::KeyPart::Text(p));
                                    assert(crate::sortkey::key_view(key@) =~= path_key(e@));
                                    keyed.push((key, e));
                                    proof {
                                        assert(keyed@.map_values(g) =~= kb.map_values(g).push(e@));
                                        assert forall|i: int| 0 <= i < keyed@.len() implies #[trigger] crate::sortkey::keys_in(keyed@)[i] == f(keyed@[i].1) by {
                                            if i < kb.len() {
                                                assert(crate::sortkey::keys_in(kb)[i] == f(kb[i].1));
                                            }
                                        }
                                    }
                                }
                            },
                        },
                    }
                },
            }
        }
        k += 1;
    }
    assert(list_walk(rv, recs.len() as nat) == list_walk(rv, rv.len()));
    let ghost unsorted = keyed@;
    crate::sortkey::sort_keyed(&mut keyed);
    proof {
        crate::sortkey::lemma_keyed_by(keyed@, unsorted, f);
        let h = |e: (Seq<crate::sortkey::KeyView>, TreeEntry)| e.1@;
        crate::seqs::lemma_multiset_map(crate::sortkey::keyed_view(keyed@), crate::sortkey::keyed_view(unsorted), h);
        assert(crate::sortkey::keyed_view(keyed@).map_values(h) =~= keyed@.map_values(g));
        assert(crate::sortkey::keyed_view(unsorted).map_values(h) =~= unsorted.map_values(g));
    }
    let ghost sorted = keyed@;
    let r = crate::sortkey::unkey(keyed);
    proof {
        assert(tree_view(r@) =~= sorted.map_values(g));
        assert forall|i: int, j: int| 0 <= i < j < r@.len() implies !crate::sortkey::key_lt(
            path_key(#[trigger] tree_view(r@)[j]),
            path_key(#[trigger] tree_view(r@)[i]),
        ) by {
            assert(crate::sortkey::keys_in(sorted)[j] == f(sorted[j].1));
            assert(crate::sortkey::keys_in(sorted)[i] == f(sorted[i].1));
        }
    }
    r
}

/// The pieces of `v` between NUL bytes.
fn split_records(v: &Vec<u8>) -> (r: Vec<Vec<u8>>)
    ensures
        r@.map_values(|f: Vec<u8>| f@) == split_bytes(v@, 0u8),
{
    let ghost t = v@;
    let mut parts: Vec<Vec<u8>> = Vec::new();
    let mut current: Vec<u8> = Vec::new();
    let mut i: usize = 0;
    while i < v.len()
        invariant
            i <= v.len(),
            t == v@,
            parts@.map_values(|f: Vec<u8>| f@).push(current@) == split_bytes(t.take(i as int), 0u8),
        decreases v.len() - i,
    {
        proof {
            assert(t.take(i + 1).drop_last() =~= t.take(i as int));
            lemma_split_bytes_len(t.take(i as int), 0u8);
        }
        if v[i] == 0u8 {
            let done = current;
            parts.push(done);
            current = Vec::new();
            assert(parts@.map_values(|f: Vec<u8>| f@).push(current@) =~= split_bytes(t.take(i + 1), 0u8));
        } else {
            current.push(v[i]);
            assert(parts@.map_values(|f: Vec<u8>| f@).push(current@) =~= split_bytes(t.take(i + 1), 0u8));
        }
        i += 1;
    }
    parts.push(current);
    assert(t.take(i as int) =~= t);
    assert(parts@.map_values(|f: Vec<u8>| f@) =~= split_bytes(t, 0u8));
    parts
}

/// The first position of byte `b`.
fn find_byte(v: &Vec<u8>, b: u8) -> (r: Option<usize>)
    ensures
        match first_index(v@, |x: u8| x == b) {
            Some(i) => r == Some(i as usize) && 0 <= i < v@.len(),
            None => r is None,
        },
{
    let mut i: usize = 0;
    while i < v.len()
        invariant
            i <= v.len(),
            forall|k: int| 0 <= k < i ==> #[trigger] v@[k] != b,
        decreases v.len() - i,
    {
        if v[i] == b {
            proof {
                crate::seqs::lemma_first_index_at(v@, |x: u8| x == b, i as int);
            }
            return Some(i);
        }
        i += 1;
    }
    proof {
        crate::seqs::lemma_first_index_at(v@, |x: u8| x == b, v@.len() as int);
    }
    None
}

} // verus!
