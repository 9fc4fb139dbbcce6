//! The suggestion overlay: a producer's ranked candidate edges become hints.
//!
//! Nothing here ranks anything: a producer writes a suggestion document and
//! the core renders it, in document order.

use vstd::prelude::*;

use crate::graph::{declares, node_lookup, LatticeGraph, NodeView};
use crate::ingest::{doc_entries, ContractError};
use crate::json::{json_type_name, lookup, members_view, spec_type_name, Json, JsonValue};
use crate::rules::{default_severity, spec_default_severity, FindingCode};
use crate::text::{copy_str, msg2, msg3, msg4, nat_text, push_str, str_eq, usize_text};
use crate::types::{new_issue, Issue, IssueView, Provenance, ProvenanceView};

verus! {

/// A required member of an object.
pub open spec fn required(m: Json, key: Seq<char>, where_: Seq<char>) -> Result<Json, Seq<char>> {
    match m {
        Json::Object(ms) => match lookup(ms, key) {
            Some(v) => Ok(v),
            None => Err(where_ + ": missing '"@ + key + "'"@),
        },
        other => Err(where_ + ": expected an object, got "@ + spec_type_name(other)),
    }
}

/// A required string member of an object.
pub open spec fn required_str(m: Json, key: Seq<char>, where_: Seq<char>) -> Result<Seq<char>, Seq<char>> {
    match required(m, key, where_) {
        Err(e) => Err(e),
        Ok(Json::Str(t)) => Ok(t),
        Ok(other) => Err(where_ + ": '"@ + key + "' must be a string, got "@ + spec_type_name(other)),
    }
}

/// The score text handed in for suggestion `i`.
pub open spec fn score_at(scores: Seq<Seq<char>>, i: int) -> Seq<char> {
    if 0 <= i < scores.len() {
        scores[i]
    } else {
        Seq::empty()
    }
}

/// The IDs of a suggestion the graph does not declare, joined for a message.
pub open spec fn unresolved_text(nodes: Seq<NodeView>, src: Seq<char>, tgt: Seq<char>) -> Seq<char> {
    if !declares(nodes, src) && !declares(nodes, tgt) {
        src + " and "@ + tgt
    } else if !declares(nodes, src) {
        src
    } else {
        tgt
    }
}

/// One suggestion entry rendered, or why it is refused.
pub open spec fn suggestion_issue(
    entry: Json,
    i: nat,
    producer: Seq<char>,
    nodes: Seq<NodeView>,
    score: Seq<char>,
) -> Result<IssueView, Seq<char>> {
    let w = "suggestion "@ + nat_text(i);
    match required(entry, "score"@, w) {
        Err(e) => Err(e),
        Ok(s) => if !(s is Int || s is Float) {
            Err(w + ": 'score' must be a number, got "@ + spec_type_name(s))
        } else {
            match (
                required_str(entry, "src"@, w),
                required_str(entry, "tgt"@, w),
                required_str(entry, "kind"@, w),
                required_str(entry, "basis"@, w),
            ) {
                (Err(e), _, _, _) => Err(e),
                (Ok(_), Err(e), _, _) => Err(e),
                (Ok(_), Ok(_), Err(e), _) => Err(e),
                (Ok(_), Ok(_), Ok(_), Err(e)) => Err(e),
                (Ok(src), Ok(tgt), Ok(kind), Ok(basis)) => if !declares(nodes, src) || !declares(nodes, tgt) {
                    Ok(
                        new_issue(
                            spec_default_severity(FindingCode::SuggestionUnresolved),
                            "SUGGESTION_UNRESOLVED"@,
                            "suggestion from '"@ + producer + "' proposes '"@ + kind + "' "@ + src + " -> "@ + tgt
                                + ": "@ + unresolved_text(nodes, src, tgt) + " does not resolve"@,
                            ProvenanceView { file: "<suggestions>"@, line: 0 },
                            None,
                        ),
                    )
                } else {
                    Ok(
                        new_issue(
                            spec_default_severity(FindingCode::SuggestedEdge),
                            "SUGGESTED_EDGE"@,
                            "'"@ + src + "' "@ + kind + " '"@ + tgt + "' (score "@ + score + ", "@ + producer + "): "@ + basis,
                            node_lookup(nodes, src)->0.provenance,
                            Some(src),
                        ),
                    )
                },
            }
        },
    }
}

/// The first `n` suggestion entries rendered in document order; the first
/// refusal wins.
pub open spec fn suggestion_issues(
    items: Seq<Json>,
    n: nat,
    producer: Seq<char>,
    nodes: Seq<NodeView>,
    scores: Seq<Seq<char>>,
) -> Result<Seq<IssueView>, Seq<char>>
    decreases n,
{
    if n == 0 || n > items.len() {
        Ok(Seq::empty())
    } else {
        match suggestion_issues(items, (n - 1) as nat, producer, nodes, scores) {
            Err(e) => Err(e),
            Ok(done) => match suggestion_issue(items[n - 1], (n - 1) as nat, producer, nodes, score_at(scores, n - 1)) {
                Err(e) => Err(e),
                Ok(f) => Ok(done.push(f)),
            },
        }
    }
}

/// A suggestion document rendered: its version checked, then each entry.
pub open spec fn rendered_suggestions(doc: Json, nodes: Seq<NodeView>, scores: Seq<Seq<char>>) -> Result<Seq<IssueView>, Seq<char>> {
    match required_str(doc, "suggestion_version"@, "suggestion document"@) {
        Err(e) => Err(e),
        Ok(v) => if v != "1.0"@ {
            Err("unsupported suggestion version '"@ + v + "'; this lattice supports 1.0"@)
        } else {
            match required_str(doc, "producer"@, "suggestion document"@) {
                Err(e) => Err(e),
                Ok(producer) => match doc {
                    Json::Object(ms) => match doc_entries(ms, "suggestions"@) {
                        Err(e) => Err(e),
                        Ok(items) => suggestion_issues(items, items.len(), producer, nodes, scores),
                    },
                    _ => Err(Seq::empty()),
                },
            }
        }
    }
}

/// A required member.
fn require<'a>(m: &'a JsonValue, key: &str, where_: &str) -> (r: Result<&'a JsonValue, ContractError>)
    ensures
        match required(m.deep(), key@, where_@) {
            Ok(v) => r matches Ok(x) && x.deep() == v,
            Err(e) => r matches Err(x) && x.0@ == e,
        },
{
    match m {
        JsonValue::Object(ms) => match crate::json::get(ms, key) {
            Some(v) => Ok(v),
            None => Err(ContractError(msg4(where_, ": missing '", key, "'"))),
        },
        other => Err(ContractError(msg3(where_, ": expected an object, got ", json_type_name(other)))),
    }
}

/// A required string member.
fn require_str<'a>(m: &'a JsonValue, key: &str, where_: &str) -> (r: Result<&'a String, ContractError>)
    ensures
        match required_str(m.deep(), key@, where_@) {
            Ok(v) => r matches Ok(x) && x@ == v,
            Err(e) => r matches Err(x) && x.0@ == e,
        },
{
    match require(m, key, where_) {
        Err(e) => Err(e),
        Ok(JsonValue::Str(t)) => Ok(t),
        Ok(other) => {
            let mut s = msg4(where_, ": '", key, "' must be a string, got ");
            push_str(&mut s, json_type_name(other));
            Err(ContractError(s))
        },
    }
}

/// Read a suggestion document and render its entries as hint findings, in
/// document order. `scores` holds each entry's score as text with four
/// decimals, as the caller formats it. An entry naming an ID the graph does
/// not declare becomes SUGGESTION_UNRESOLVED rather than vanishing.
pub fn render_suggestions(document: &JsonValue, graph: &LatticeGraph, scores: &Vec<String>) -> (r: Result<Vec<Issue>, ContractError>)
    requires
        graph.wf(),
    ensures
        match rendered_suggestions(document.deep(), graph.spec_nodes(), crate::text::texts(scores@)) {
            Ok(v) => r matches Ok(x) && crate::types::issues_view(x@) == v,
            Err(e) => r matches Err(x) && x.0@ == e,
        },
{
    let ghost nodes = graph.spec_nodes();
    let ghost sv = crate::text::texts(scores@);
    let version = match require_str(document, "suggestion_version", "suggestion document") {
        Ok(v) => v,
        Err(e) => return Err(e),
    };
    if !str_eq(version.as_str(), "1.0") {
        return Err(ContractError(msg3("unsupported suggestion version '", version.as_str(), "'; this lattice supports 1.0")));
    }
    let producer = match require_str(document, "producer", "suggestion document") {
        Ok(p) => p,
        Err(e) => return Err(e),
    };
    let ms = match document {
        JsonValue::Object(ms) => ms,
        _ => return Err(ContractError(copy_str(""))),
    };
    let empty: Vec<JsonValue> = Vec::new();
    let items = match crate::json::get(ms, "suggestions") {
        None => &empty,
        Some(JsonValue::Array(items)) => items,
        Some(other) => return Err(ContractError(msg4("document: '", "suggestions", "' must be a list, got ", json_type_name(other)))),
    };
    assert(document.deep() == Json::Object(members_view(ms@)));
    let ghost iv = crate::json::deep_items(items@, items@.len());
    proof {
        crate::json::lemma_items(items@, items@.len());
        assert(doc_entries(members_view(ms@), "suggestions"@) == Ok::<Seq<Json>, Seq<char>>(iv));
    }
    let mut out: Vec<Issue> = Vec::new();
    assert(crate::types::issues_view(out@) =~= Seq::<IssueView>::empty());
    let mut i: usize = 0;
    while i < items.len()
        invariant
            i <= items.len(),
            out.len() == i,
            iv.len() == items.len(),
            forall|k: int| 0 <= k < items.len() ==> iv[k] == (#[trigger] items@[k]).deep(),
            nodes == graph.spec_nodes(),
            graph.wf(),
            sv == crate::text::texts(scores@),
            suggestion_issues(iv, i as nat, producer@, nodes, sv) == Ok::<Seq<IssueView>, Seq<char>>(crate::types::issues_view(out@)),
            rendered_suggestions(document.deep(), nodes, sv) == suggestion_issues(iv, iv.len(), producer@, nodes, sv),
        decreases items.len() - i,
    {
        proof {
            lemma_suggestion_issues_stays(iv, (i + 1) as nat, iv.len(), producer@, nodes, sv);
        }
        let entry = &items[i];
        let ghost expect = suggestion_issue(iv[i as int], i as nat, producer@, nodes, score_at(sv, i as int));
        assert(iv[i as int] == entry.deep());
        let pos = usize_text(i);
        let where_ = msg2("suggestion ", pos.as_str());
        let score = match require(entry, "score", where_.as_str()) {
            Ok(s) => s,
            Err(e) => return Err(e),
        };
        match score {
            JsonValue::Int(_) | JsonValue::Float(_) => {},
            other => {
                return Err(ContractError(msg3(where_.as_str(), ": 'score' must be a number, got ", json_type_name(other))));
            },
        }
        let src = match require_str(entry, "src", where_.as_str()) {
            Ok(t) => t,
            Err(e) => return Err(e),
        };
        let tgt = match require_str(entry, "tgt", where_.as_str()) {
            Ok(t) => t,
            Err(e) => return Err(e),
        };
        let kind = match require_str(entry, "kind", where_.as_str()) {
            Ok(t) => t,
            Err(e) => return Err(e),
        };
        let basis = match require_str(entry, "basis", where_.as_str()) {
            Ok(t) => t,
            Err(e) => return Err(e),
        };
        let has_src = graph.has_node(src.as_str());
        let has_tgt = graph.has_node(tgt.as_str());
        let ghost before = crate::types::issues_view(out@);
        if !has_src || !has_tgt {
            let missing = if !has_src && !has_tgt {
                msg3(src.as_str(), " and ", tgt.as_str())
            } else if !has_src {
                copy_str(src.as_str())
            } else {
                copy_str(tgt.as_str())
            };
            let mut m = msg4("suggestion from '", producer.as_str(), "' proposes '", kind.as_str());
            push_str(&mut m, "' ");
            push_str(&mut m, src.as_str());
            push_str(&mut m, " -> ");
            push_str(&mut m, tgt.as_str());
            push_str(&mut m, ": ");
            push_str(&mut m, missing.as_str());
            push_str(&mut m, " does not resolve");
            let code = FindingCode::SuggestionUnresolved;
            let issue = Issue::new(default_severity(code), "SUGGESTION_UNRESOLVED", m, Provenance::new("<suggestions>", 0), None);
            assert(missing@ == unresolved_text(nodes, src@, tgt@));
            assert(expect == Ok::<IssueView, Seq<char>>(issue@));
            out.push(issue);
        } else {
            let provenance = match graph.node(src.as_str()) {
                Some(n) => n.provenance.copy(),
                None => Provenance::new("<suggestions>", 0),
            };
            let score_text = if i < scores.len() {
                copy_str(scores[i].as_str())
            } else {
                String::new()
            };
            proof {
                assert(sv.len() == scores@.len());
                if i < scores.len() {
                    assert(sv[i as int] == scores@[i as int]@);
                }
            }
            let mut m = msg4("'", src.as_str(), "' ", kind.as_str());
            push_str(&mut m, " '");
            push_str(&mut m, tgt.as_str());
            push_str(&mut m, "' (score ");
            push_str(&mut m, score_text.as_str());
            push_str(&mut m, ", ");
            push_str(&mut m, producer.as_str());
            push_str(&mut m, "): ");
            push_str(&mut m, basis.as_str());
            let code = FindingCode::SuggestedEdge;
            let issue = Issue::new(default_severity(code), "SUGGESTED_EDGE", m, provenance, Some(copy_str(src.as_str())));
            assert(score_text@ == score_at(sv, i as int));
            assert(expect == Ok::<IssueView, Seq<char>>(issue@));
            out.push(issue);
        }
        assert(crate::types::issues_view(out@) =~= before.push(out@[i as int]@));
        i += 1;
    }
    Ok(out)
}

/// A refusal among the first entries stands for the whole document.
proof fn lemma_suggestion_issues_stays(
    items: Seq<Json>,
    m: nat,
    n: nat,
    producer: Seq<char>,
    nodes: Seq<NodeView>,
    scores: Seq<Seq<char>>,
)
    requires
        m <= n <= items.len(),
    ensures
        suggestion_issues(items, m, producer, nodes, scores) is Err ==> suggestion_issues(items, n, producer, nodes, scores)
            == suggestion_issues(items, m, producer, nodes, scores),
    decreases n,
{
    if m < n {
        lemma_suggestion_issues_stays(items, m, (n - 1) as nat, producer, nodes, scores);
    }
}

} // verus!
