//! The GitLab adapter's reading of a resolved profile: which project, how
//! labels pick a node kind, which description patterns and issue links become
//! edges.

use vstd::prelude::*;

use crate::assoc::{assoc, assoc_has};
use crate::pattern::{regex_compiles, regex_error_text, regex_group_count, regex_groups};
use crate::seqs::{first_index, lemma_first_index, lemma_first_index_at};
use crate::text::{copy_str, msg2, msg3, msg4, str_eq, texts};
use crate::trace::pairs_view;

verus! {

/// How one GitLab link type becomes an edge.
#[derive(Debug)]
pub struct LinkMapping {
    pub edge_kind: String,
    /// Whether the edge points from the linked issue back to this one.
    pub reverse: bool,
}

/// A description pattern whose first capture group names a target issue.
#[derive(Debug)]
pub struct EdgePattern {
    /// The pattern, known to compile with at least one capture group.
    pub pattern: String,
    pub kind: String,
}

#[derive(Debug)]
pub struct Config {
    pub project: Option<String>,
    /// Label to node kind, in label order.
    pub label_map: Vec<(String, String)>,
    pub default_kind: String,
    /// In pattern order.
    pub edge_patterns: Vec<EdgePattern>,
    /// Link type to mapping, in link-type order.
    pub link_type_map: Vec<(String, LinkMapping)>,
    /// Each declared node kind's attr names, in kind order.
    pub attrs_by_kind: Vec<(String, Vec<String>)>,
}

/// What the adapter reads of a resolved profile document.
pub struct GitlabProfile {
    pub resolved_schema: String,
    pub project: Option<String>,
    pub label_map: Vec<(String, String)>,
    pub default_kind: String,
    /// Pattern to edge kind, in pattern order.
    pub edge_patterns: Vec<(String, String)>,
    pub link_type_map: Vec<(String, LinkMapping)>,
    /// Each declared node kind with its attr names, in kind order.
    pub node_kinds: Vec<(String, Vec<String>)>,
    /// The declared edge kinds.
    pub edge_kinds: Vec<String>,
}

// ---------------------------------------------------------------- the model

pub open spec fn links_view(s: Seq<(String, LinkMapping)>) -> Seq<(Seq<char>, (Seq<char>, bool))> {
    s.map_values(|e: (String, LinkMapping)| (e.0@, (e.1.edge_kind@, e.1.reverse)))
}

pub open spec fn kind_attrs_view(s: Seq<(String, Vec<String>)>) -> Seq<(Seq<char>, Seq<Seq<char>>)> {
    s.map_values(|e: (String, Vec<String>)| (e.0@, texts(e.1@)))
}

/// The link mapping used when the profile gives none.
pub open spec fn default_links() -> Seq<(Seq<char>, (Seq<char>, bool))> {
    seq![
        ("blocks"@, ("depends_on"@, true)),
        ("is_blocked_by"@, ("depends_on"@, false)),
        ("relates_to"@, ("relates_to"@, false)),
    ]
}

/// The node kinds the adapter section names: the label map's, then the default.
pub open spec fn kinds_named(d: GitlabProfile) -> Seq<Seq<char>> {
    pairs_view(d.label_map@).map_values(|p: (Seq<char>, Seq<char>)| p.1).push(d.default_kind@)
}

/// The first named node kind the profile does not declare.
pub open spec fn undeclared_kind(d: GitlabProfile) -> Option<Seq<char>> {
    match first_index(kinds_named(d), |k: Seq<char>| assoc(d.node_kinds@, k) is None) {
        Some(i) => Some(kinds_named(d)[i]),
        None => None,
    }
}

/// Why one edge pattern is refused.
pub open spec fn pattern_refusal(p: (Seq<char>, Seq<char>), edge_kinds: Seq<Seq<char>>) -> Option<Seq<char>> {
    if p.1.len() == 0 {
        Some("edge kind for pattern '"@ + p.0 + "' must not be empty"@)
    } else if !edge_kinds.contains(p.1) {
        Some("adapter references undeclared edge kind '"@ + p.1 + "'"@)
    } else if !regex_compiles(p.0) {
        Some("invalid adapter.edge_patterns regex '"@ + p.0 + "': "@ + regex_error_text(p.0))
    } else if regex_group_count(p.0) < 2 {
        Some("adapter.edge_patterns regex '"@ + p.0 + "' needs a capture group for the target iid"@)
    } else {
        None
    }
}

/// The first refusal among the first `k` patterns.
pub open spec fn patterns_refusal(ps: Seq<(Seq<char>, Seq<char>)>, eks: Seq<Seq<char>>, k: nat) -> Option<Seq<char>>
    decreases k,
{
    if k == 0 || k > ps.len() {
        None
    } else {
        match patterns_refusal(ps, eks, (k - 1) as nat) {
            Some(e) => Some(e),
            None => pattern_refusal(ps[k - 1], eks),
        }
    }
}

/// Why a decoded profile gives no configuration, after the common prefix.
pub open spec fn gitlab_refusal(d: GitlabProfile) -> Option<Seq<char>> {
    if d.resolved_schema@ != "1"@ {
        Some("not a resolved profile document"@)
    } else if d.default_kind@.len() == 0 {
        Some("adapter.default_kind must not be empty"@)
    } else if d.project matches Some(p) && p@.len() == 0 {
        Some("adapter.project must not be empty"@)
    } else {
        match undeclared_kind(d) {
            Some(k) => Some("adapter references undeclared node kind '"@ + k + "'"@),
            None => patterns_refusal(pairs_view(d.edge_patterns@), texts(d.edge_kinds@), d.edge_patterns@.len()),
        }
    }
}

pub open spec fn patterns_view(s: Seq<EdgePattern>) -> Seq<(Seq<char>, Seq<char>)> {
    s.map_values(|p: EdgePattern| (p.pattern@, p.kind@))
}

/// The configuration a profile the adapter accepts gives.
pub open spec fn config_holds(c: Config, d: GitlabProfile) -> bool {
    &&& match c.project {
        Some(p) => d.project matches Some(q) && p@ == q@,
        None => d.project is None,
    }
    &&& pairs_view(c.label_map@) == pairs_view(d.label_map@)
    &&& c.default_kind@ == d.default_kind@
    &&& patterns_view(c.edge_patterns@) == pairs_view(d.edge_patterns@)
    &&& links_view(c.link_type_map@) == if d.link_type_map@.len() == 0 {
        default_links()
    } else {
        links_view(d.link_type_map@)
    }
    &&& kind_attrs_view(c.attrs_by_kind@) == kind_attrs_view(d.node_kinds@)
}

/// An error of loading the profile at `path`.
fn refuse(path: &str, msg: &str) -> (s: String)
    ensures
        s@ == crate::mdadapter::load_prefix(path@) + msg@,
{
    msg4("could not load profile ", path, ": ", msg)
}

proof fn lemma_patterns_refusal_stops(ps: Seq<(Seq<char>, Seq<char>)>, eks: Seq<Seq<char>>, k: nat, m: nat)
    requires
        k <= m <= ps.len(),
        patterns_refusal(ps, eks, k) is Some,
    ensures
        patterns_refusal(ps, eks, m) == patterns_refusal(ps, eks, k),
    decreases m - k,
{
    if m > k {
        lemma_patterns_refusal_stops(ps, eks, k, (m - 1) as nat);
    }
}

impl Config {
    /// Read the adapter's configuration from a decoded profile document, or
    /// say, naming the profile at `path`, why the document gives none.
    #[verifier::loop_isolation(false)]
    pub fn from_decoded(decoded: Result<GitlabProfile, String>, path: &str) -> (r: Result<Config, String>)
        ensures
            match decoded {
                Err(e) => r matches Err(m) && m@ == crate::mdadapter::load_prefix(path@) + e@,
                Ok(d) => match gitlab_refusal(d) {
                    Some(msg) => r matches Err(m) && m@ == crate::mdadapter::load_prefix(path@) + msg,
                    None => r matches Ok(c) && config_holds(c, d),
                },
            },
    {
        let d = match decoded {
            Ok(d) => d,
            Err(e) => return Err(refuse(path, e.as_str())),
        };
        proof {
            reveal_strlit("");
        }
        if !str_eq(d.resolved_schema.as_str(), "1") {
            return Err(refuse(path, "not a resolved profile document"));
        }
        if str_eq(d.default_kind.as_str(), "") {
            return Err(refuse(path, "adapter.default_kind must not be empty"));
        }
        proof {
            if d.default_kind@.len() == 0 {
                assert(d.default_kind@ =~= ""@);
            }
        }
        if let Some(p) = &d.project {
            if str_eq(p.as_str(), "") {
                return Err(refuse(path, "adapter.project must not be empty"));
            }
            proof {
                if p@.len() == 0 {
                    assert(p@ =~= ""@);
                }
            }
        }
        // Every node kind the section names must be declared.
        let ghost named = kinds_named(d);
        let ghost undeclared = |k: Seq<char>| assoc(d.node_kinds@, k) is None;
        let mut i: usize = 0;
        while i < d.label_map.len()
            invariant
                i <= d.label_map.len(),
                named == kinds_named(d),
                named.len() == d.label_map.len() + 1,
                forall|k: int| 0 <= k < i ==> !undeclared(#[trigger] named[k]),
            decreases d.label_map.len() - i,
        {
            assert(named[i as int] == d.label_map@[i as int].1@);
            if !assoc_has(&d.node_kinds, d.label_map[i].1.as_str()) {
                proof {
                    lemma_first_index_at(named, undeclared, i as int);
                }
                let m = msg3("adapter references undeclared node kind '", d.label_map[i].1.as_str(), "'");
                return Err(refuse(path, m.as_str()));
            }
            i += 1;
        }
        assert(named[i as int] == d.default_kind@);
        if !assoc_has(&d.node_kinds, d.default_kind.as_str()) {
            proof {
                lemma_first_index_at(named, undeclared, i as int);
            }
            let m = msg3("adapter references undeclared node kind '", d.default_kind.as_str(), "'");
            return Err(refuse(path, m.as_str()));
        }
        proof {
            lemma_first_index_at(named, undeclared, named.len() as int);
        }
        // Every edge pattern must name a declared kind and compile with a group.
        let ghost ps = pairs_view(d.edge_patterns@);
        let ghost eks = texts(d.edge_kinds@);
        let mut edge_patterns: Vec<EdgePattern> = Vec::new();
        let mut j: usize = 0;
        while j < d.edge_patterns.len()
            invariant
                j <= d.edge_patterns.len(),
                ps == pairs_view(d.edge_patterns@),
                eks == texts(d.edge_kinds@),
                patterns_refusal(ps, eks, j as nat) is None,
                patterns_view(edge_patterns@) == ps.take(j as int),
            decreases d.edge_patterns.len() - j,
        {
            let pattern = &d.edge_patterns[j].0;
            let kind = &d.edge_patterns[j].1;
            assert(ps[j as int] == (pattern@, kind@));
            if str_eq(kind.as_str(), "") {
                proof {
                    lemma_patterns_refusal_stops(ps, eks, (j + 1) as nat, ps.len());
                }
                let m = msg3("edge kind for pattern '", pattern.as_str(), "' must not be empty");
                return Err(refuse(path, m.as_str()));
            }
            proof {
                if kind@.len() == 0 {
                    assert(kind@ =~= ""@);
                }
            }
            if !crate::assoc::contains_text(&d.edge_kinds, kind.as_str()) {
                proof {
                    lemma_patterns_refusal_stops(ps, eks, (j + 1) as nat, ps.len());
                }
                let m = msg3("adapter references undeclared edge kind '", kind.as_str(), "'");
                return Err(refuse(path, m.as_str()));
            }
            match regex_groups(pattern.as_str()) {
                None => {
                    let e = match crate::pattern::regex_check(pattern.as_str()) {
                        Ok(()) => {
                            assert(false);
                            String::new()
                        },
                        Err(e) => e,
                    };
                    proof {
                        lemma_patterns_refusal_stops(ps, eks, (j + 1) as nat, ps.len());
                    }
                    let m = msg4("invalid adapter.edge_patterns regex '", pattern.as_str(), "': ", e.as_str());
                    return Err(refuse(path, m.as_str()));
                },
                Some(n) => {
                    if n < 2 {
                        proof {
                            lemma_patterns_refusal_stops(ps, eks, (j + 1) as nat, ps.len());
                        }
                        let m = msg3(
                            "adapter.edge_patterns regex '",
                            pattern.as_str(),
                            "' needs a capture group for the target iid",
                        );
                        return Err(refuse(path, m.as_str()));
                    }
                },
            }
            let ghost before = patterns_view(edge_patterns@);
            edge_patterns.push(EdgePattern { pattern: pattern.clone(), kind: kind.clone() });
            proof {
                assert(patterns_view(edge_patterns@) =~= before.push(ps[j as int]));
                assert(ps.take(j + 1) =~= ps.take(j as int).push(ps[j as int]));
            }
            j += 1;
        }
        assert(ps.take(j as int) =~= ps);
        let GitlabProfile { resolved_schema, project, label_map, default_kind, edge_patterns: _, link_type_map, node_kinds, edge_kinds } = d;
        let link_type_map = if link_type_map.len() == 0 {
            let mut m: Vec<(String, LinkMapping)> = Vec::new();
            m.push((copy_str("blocks"), LinkMapping { edge_kind: copy_str("depends_on"), reverse: true }));
            m.push((copy_str("is_blocked_by"), LinkMapping { edge_kind: copy_str("depends_on"), reverse: false }));
            m.push((copy_str("relates_to"), LinkMapping { edge_kind: copy_str("relates_to"), reverse: false }));
            assert(links_view(m@) =~= default_links());
            m
        } else {
            link_type_map
        };
        Ok(Config { project, label_map, default_kind, edge_patterns, link_type_map, attrs_by_kind: node_kinds })
    }
}

} // verus!
