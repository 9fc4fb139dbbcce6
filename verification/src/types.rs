//! Provenance, severity and findings: the vocabulary every other module reports in.

use vstd::prelude::*;

use crate::text::{
    copy_str, i64_text, int_text, lemma_text_lt_irreflexive, lemma_text_lt_total,
    lemma_text_lt_transitive, push_str, text_lt, compare_text,
};

verus! {

/// Where a node, edge or issue came from in the source text.
pub struct Provenance {
    pub file: String,
    pub line: i64,
}

/// A provenance by value.
pub struct ProvenanceView {
    pub file: Seq<char>,
    pub line: int,
}

impl View for Provenance {
    type V = ProvenanceView;

    open spec fn view(&self) -> ProvenanceView {
        ProvenanceView { file: self.file@, line: self.line as int }
    }
}

/// How a provenance is displayed: `file:line`.
pub open spec fn provenance_text(p: ProvenanceView) -> Seq<char> {
    p.file + ":"@ + int_text(p.line)
}

impl Provenance {
    pub fn new(file: &str, line: i64) -> (p: Provenance)
        ensures
            p@.file == file@,
            p@.line == line,
    {
        Provenance { file: copy_str(file), line }
    }

    /// A copy of this provenance.
    pub fn copy(&self) -> (p: Provenance)
        ensures
            p@ == self@,
    {
        Provenance { file: self.file.clone(), line: self.line }
    }

    /// The display form, `file:line`.
    pub fn to_text(&self) -> (s: String)
        ensures
            s@ == provenance_text(self@),
    {
        let mut s = self.file.clone();
        push_str(&mut s, ":");
        let n = i64_text(self.line);
        push_str(&mut s, n.as_str());
        s
    }
}

/// Issue severity. Only `Error` sets a non-zero exit code; `Hint` is advice
/// the tool cannot stand behind, and nothing promotes a finding out of it.
#[derive(Clone, Copy, Debug, PartialEq, Eq, Structural, PartialOrd, Ord)]
pub enum Severity {
    Error,
    Warning,
    Info,
    Hint,
}

/// The wire spelling of a severity.
pub open spec fn severity_text(s: Severity) -> Seq<char> {
    match s {
        Severity::Error => "error"@,
        Severity::Warning => "warning"@,
        Severity::Info => "info"@,
        Severity::Hint => "hint"@,
    }
}

/// The wire spelling in upper case.
pub open spec fn severity_upper(s: Severity) -> Seq<char> {
    match s {
        Severity::Error => "ERROR"@,
        Severity::Warning => "WARNING"@,
        Severity::Info => "INFO"@,
        Severity::Hint => "HINT"@,
    }
}

/// The severity a wire spelling names, if any.
pub open spec fn severity_of_text(t: Seq<char>) -> Option<Severity> {
    if t == "error"@ {
        Some(Severity::Error)
    } else if t == "warning"@ {
        Some(Severity::Warning)
    } else if t == "info"@ {
        Some(Severity::Info)
    } else if t == "hint"@ {
        Some(Severity::Hint)
    } else {
        None
    }
}

impl Severity {
    /// The wire spelling, which is also what `plain` and `json` output carry.
    pub fn as_str(self) -> (r: &'static str)
        ensures
            r@ == severity_text(self),
    {
        match self {
            Severity::Error => "error",
            Severity::Warning => "warning",
            Severity::Info => "info",
            Severity::Hint => "hint",
        }
    }

    /// The wire spelling in upper case, which is how `plain` and `rich` label a finding.
    pub fn as_upper(self) -> (r: &'static str)
        ensures
            r@ == severity_upper(self),
    {
        match self {
            Severity::Error => "ERROR",
            Severity::Warning => "WARNING",
            Severity::Info => "INFO",
            Severity::Hint => "HINT",
        }
    }

    /// Parse the wire spelling, or `None` for anything else.
    pub fn parse(text: &str) -> (r: Option<Severity>)
        ensures
            r == severity_of_text(text@),
    {
        if crate::text::str_eq(text, "error") {
            Some(Severity::Error)
        } else if crate::text::str_eq(text, "warning") {
            Some(Severity::Warning)
        } else if crate::text::str_eq(text, "info") {
            Some(Severity::Info)
        } else if crate::text::str_eq(text, "hint") {
            Some(Severity::Hint)
        } else {
            None
        }
    }
}

/// Parsing a severity's wire spelling gives that severity back, and the four
/// spellings are distinct.
pub proof fn law_severity_text_round_trip(s: Severity)
    ensures
        severity_of_text(severity_text(s)) == Some(s),
{
    reveal_strlit("error");
    reveal_strlit("warning");
    reveal_strlit("info");
    reveal_strlit("hint");
    assert("error"@.len() == 5 && "warning"@.len() == 7 && "info"@.len() == 4 && "hint"@.len() == 4);
    assert("info"@[0] != "hint"@[0]);
}

/// An optional string by value.
pub open spec fn opt_view(o: Option<String>) -> Option<Seq<char>> {
    match o {
        Some(s) => Some(s@),
        None => None,
    }
}

pub fn copy_opt(o: &Option<String>) -> (r: Option<String>)
    ensures
        opt_view(r) == opt_view(*o),
{
    match o {
        Some(s) => Some(s.clone()),
        None => None,
    }
}

/// One finding, from either an adapter's parse or a validation check.
///
/// `code` is the stable machine-readable name; `message` is prose for a human.
pub struct Issue {
    pub severity: Severity,
    pub code: String,
    pub message: String,
    pub provenance: Provenance,
    pub node_id: Option<String>,
    /// A machine-readable qualifier of what the finding established.
    pub state: Option<String>,
    /// Set by a profile SUPPRESS entry after severity resolution.
    pub suppressed: bool,
}

/// A finding by value.
pub struct IssueView {
    pub severity: Severity,
    pub code: Seq<char>,
    pub message: Seq<char>,
    pub provenance: ProvenanceView,
    pub node_id: Option<Seq<char>>,
    pub state: Option<Seq<char>>,
    pub suppressed: bool,
}

impl View for Issue {
    type V = IssueView;

    open spec fn view(&self) -> IssueView {
        IssueView {
            severity: self.severity,
            code: self.code@,
            message: self.message@,
            provenance: self.provenance@,
            node_id: opt_view(self.node_id),
            state: opt_view(self.state),
            suppressed: self.suppressed,
        }
    }
}

/// A fresh finding: no state, not suppressed.
pub open spec fn new_issue(
    severity: Severity,
    code: Seq<char>,
    message: Seq<char>,
    provenance: ProvenanceView,
    node_id: Option<Seq<char>>,
) -> IssueView {
    IssueView {
        severity,
        code,
        message,
        provenance,
        node_id,
        state: None,
        suppressed: false,
    }
}

/// Whether a finding moves the exit code: error severity and not suppressed.
pub open spec fn spec_gates(i: IssueView) -> bool {
    i.severity == Severity::Error && !i.suppressed
}

/// The reporting order: location, then code, then identity. Severity is absent
/// on purpose, so an override never reorders output.
pub open spec fn issue_lt(a: IssueView, b: IssueView) -> bool {
    let an = match a.node_id {
        Some(n) => n,
        None => Seq::<char>::empty(),
    };
    let bn = match b.node_id {
        Some(n) => n,
        None => Seq::<char>::empty(),
    };
    if a.provenance.file != b.provenance.file {
        text_lt(a.provenance.file, b.provenance.file)
    } else if a.provenance.line != b.provenance.line {
        a.provenance.line < b.provenance.line
    } else if a.code != b.code {
        text_lt(a.code, b.code)
    } else if an != bn {
        text_lt(an, bn)
    } else {
        text_lt(a.message, b.message)
    }
}

/// The sort key of a finding, as a tuple of its parts.
pub open spec fn issue_key(a: IssueView) -> (Seq<char>, int, Seq<char>, Seq<char>, Seq<char>) {
    (
        a.provenance.file,
        a.provenance.line,
        a.code,
        match a.node_id {
            Some(n) => n,
            None => Seq::<char>::empty(),
        },
        a.message,
    )
}

/// Findings in reporting order: no finding sorts before one left of it.
pub open spec fn issues_sorted(s: Seq<IssueView>) -> bool {
    forall|i: int, j: int| 0 <= i < j < s.len() ==> !issue_lt(s[j], s[i])
}

pub proof fn lemma_issue_lt_irreflexive(a: IssueView)
    ensures
        !issue_lt(a, a),
{
    lemma_text_lt_irreflexive(a.message);
}

pub proof fn lemma_issue_lt_transitive(a: IssueView, b: IssueView, c: IssueView)
    requires
        issue_lt(a, b),
        issue_lt(b, c),
    ensures
        issue_lt(a, c),
{
    let (af, bf, cf) = (a.provenance.file, b.provenance.file, c.provenance.file);
    if af != bf && bf != cf {
        lemma_text_lt_transitive(af, bf, cf);
        if af == cf {
            lemma_text_lt_transitive(bf, af, bf);
            lemma_text_lt_irreflexive(bf);
        }
    } else if af == bf && bf == cf {
        if a.provenance.line == b.provenance.line && b.provenance.line == c.provenance.line {
            if a.code != b.code && b.code != c.code {
                lemma_text_lt_transitive(a.code, b.code, c.code);
                if a.code == c.code {
                    lemma_text_lt_transitive(b.code, a.code, b.code);
                    lemma_text_lt_irreflexive(b.code);
                }
            } else if a.code == b.code && b.code == c.code {
                let (an, bn, cn) = (issue_key(a).3, issue_key(b).3, issue_key(c).3);
                if an != bn && bn != cn {
                    lemma_text_lt_transitive(an, bn, cn);
                    if an == cn {
                        lemma_text_lt_transitive(bn, an, bn);
                        lemma_text_lt_irreflexive(bn);
                    }
                } else if an == bn && bn == cn {
                    lemma_text_lt_transitive(a.message, b.message, c.message);
                }
            }
        }
    }
}

pub proof fn lemma_issue_lt_total(a: IssueView, b: IssueView)
    ensures
        issue_lt(a, b) || issue_lt(b, a) || issue_key(a) == issue_key(b),
{
    lemma_text_lt_total(a.provenance.file, b.provenance.file);
    lemma_text_lt_total(a.code, b.code);
    lemma_text_lt_total(issue_key(a).3, issue_key(b).3);
    lemma_text_lt_total(a.message, b.message);
}

/// `issue_lt` depends on nothing but the key.
pub proof fn lemma_issue_lt_key(a: IssueView, b: IssueView, c: IssueView)
    requires
        issue_key(a) == issue_key(b),
    ensures
        issue_lt(a, c) == issue_lt(b, c),
        issue_lt(c, a) == issue_lt(c, b),
{
}

/// Not-after is transitive.
pub proof fn lemma_issue_le_transitive(a: IssueView, b: IssueView, c: IssueView)
    requires
        !issue_lt(b, a),
        !issue_lt(c, b),
    ensures
        !issue_lt(c, a),
{
    if issue_lt(c, a) {
        lemma_issue_lt_total(c, b);
        if issue_lt(b, c) {
            lemma_issue_lt_transitive(b, c, a);
        } else if issue_key(c) == issue_key(b) {
            lemma_issue_lt_key(c, b, a);
        }
    }
}

impl Issue {
    pub fn new(
        severity: Severity,
        code: &str,
        message: String,
        provenance: Provenance,
        node_id: Option<String>,
    ) -> (r: Issue)
        ensures
            r@ == new_issue(severity, code@, message@, provenance@, opt_view(node_id)),
    {
        Issue {
            severity,
            code: copy_str(code),
            message,
            provenance,
            node_id,
            state: None,
            suppressed: false,
        }
    }

    /// A copy of this finding.
    pub fn copy(&self) -> (r: Issue)
        ensures
            r@ == self@,
    {
        Issue {
            severity: self.severity,
            code: self.code.clone(),
            message: self.message.clone(),
            provenance: self.provenance.copy(),
            node_id: copy_opt(&self.node_id),
            state: copy_opt(&self.state),
            suppressed: self.suppressed,
        }
    }

    /// True when this finding moves the exit code: error severity and not suppressed.
    pub fn gates(&self) -> (r: bool)
        ensures
            r == spec_gates(self@),
    {
        self.severity == Severity::Error && !self.suppressed
    }

    /// The total order findings are reported in: location, then code, then identity.
    pub fn sort_key(&self) -> (r: (&str, i64, &str, &str, &str))
        ensures
            (r.0@, r.1 as int, r.2@, r.3@, r.4@) == issue_key(self@),
    {
        let node: &str = match &self.node_id {
            Some(n) => n.as_str(),
            None => "",
        };
        proof {
            reveal_strlit("");
            assert(""@ =~= Seq::<char>::empty());
        }
        (self.provenance.file.as_str(), self.provenance.line, self.code.as_str(), node, self.message.as_str())
    }

    /// Whether this finding sorts strictly before `other`.
    pub fn sorts_before(&self, other: &Issue) -> (r: bool)
        ensures
            r == issue_lt(self@, other@),
    {
        let a = self.sort_key();
        let b = other.sort_key();
        let c = compare_text(a.0, b.0);
        if c != 0 {
            return c == -1;
        }
        if a.1 != b.1 {
            return a.1 < b.1;
        }
        let c = compare_text(a.2, b.2);
        if c != 0 {
            return c == -1;
        }
        let c = compare_text(a.3, b.3);
        if c != 0 {
            return c == -1;
        }
        compare_text(a.4, b.4) == -1
    }
}

/// The views of a sequence of findings.
pub open spec fn issues_view(s: Seq<Issue>) -> Seq<IssueView> {
    s.map_values(|i: Issue| i@)
}

/// Sort findings into reporting order, keeping equal keys in collection order.
/// `x` placed into a sorted sequence after every finding it does not sort
/// before: equal keys keep their order.
pub open spec fn insert_sorted(s: Seq<IssueView>, x: IssueView) -> Seq<IssueView>
    decreases s.len(),
{
    if s.len() == 0 || !issue_lt(x, s.last()) {
        s.push(x)
    } else {
        insert_sorted(s.drop_last(), x).push(s.last())
    }
}

/// Findings in reporting order, sorted stably: each inserted in turn.
pub open spec fn sorted_stably(s: Seq<IssueView>) -> Seq<IssueView>
    decreases s.len(),
{
    if s.len() == 0 {
        s
    } else {
        insert_sorted(sorted_stably(s.drop_last()), s.last())
    }
}

/// Inserting at the first place from which every later finding sorts after `x`.
proof fn lemma_insert_at(s: Seq<IssueView>, x: IssueView, j: int)
    requires
        0 <= j <= s.len(),
        forall|k: int| j <= k < s.len() ==> issue_lt(x, #[trigger] s[k]),
        j == 0 || !issue_lt(x, s[j - 1]),
    ensures
        insert_sorted(s, x) == s.insert(j, x),
    decreases s.len(),
{
    if j == s.len() {
        assert(s.push(x) =~= s.insert(j, x));
    } else {
        assert(issue_lt(x, s.last()));
        let t = s.drop_last();
        lemma_insert_at(t, x, j);
        assert(t.insert(j, x).push(s.last()) =~= s.insert(j, x));
    }
}

/// A map that keeps every comparison keeps the stable order.
pub proof fn lemma_sorted_stably_map(s: Seq<IssueView>, f: spec_fn(IssueView) -> IssueView)
    requires
        forall|a: IssueView, b: IssueView| #[trigger] issue_lt(f(a), f(b)) == issue_lt(a, b),
    ensures
        sorted_stably(s.map_values(f)) == sorted_stably(s).map_values(f),
    decreases s.len(),
{
    if s.len() > 0 {
        lemma_sorted_stably_map(s.drop_last(), f);
        assert(s.map_values(f).drop_last() =~= s.drop_last().map_values(f));
        lemma_insert_sorted_map(sorted_stably(s.drop_last()), s.last(), f);
    } else {
        assert(s.map_values(f) =~= s);
    }
}

proof fn lemma_insert_sorted_map(s: Seq<IssueView>, x: IssueView, f: spec_fn(IssueView) -> IssueView)
    requires
        forall|a: IssueView, b: IssueView| #[trigger] issue_lt(f(a), f(b)) == issue_lt(a, b),
    ensures
        insert_sorted(s.map_values(f), f(x)) == insert_sorted(s, x).map_values(f),
    decreases s.len(),
{
    if s.len() == 0 {
        assert(s.map_values(f).push(f(x)) =~= s.push(x).map_values(f));
    } else {
        assert(s.map_values(f).last() == f(s.last()));
        assert(issue_lt(f(x), f(s.last())) == issue_lt(x, s.last()));
        if !issue_lt(x, s.last()) {
            assert(s.map_values(f).push(f(x)) =~= s.push(x).map_values(f));
        } else {
            lemma_insert_sorted_map(s.drop_last(), x, f);
            assert(s.map_values(f).drop_last() =~= s.drop_last().map_values(f));
            assert(insert_sorted(s.drop_last(), x).push(s.last()).map_values(f) =~= insert_sorted(
                s.drop_last(),
                x,
            ).map_values(f).push(f(s.last())));
        }
    }
}

pub fn sort_issues(issues: &mut Vec<Issue>)
    ensures
        issues_sorted(issues_view(final(issues)@)),
        issues_view(final(issues)@).to_multiset() == issues_view(old(issues)@).to_multiset(),
        issues_view(final(issues)@) == sorted_stably(issues_view(old(issues)@)),
{
    let n = issues.len();
    let ghost orig = issues_view(issues@);
    let mut i: usize = 1;
    if n == 0 {
        assert(issues_view(issues@) =~= orig);
        return;
    }
    proof {
        assert(orig.take(1).drop_last() =~= orig.take(0));
        assert(sorted_stably(orig.take(0)) =~= Seq::<IssueView>::empty());
        assert(issues_view(issues@).take(1) =~= sorted_stably(orig.take(1)));
        assert(issues_view(issues@).skip(1) =~= orig.skip(1));
    }
    while i < n
        invariant
            1 <= i <= n,
            n == issues.len(),
            n == orig.len(),
            issues_view(issues@).to_multiset() == orig.to_multiset(),
            issues_sorted(issues_view(issues@).take(i as int)),
            issues_view(issues@).take(i as int) == sorted_stably(orig.take(i as int)),
            issues_view(issues@).skip(i as int) == orig.skip(i as int),
        decreases n - i,
    {
        let ghost before = issues_view(issues@);
        let x = issues.remove(i);
        let mut j: usize = i;
        while j > 0 && x.sorts_before(&issues[j - 1])
            invariant
                0 <= j <= i < n,
                issues.len() == n - 1,
                issues_view(issues@) == before.remove(i as int),
                forall|k: int| j <= k < i ==> issue_lt(x@, #[trigger] issues_view(issues@)[k]),
            decreases j,
        {
            j -= 1;
        }
        issues.insert(j, x);
        proof {
            let after = issues_view(issues@);
            let mid = before.remove(i as int);
            assert(after =~= mid.insert(j as int, x@));
            vstd::seq_lib::to_multiset_remove(before, i as int);
            vstd::seq_lib::to_multiset_insert(mid, j as int, x@);
            assert(before[i as int] == x@);
            assert(before.contains(x@));
            vstd::seq_lib::to_multiset_contains(before, x@);
            broadcast use vstd::multiset::group_multiset_axioms;
            assert(after.to_multiset() =~= before.to_multiset());
            let t = after.take(i + 1);
            let b = before.take(i as int);
            assert(forall|k: int| 0 <= k < i ==> #[trigger] mid[k] == b[k]);
            assert forall|p: int, q: int| 0 <= p < q < i + 1 implies !issue_lt(
                #[trigger] t[q],
                #[trigger] t[p],
            ) by {
                if q < j {
                    assert(t[p] == b[p] && t[q] == b[q]);
                } else if p > j {
                    assert(t[p] == b[p - 1] && t[q] == b[q - 1]);
                } else if p < j && j < q {
                    assert(t[p] == b[p] && t[q] == b[q - 1]);
                } else if q == j {
                    assert(t[q] == x@ && t[p] == b[p]);
                    assert(!issue_lt(x@, mid[j - 1]));
                    if p < j - 1 {
                        assert(!issue_lt(b[j - 1], b[p]));
                        lemma_issue_le_transitive(b[p], b[j - 1], x@);
                    }
                } else {
                    assert(p == j);
                    assert(t[p] == x@ && t[q] == b[q - 1]);
                    assert(issue_lt(x@, mid[q - 1]));
                    if issue_lt(b[q - 1], x@) {
                        lemma_issue_lt_transitive(x@, b[q - 1], x@);
                        lemma_issue_lt_irreflexive(x@);
                    }
                }
            }
            assert(issues_sorted(t));
            let sb = before.take(i as int);
            assert(x@ == orig[i as int]) by {
                assert(before.skip(i as int)[0] == orig.skip(i as int)[0]);
            }
            assert(mid.take(i as int) =~= sb);
            assert forall|k: int| j <= k < sb.len() implies issue_lt(x@, #[trigger] sb[k]) by {
                assert(sb[k] == mid[k]);
            }
            if j > 0 {
                assert(sb[j - 1] == mid[j - 1]);
            }
            lemma_insert_at(sb, x@, j as int);
            assert(orig.take(i + 1).drop_last() =~= orig.take(i as int));
            assert(orig.take(i + 1).last() == orig[i as int]);
            assert(after.take(i + 1) =~= sb.insert(j as int, x@));
            assert(after.skip(i + 1) =~= orig.skip(i + 1)) by {
                assert forall|k: int| 0 <= k < after.skip(i + 1).len() implies #[trigger] after.skip(i + 1)[k] == orig.skip(i + 1)[k] by {
                    assert(after[i + 1 + k] == mid[i + k]);
                    assert(mid[i + k] == before[i + 1 + k]);
                    assert(before[i + 1 + k] == before.skip(i as int)[k + 1]);
                }
            }
        }
        i += 1;
    }
    assert(issues_view(issues@).take(n as int) =~= issues_view(issues@));
    assert(orig.take(n as int) =~= orig);
}

} // verus!
