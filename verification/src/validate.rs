//! Checking a graph against its profile: ID syntax, kinds, attrs, edges,
//! coverage and constraints, then severity resolution and reporting order.

use vstd::prelude::*;

use crate::assoc::{assoc, assoc_get};
use crate::checks::{
    constraints_findings, edges_findings, nodes_findings, pre_findings, profile_provenance,
};
use crate::coverage::{config_error, coverage_config_findings, text_put};
use crate::deep::deep_config_findings;
use crate::graph::{pathway_lookup, spec_is_after, EdgeView, LatticeGraph, NodeView, PathwayView};
use crate::json::{lookup, Json};
use crate::profile::{binding_opt, decl_block, Profile, ValidationConfig};
use crate::rules::{code_of_text, code_text, spec_default_severity, spec_severity_for, FindingCode};
use crate::text::{msg3, msg5, texts};
use crate::types::{issues_sorted, issues_view, new_issue, Issue, IssueView, Provenance, Severity};

verus! {

/// An issue emitted outside core, at the severity an override gives its code.
/// Nothing is promoted out of hint.
pub open spec fn overridden(i: IssueView, ov: Seq<(String, Severity)>) -> IssueView {
    match assoc(ov, i.code) {
        Some(o) => if i.severity == Severity::Hint && o != Severity::Hint {
            i
        } else {
            IssueView { severity: o, ..i }
        },
        None => i,
    }
}

/// Whether an outside issue's override is refused and must be reported: a
/// promotion out of hint, for a code core does not already ship as hint.
pub open spec fn refused(i: IssueView, ov: Seq<(String, Severity)>) -> bool {
    &&& assoc(ov, i.code) matches Some(o) && i.severity == Severity::Hint && o != Severity::Hint
    &&& !(code_of_text(i.code) matches Some(c) && spec_default_severity(c) == Severity::Hint)
}

/// The refused codes among the first `k` issues, sorted and each once.
pub open spec fn refused_codes(s: Seq<IssueView>, k: nat, ov: Seq<(String, Severity)>) -> Seq<Seq<char>>
    decreases k,
{
    if k == 0 || k > s.len() {
        Seq::empty()
    } else if refused(s[k - 1], ov) {
        text_put(refused_codes(s, (k - 1) as nat, ov), s[k - 1].code)
    } else {
        refused_codes(s, (k - 1) as nat, ov)
    }
}

/// The finding that reports a refused override.
pub open spec fn refusal(code: Seq<char>, ov: Seq<(String, Severity)>) -> IssueView {
    config_error("severity override for '"@ + code + "': cannot promote from hint; the override is ignored"@, ov)
}

/// Outside issues after the profile's overrides, then one finding per code
/// whose override was refused.
pub open spec fn spec_apply_overrides(s: Seq<IssueView>, ov: Seq<(String, Severity)>) -> Seq<IssueView> {
    let codes = refused_codes(s, s.len(), ov);
    Seq::new(s.len(), |i: int| overridden(s[i], ov)) + Seq::new(codes.len(), |i: int| refusal(codes[i], ov))
}

/// Apply the profile's severity overrides to issues emitted outside core.
pub fn apply_overrides(issues: &Vec<Issue>, profile: &Profile) -> (r: Vec<Issue>)
    ensures
        issues_view(r@) == spec_apply_overrides(issues_view(issues@), profile.spec_overrides()),
{
    let ghost s = issues_view(issues@);
    let ghost ov = profile.spec_overrides();
    let mut out: Vec<Issue> = Vec::new();
    let mut codes: Vec<String> = Vec::new();
    let mut i: usize = 0;
    while i < issues.len()
        invariant
            i <= issues.len(),
            s == issues_view(issues@),
            ov == profile.spec_overrides(),
            out.len() == i,
            forall|k: int| 0 <= k < i ==> #[trigger] out@[k]@ == overridden(s[k], ov),
            texts(codes@) == refused_codes(s, i as nat, ov),
        decreases issues.len() - i,
    {
        let mut it = issues[i].copy();
        assert(it@ == s[i as int]);
        match assoc_get(profile.validation_overrides(), issues[i].code.as_str()) {
            Some(o) => {
                if issues[i].severity == Severity::Hint && *o != Severity::Hint {
                    let core_hint = match FindingCode::from_str(issues[i].code.as_str()) {
                        Some(c) => crate::rules::default_severity(c) == Severity::Hint,
                        None => false,
                    };
                    if !core_hint {
                        crate::coverage::insert_text_sorted(&mut codes, issues[i].code.clone());
                    }
                } else {
                    it.severity = *o;
                }
            },
            None => {},
        }
        out.push(it);
        i += 1;
    }
    let ghost head = issues_view(out@);
    assert(head =~= Seq::new(s.len(), |k: int| overridden(s[k], ov)));
    let mut j: usize = 0;
    while j < codes.len()
        invariant
            j <= codes.len(),
            texts(codes@) == refused_codes(s, s.len(), ov),
            ov == profile.spec_overrides(),
            issues_view(out@) == head + Seq::new(j as nat, |k: int| refusal(texts(codes@)[k], ov)),
        decreases codes.len() - j,
    {
        let m = msg3("severity override for '", codes[j].as_str(), "': cannot promote from hint; the override is ignored");
        let f = crate::rules::issue(FindingCode::ConfigError, m, Provenance::new("<profile>", 0), profile, None);
        proof {
            reveal_strlit("<profile>");
            assert(texts(codes@)[j as int] == codes@[j as int]@);
        }
        let ghost before = issues_view(out@);
        assert(f@ == refusal(texts(codes@)[j as int], ov));
        out.push(f);
        assert(issues_view(out@) =~= before.push(f@));
        assert(issues_view(out@) =~= head + Seq::new((j + 1) as nat, |k: int| refusal(texts(codes@)[k], ov)));
        j += 1;
    }
    out
}

/// A finding after its pathway binding: demoted to info when its node sits at
/// a position the pathway has not reached, or at no position of it.
pub open spec fn axis_issue(i: IssueView, g: LatticeGraph, p: Profile) -> IssueView {
    match binding_opt(assoc(p.spec_bindings(), i.code)) {
        Some((pw, attr)) => match pathway_lookup(g.spec_pathways(), pw) {
            Some(pathway) => match i.node_id {
                Some(id) => match crate::graph::node_lookup(g.spec_nodes(), id) {
                    Some(n) => match lookup(n.attrs, attr) {
                        Some(Json::Str(position)) => if pathway.order.contains(position) && !spec_is_after(
                            pathway,
                            position,
                        ) {
                            i
                        } else {
                            IssueView { severity: Severity::Info, ..i }
                        },
                        _ => i,
                    },
                    None => i,
                },
                None => i,
            },
            None => i,
        },
        None => i,
    }
}

/// Whether a finding's code is bound to a pathway the target does not declare.
pub open spec fn binds_missing(i: IssueView, g: LatticeGraph, p: Profile) -> bool {
    binding_opt(assoc(p.spec_bindings(), i.code)) matches Some((pw, attr)) && pathway_lookup(g.spec_pathways(), pw) is None
}

/// The codes among the first `k` findings bound to a missing pathway, sorted.
pub open spec fn unresolved_codes(s: Seq<IssueView>, k: nat, g: LatticeGraph, p: Profile) -> Seq<Seq<char>>
    decreases k,
{
    if k == 0 || k > s.len() {
        Seq::empty()
    } else if binds_missing(s[k - 1], g, p) {
        text_put(unresolved_codes(s, (k - 1) as nat, g, p), s[k - 1].code)
    } else {
        unresolved_codes(s, (k - 1) as nat, g, p)
    }
}

/// Every code gathered as unresolved has a binding.
proof fn lemma_unresolved_bound(s: Seq<IssueView>, k: nat, g: LatticeGraph, p: Profile)
    ensures
        forall|x: Seq<char>| #[trigger] unresolved_codes(s, k, g, p).contains(x) ==> binding_opt(assoc(p.spec_bindings(), x)) is Some,
    decreases k,
{
    if k > 0 && k <= s.len() {
        lemma_unresolved_bound(s, (k - 1) as nat, g, p);
        if binds_missing(s[k - 1], g, p) {
            assert forall|x: Seq<char>| #[trigger] unresolved_codes(s, k, g, p).contains(x) implies binding_opt(
                assoc(p.spec_bindings(), x),
            ) is Some by {
                crate::coverage::lemma_text_put_contains(unresolved_codes(s, (k - 1) as nat, g, p), s[k - 1].code, x);
            }
        }
    }
}

/// The finding that says a bound pathway is missing.
pub open spec fn unresolved(code: Seq<char>, p: Profile) -> IssueView {
    let pw = match binding_opt(assoc(p.spec_bindings(), code)) {
        Some((pathway, _)) => pathway,
        None => Seq::empty(),
    };
    new_issue(
        spec_severity_for(FindingCode::PathwayUnresolved, p.spec_overrides()),
        code_text(FindingCode::PathwayUnresolved),
        "profile binds '"@ + code + "' to pathway '"@ + pw + "', which the target does not declare"@,
        profile_provenance(),
        None,
    )
}

/// Findings after their pathway bindings, then one finding per code bound to
/// a missing pathway.
pub open spec fn spec_resolve_axes(s: Seq<IssueView>, g: LatticeGraph, p: Profile) -> Seq<IssueView> {
    if p.spec_bindings().len() == 0 {
        s
    } else {
        let codes = unresolved_codes(s, s.len(), g, p);
        Seq::new(s.len(), |i: int| axis_issue(s[i], g, p)) + Seq::new(codes.len(), |i: int| unresolved(codes[i], p))
    }
}

/// Demote findings whose node is not yet due on its bound pathway.
pub fn resolve_axes(issues: Vec<Issue>, graph: &LatticeGraph, profile: &Profile) -> (r: Vec<Issue>)
    requires
        graph.wf(),
    ensures
        issues_view(r@) == spec_resolve_axes(issues_view(issues@), *graph, *profile),
{
    let ghost s = issues_view(issues@);
    let bindings = profile.pathway_bindings();
    if bindings.len() == 0 {
        return issues;
    }
    let mut out: Vec<Issue> = Vec::new();
    let mut codes: Vec<String> = Vec::new();
    let mut i: usize = 0;
    while i < issues.len()
        invariant
            i <= issues.len(),
            s == issues_view(issues@),
            bindings@ == profile.spec_bindings(),
            bindings.len() > 0,
            graph.wf(),
            out.len() == i,
            forall|k: int| 0 <= k < i ==> #[trigger] out@[k]@ == axis_issue(s[k], *graph, *profile),
            texts(codes@) == unresolved_codes(s, i as nat, *graph, *profile),
        decreases issues.len() - i,
    {
        let mut it = issues[i].copy();
        assert(it@ == s[i as int]);
        match assoc_get(bindings, issues[i].code.as_str()) {
            None => {},
            Some(b) => {
                match graph.pathway(b.pathway.as_str()) {
                    None => {
                        crate::coverage::insert_text_sorted(&mut codes, issues[i].code.clone());
                    },
                    Some(pathway) => {
                        match &issues[i].node_id {
                            None => {},
                            Some(id) => match graph.node(id.as_str()) {
                                None => {},
                                Some(node) => match crate::json::get(&node.attrs, b.position_attr.as_str()) {
                                    Some(crate::json::JsonValue::Str(position)) => {
                                        if !(pathway.is_member(position.as_str()) && !pathway.is_after(position.as_str())) {
                                            it.severity = Severity::Info;
                                        }
                                    },
                                    _ => {},
                                },
                            },
                        }
                    },
                }
            },
        }
        out.push(it);
        i += 1;
    }
    let ghost head = issues_view(out@);
    assert(head =~= Seq::new(s.len(), |k: int| axis_issue(s[k], *graph, *profile)));
    proof {
        lemma_unresolved_bound(s, s.len(), *graph, *profile);
        assert forall|k: int| 0 <= k < codes.len() implies binding_opt(assoc(bindings@, #[trigger] codes@[k]@)) is Some by {
            assert(texts(codes@)[k] == codes@[k]@);
            assert(unresolved_codes(s, s.len(), *graph, *profile).contains(codes@[k]@));
        }
    }
    let mut j: usize = 0;
    while j < codes.len()
        invariant
            j <= codes.len(),
            texts(codes@) == unresolved_codes(s, s.len(), *graph, *profile),
            bindings@ == profile.spec_bindings(),
            forall|k: int| 0 <= k < codes.len() ==> binding_opt(assoc(bindings@, #[trigger] codes@[k]@)) is Some,
            issues_view(out@) == head + Seq::new(j as nat, |k: int| unresolved(texts(codes@)[k], *profile)),
        decreases codes.len() - j,
    {
        let b = match assoc_get(bindings, codes[j].as_str()) {
            Some(b) => b,
            None => {
                proof {
                    assert(false);
                }
                return out;
            },
        };
        let m = msg5("profile binds '", codes[j].as_str(), "' to pathway '", b.pathway.as_str(),
            "', which the target does not declare");
        let f = crate::rules::issue(FindingCode::PathwayUnresolved, m, Provenance::new("<profile>", 0), profile, None);
        proof {
            reveal_strlit("<profile>");
            assert(texts(codes@)[j as int] == codes@[j as int]@);
        }
        let ghost before = issues_view(out@);
        assert(f@ == unresolved(texts(codes@)[j as int], *profile));
        out.push(f);
        assert(issues_view(out@) =~= before.push(f@));
        assert(issues_view(out@) =~= head + Seq::new((j + 1) as nat, |k: int| unresolved(texts(codes@)[k], *profile)));
        j += 1;
    }
    out
}

/// Adapter issues at the severities the profile and its pathways decide.
pub fn resolve_adapter_issues(graph: &LatticeGraph, profile: &Profile) -> (r: Vec<Issue>)
    requires
        graph.wf(),
    ensures
        issues_view(r@) == spec_resolve_axes(
            spec_apply_overrides(graph.spec_issues(), profile.spec_overrides()),
            *graph,
            *profile,
        ),
{
    resolve_axes(apply_overrides(graph.adapter_issues(), profile), graph, profile)
}

/// The configurations a profile stores for `code`, in declared order.
pub open spec fn configs_for(p: Profile, code: Seq<char>) -> Seq<ValidationConfig> {
    match assoc(p.spec_configs(), code) {
        Some(l) => l@,
        None => Seq::empty(),
    }
}

/// The findings of the first `k` COVERAGE configurations.
pub open spec fn coverage_all(cfgs: Seq<ValidationConfig>, k: nat, g: LatticeGraph, p: Profile) -> Seq<IssueView>
    decreases k,
{
    if k == 0 || k > cfgs.len() {
        Seq::empty()
    } else {
        coverage_all(cfgs, (k - 1) as nat, g, p) + coverage_config_findings(cfgs[k - 1]@, g, p)
    }
}

/// The findings of the first `k` COVERAGE_DEEP configurations.
pub open spec fn deep_all(cfgs: Seq<ValidationConfig>, k: nat, g: LatticeGraph, p: Profile) -> Seq<IssueView>
    decreases k,
{
    if k == 0 || k > cfgs.len() {
        Seq::empty()
    } else {
        deep_all(cfgs, (k - 1) as nat, g, p) + deep_config_findings(cfgs[k - 1]@, g, p)
    }
}

/// Every finding validation collects, in collection order: the override
/// pre-pass, nodes, edges, COVERAGE, COVERAGE_DEEP, CONSTRAINT, then the
/// adapter's issues under the overrides.
pub open spec fn collected(g: LatticeGraph, p: Profile) -> Seq<IssueView> {
    let ov = p.spec_overrides();
    let ns = g.spec_nodes();
    let es = g.spec_edges();
    let cov = configs_for(p, "COVERAGE"@);
    let deep = configs_for(p, "COVERAGE_DEEP"@);
    pre_findings(ov, ov.len(), ov) + nodes_findings(ns, ns.len(), p, es) + edges_findings(es, es.len(), p, ns) + coverage_all(
        cov,
        cov.len(),
        g,
        p,
    ) + deep_all(deep, deep.len(), g, p) + constraints_findings(
        crate::profile::constraints_view(p.spec_constraints()),
        p.spec_constraints().len(),
        ns,
        ov,
    ) + spec_apply_overrides(g.spec_issues(), ov)
}

/// A finding under `--strict`: warnings become errors.
pub open spec fn strictened(i: IssueView, strict: bool) -> IssueView {
    if strict && i.severity == Severity::Warning {
        IssueView { severity: Severity::Error, ..i }
    } else {
        i
    }
}

/// The findings validation reports, before they are put in reporting order.
pub open spec fn spec_validate(g: LatticeGraph, p: Profile, strict: bool) -> Seq<IssueView> {
    let r = spec_resolve_axes(collected(g, p), g, p);
    let sups = crate::profile::suppressions_view(p.spec_suppressions());
    Seq::new(r.len(), |i: int| suppressed_under(strictened(r[i], strict), sups))
}

/// Whether a SUPPRESS entry covers a finding: the same code, and either no
/// ID list or the finding's node among the listed IDs.
pub open spec fn covers(s: crate::profile::SuppressView, i: IssueView) -> bool {
    &&& s.code == i.code
    &&& match s.node_ids {
        None => true,
        Some(ids) => match i.node_id {
            Some(n) => ids.contains(n),
            None => false,
        },
    }
}

/// Whether any SUPPRESS entry covers a finding.
pub open spec fn is_suppressed_by(sups: Seq<crate::profile::SuppressView>, i: IssueView) -> bool {
    exists|k: int| 0 <= k < sups.len() && covers(#[trigger] sups[k], i)
}

/// A finding with its `suppressed` mark set by the SUPPRESS entries; every
/// other field kept.
pub open spec fn suppressed_under(i: IssueView, sups: Seq<crate::profile::SuppressView>) -> IssueView {
    IssueView { suppressed: is_suppressed_by(sups, i), ..i }
}

/// Under `--strict` no finding is a warning.
pub proof fn law_strict_leaves_no_warning(g: LatticeGraph, p: Profile)
    ensures
        forall|i: int| 0 <= i < spec_validate(g, p, true).len() ==> (#[trigger] spec_validate(g, p, true)[i]).severity
            != Severity::Warning,
{
}

/// Without `--strict`, validation changes no severity after resolution: it
/// only marks the findings the profile's SUPPRESS entries cover.
pub proof fn law_lenient_keeps_severities(g: LatticeGraph, p: Profile)
    ensures
        spec_validate(g, p, false) == Seq::new(
            spec_resolve_axes(collected(g, p), g, p).len(),
            |i: int| suppressed_under(
                spec_resolve_axes(collected(g, p), g, p)[i],
                crate::profile::suppressions_view(p.spec_suppressions()),
            ),
        ),
{
    let r = spec_resolve_axes(collected(g, p), g, p);
    assert forall|i: int| 0 <= i < r.len() implies strictened(r[i], false) == r[i] by {}
    assert(spec_validate(g, p, false) =~= Seq::new(
        r.len(),
        |i: int| suppressed_under(r[i], crate::profile::suppressions_view(p.spec_suppressions())),
    ));
}

/// A suppressed finding keeps every other field; only its mark changes.
pub proof fn law_suppression_keeps_fields(i: IssueView, sups: Seq<crate::profile::SuppressView>)
    ensures
        suppressed_under(i, sups) == (IssueView { suppressed: suppressed_under(i, sups).suppressed, ..i }),
        suppressed_under(i, sups).suppressed <==> exists|k: int| 0 <= k < sups.len() && covers(#[trigger] sups[k], i),
{
}

/// The COVERAGE and COVERAGE_DEEP configurations of a loaded profile read
/// back valid `where` blocks.
proof fn lemma_where_ok(p: Profile, code: Seq<char>)
    requires
        p.wf(),
        code == "COVERAGE"@ || code == "COVERAGE_DEEP"@,
    ensures
        forall|j: int| 0 <= j < configs_for(p, code).len() ==> (decl_block(assoc(#[trigger] configs_for(p, code)[j]@, "where"@)) is Some),
{
    let d = crate::profile::decl_profile(p.spec_raw())->0;
    crate::profile::lemma_profile_wheres(p);
    assert(crate::profile::configs_match(assoc(p.spec_configs(), code), crate::profile::map_opt(d.state.configs, code)));
    assert forall|j: int| 0 <= j < configs_for(p, code).len() implies (decl_block(
        assoc(#[trigger] configs_for(p, code)[j]@, "where"@),
    ) is Some) by {
        let es = d.state.configs[code][j];
        assert(crate::profile::config_holds(configs_for(p, code)[j], es));
        assert(assoc(configs_for(p, code)[j]@, "where"@) == crate::yaml::last_value(es, "where"@));
    }
}

/// Collect every finding, in collection order.
fn collect(graph: &LatticeGraph, profile: &Profile) -> (r: Vec<Issue>)
    requires
        graph.wf(),
        profile.wf(),
    ensures
        issues_view(r@) == collected(*graph, *profile),
{
    let mut issues: Vec<Issue> = Vec::new();
    crate::checks::check_overrides(profile, &mut issues);
    crate::checks::check_nodes(graph, profile, &mut issues);
    crate::checks::check_edges(graph, profile, &mut issues);
    let ghost c1 = issues_view(issues@);
    let empty: Vec<ValidationConfig> = Vec::new();
    let cov: &Vec<ValidationConfig> = match assoc_get(profile.validation_configs(), "COVERAGE") {
        Some(l) => l,
        None => &empty,
    };
    assert(cov@ == configs_for(*profile, "COVERAGE"@));
    proof {
        lemma_where_ok(*profile, "COVERAGE"@);
    }
    let mut i: usize = 0;
    while i < cov.len()
        invariant
            i <= cov.len(),
            graph.wf(),
            cov@ == configs_for(*profile, "COVERAGE"@),
            forall|j: int| 0 <= j < cov.len() ==> (decl_block(assoc(#[trigger] cov@[j]@, "where"@)) is Some),
            issues_view(issues@) == c1 + coverage_all(cov@, i as nat, *graph, *profile),
        decreases cov.len() - i,
    {
        crate::coverage::check_coverage_config(&cov[i], graph, profile, &mut issues);
        assert(issues_view(issues@) =~= c1 + coverage_all(cov@, (i + 1) as nat, *graph, *profile));
        i += 1;
    }
    let ghost c2 = issues_view(issues@);
    let deep: &Vec<ValidationConfig> = match assoc_get(profile.validation_configs(), "COVERAGE_DEEP") {
        Some(l) => l,
        None => &empty,
    };
    assert(deep@ == configs_for(*profile, "COVERAGE_DEEP"@));
    proof {
        lemma_where_ok(*profile, "COVERAGE_DEEP"@);
    }
    let mut i: usize = 0;
    while i < deep.len()
        invariant
            i <= deep.len(),
            graph.wf(),
            deep@ == configs_for(*profile, "COVERAGE_DEEP"@),
            forall|j: int| 0 <= j < deep.len() ==> (decl_block(assoc(#[trigger] deep@[j]@, "where"@)) is Some),
            issues_view(issues@) == c2 + deep_all(deep@, i as nat, *graph, *profile),
        decreases deep.len() - i,
    {
        crate::deep::check_deep_config(&deep[i], graph, profile, &mut issues);
        assert(issues_view(issues@) =~= c2 + deep_all(deep@, (i + 1) as nat, *graph, *profile));
        i += 1;
    }
    crate::checks::check_constraints(graph, profile, &mut issues);
    let mut adapter = apply_overrides(graph.adapter_issues(), profile);
    let ghost before_append = issues_view(issues@);
    let ghost adapter_view = issues_view(adapter@);
    issues.append(&mut adapter);
    assert(issues_view(issues@) =~= before_append + adapter_view);
    assert(issues_view(issues@) =~= collected(*graph, *profile));
    issues
}

/// Promote warnings to errors when `strict`.
fn promote(issues: &mut Vec<Issue>, strict: bool)
    ensures
        issues_view(final(issues)@) == Seq::new(
            issues_view(old(issues)@).len(),
            |i: int| strictened(issues_view(old(issues)@)[i], strict),
        ),
{
    let ghost start = issues_view(issues@);
    let mut k: usize = 0;
    while k < issues.len()
        invariant
            k <= issues.len(),
            start.len() == issues.len(),
            forall|x: int| 0 <= x < k ==> #[trigger] issues_view(issues@)[x] == strictened(start[x], strict),
            forall|x: int| k <= x < issues.len() ==> #[trigger] issues_view(issues@)[x] == start[x],
        decreases issues.len() - k,
    {
        let ghost before = issues_view(issues@);
        if strict && issues[k].severity == Severity::Warning {
            let mut it = issues[k].copy();
            it.severity = Severity::Error;
            issues.set(k, it);
            assert(issues_view(issues@) =~= before.update(k as int, it@));
        }
        assert(issues_view(issues@)[k as int] == strictened(start[k as int], strict));
        k += 1;
    }
    assert(issues_view(issues@) =~= Seq::new(start.len(), |i: int| strictened(start[i], strict)));
}

/// Check a graph against its profile and return every finding, in reporting
/// order. Collects rather than stopping, so one malformed node never hides the
/// rest; `strict` promotes warnings to errors after collection.
/// Whether one SUPPRESS entry covers a finding.
fn suppress_covers(s: &crate::profile::SuppressConfig, it: &Issue) -> (r: bool)
    ensures
        r == covers(s@, it@),
{
    if !crate::text::str_eq(s.code.as_str(), it.code.as_str()) {
        return false;
    }
    match &s.node_ids {
        None => true,
        Some(ids) => match &it.node_id {
            None => false,
            Some(n) => {
                let ghost iv = texts(ids@);
                let mut k: usize = 0;
                #[verifier::loop_isolation(false)]
                while k < ids.len()
                    invariant
                        k <= ids.len(),
                        iv == texts(ids@),
                        iv.len() == ids.len(),
                        forall|q: int| 0 <= q < k ==> iv[q] != n@,
                    decreases ids.len() - k,
                {
                    assert(iv[k as int] == ids@[k as int]@);
                    if crate::text::str_eq(ids[k].as_str(), n.as_str()) {
                        assert(iv.contains(n@));
                        return true;
                    }
                    k += 1;
                }
                assert(!iv.contains(n@));
                false
            },
        },
    }
}

/// Mark every finding a SUPPRESS entry covers as suppressed, and no other.
fn apply_suppressions(issues: &mut Vec<Issue>, sups: &Vec<crate::profile::SuppressConfig>)
    ensures
        issues_view(final(issues)@) == Seq::new(
            issues_view(old(issues)@).len(),
            |i: int| suppressed_under(issues_view(old(issues)@)[i], crate::profile::suppressions_view(sups@)),
        ),
{
    let ghost start = issues_view(issues@);
    let ghost sv = crate::profile::suppressions_view(sups@);
    let mut k: usize = 0;
    while k < issues.len()
        invariant
            k <= issues.len(),
            start.len() == issues.len(),
            sv == crate::profile::suppressions_view(sups@),
            sv.len() == sups.len(),
            forall|q: int| 0 <= q < sups.len() ==> #[trigger] sv[q] == sups@[q]@,
            forall|x: int| 0 <= x < k ==> #[trigger] issues_view(issues@)[x] == suppressed_under(start[x], sv),
            forall|x: int| k <= x < issues.len() ==> #[trigger] issues_view(issues@)[x] == start[x],
        decreases issues.len() - k,
    {
        let ghost before = issues_view(issues@);
        let mut hit = false;
        let mut q: usize = 0;
        #[verifier::loop_isolation(false)]
        while q < sups.len()
            invariant
                q <= sups.len(),
                k < issues.len(),
                sv.len() == sups.len(),
                forall|x: int| 0 <= x < sups.len() ==> #[trigger] sv[x] == sups@[x]@,
                hit == exists|x: int| 0 <= x < q && covers(#[trigger] sv[x], issues@[k as int]@),
            decreases sups.len() - q,
        {
            let c = suppress_covers(&sups[q], &issues[k]);
            assert(sv[q as int] == sups@[q as int]@);
            assert(c == covers(sv[q as int], issues@[k as int]@));
            if c {
                hit = true;
            }
            q += 1;
        }
        assert(before[k as int] == issues@[k as int]@);
        assert(hit == is_suppressed_by(sv, start[k as int]));
        let mut it = issues[k].copy();
        it.suppressed = hit;
        issues.set(k, it);
        assert(issues_view(issues@) =~= before.update(k as int, it@));
        assert(issues_view(issues@)[k as int] == suppressed_under(start[k as int], sv));
        k += 1;
    }
    assert(issues_view(issues@) =~= Seq::new(start.len(), |i: int| suppressed_under(start[i], sv)));
}

pub fn validate(graph: &LatticeGraph, profile: &Profile, strict: bool) -> (r: Vec<Issue>)
    requires
        graph.wf(),
        profile.wf(),
    ensures
        issues_sorted(issues_view(r@)),
        issues_view(r@).to_multiset() == spec_validate(*graph, *profile, strict).to_multiset(),
        issues_view(r@) == crate::types::sorted_stably(spec_validate(*graph, *profile, strict)),
        strict ==> forall|i: int| 0 <= i < r.len() ==> (#[trigger] r@[i]).severity != Severity::Warning,
        forall|i: int|
            0 <= i < r.len() ==> (#[trigger] r@[i]).suppressed == is_suppressed_by(
                crate::profile::suppressions_view(profile.spec_suppressions()),
                r@[i]@,
            ),
{
    let issues = collect(graph, profile);
    let mut issues = resolve_axes(issues, graph, profile);
    promote(&mut issues, strict);
    apply_suppressions(&mut issues, profile.suppressions());
    assert(issues_view(issues@) =~= spec_validate(*graph, *profile, strict));
    let ghost unsorted = issues_view(issues@);
    crate::types::sort_issues(&mut issues);
    proof {
        broadcast use vstd::seq_lib::group_to_multiset_ensures;
        let sups = crate::profile::suppressions_view(profile.spec_suppressions());
        assert forall|i: int| 0 <= i < issues.len() implies (#[trigger] issues@[i]).suppressed == is_suppressed_by(sups, issues@[i]@) by {
            let v = issues_view(issues@)[i];
            assert(issues_view(issues@).contains(v));
            assert(unsorted.to_multiset().count(v) > 0);
            assert(unsorted.contains(v));
        }
        if strict {
            law_strict_leaves_no_warning(*graph, *profile);
            assert forall|i: int| 0 <= i < issues.len() implies (#[trigger] issues@[i]).severity != Severity::Warning by {
                let v = issues_view(issues@)[i];
                assert(issues_view(issues@).contains(v));
                assert(unsorted.to_multiset().count(v) > 0);
                assert(unsorted.contains(v));
            }
        }
    }
    issues
}


/// Strict and lenient validation report the same findings in the same order:
/// where the lenient run has a warning the strict run has an error, and every
/// other field is the same.
pub proof fn law_strict_lines_up_with_lenient(g: LatticeGraph, p: Profile)
    ensures
        crate::types::sorted_stably(spec_validate(g, p, true)) == crate::types::sorted_stably(
            spec_validate(g, p, false),
        ).map_values(|i: IssueView| strictened(i, true)),
{
    let f = |i: IssueView| strictened(i, true);
    assert forall|a: IssueView, b: IssueView| #[trigger] crate::types::issue_lt(f(a), f(b)) == crate::types::issue_lt(a, b) by {}
    let r = spec_resolve_axes(collected(g, p), g, p);
    let sups = crate::profile::suppressions_view(p.spec_suppressions());
    assert forall|i: int| 0 <= i < r.len() implies #[trigger] spec_validate(g, p, true)[i] == f(spec_validate(g, p, false)[i]) by {
        let x = r[i];
        assert(strictened(x, false) == x);
        assert(is_suppressed_by(sups, strictened(x, true)) == is_suppressed_by(sups, x)) by {
            if is_suppressed_by(sups, x) {
                let k = choose|k: int| 0 <= k < sups.len() && covers(#[trigger] sups[k], x);
                assert(covers(sups[k], strictened(x, true)));
            }
            if is_suppressed_by(sups, strictened(x, true)) {
                let k = choose|k: int| 0 <= k < sups.len() && covers(#[trigger] sups[k], strictened(x, true));
                assert(covers(sups[k], x));
            }
        }
    }
    assert(spec_validate(g, p, true) =~= spec_validate(g, p, false).map_values(f));
    crate::types::lemma_sorted_stably_map(spec_validate(g, p, false), f);
}

// ---------------------------------------------------------------- orphans

/// No finding of `s` carries the ORPHAN_NODE code.
pub open spec fn no_orphan_code(s: Seq<IssueView>) -> bool {
    forall|k: int| 0 <= k < s.len() ==> (#[trigger] s[k]).code != "ORPHAN_NODE"@
}

/// Every ORPHAN_NODE finding of `s` names a node that no edge of `es` has at
/// either end.
pub open spec fn orphans_unnamed(es: Seq<EdgeView>, s: Seq<IssueView>) -> bool {
    forall|k: int| 0 <= k < s.len() && (#[trigger] s[k]).code == "ORPHAN_NODE"@ ==> (s[k].node_id matches Some(x) && forall|j: int|
        0 <= j < es.len() ==> (#[trigger] es[j]).src != x && es[j].tgt != x)
}

/// Only the ORPHAN_NODE code is spelled `ORPHAN_NODE`.
proof fn lemma_other_code(c: FindingCode)
    requires
        c != FindingCode::OrphanNode,
    ensures
        code_text(c) != "ORPHAN_NODE"@,
{
    reveal_strlit("ORPHAN_NODE");
    reveal_strlit("ATTR_ENUM");
    reveal_strlit("ATTR_LIST_ITEMS");
    reveal_strlit("ATTR_REQUIRED");
    reveal_strlit("ATTR_TYPE");
    reveal_strlit("CONSTRAINT");
    reveal_strlit("PATHWAY_UNRESOLVED");
    reveal_strlit("CONFIG_ERROR");
    reveal_strlit("COVERAGE");
    reveal_strlit("COVERAGE_DEEP");
    reveal_strlit("COVERAGE_UNKNOWN");
    reveal_strlit("VACANCY");
    reveal_strlit("EDGE_CONSTRAINT");
    reveal_strlit("ID_FORMAT");
    reveal_strlit("SUGGESTED_EDGE");
    reveal_strlit("SUGGESTION_UNRESOLVED");
    reveal_strlit("UNKNOWN_KIND");
    match c {
        FindingCode::AttrEnum => assert(code_text(c).len() != "ORPHAN_NODE"@.len() || code_text(c)[0] != "ORPHAN_NODE"@[0]),
        FindingCode::AttrListItems => assert(code_text(c)[0] != "ORPHAN_NODE"@[0]),
        FindingCode::AttrRequired => assert(code_text(c)[0] != "ORPHAN_NODE"@[0]),
        FindingCode::AttrType => assert(code_text(c)[0] != "ORPHAN_NODE"@[0]),
        FindingCode::Constraint => assert(code_text(c)[0] != "ORPHAN_NODE"@[0]),
        FindingCode::PathwayUnresolved => assert(code_text(c)[0] != "ORPHAN_NODE"@[0]),
        FindingCode::ConfigError => assert(code_text(c)[0] != "ORPHAN_NODE"@[0]),
        FindingCode::Coverage => assert(code_text(c)[0] != "ORPHAN_NODE"@[0]),
        FindingCode::CoverageDeep => assert(code_text(c)[0] != "ORPHAN_NODE"@[0]),
        FindingCode::CoverageUnknown => assert(code_text(c)[0] != "ORPHAN_NODE"@[0]),
        FindingCode::Vacancy => assert(code_text(c)[0] != "ORPHAN_NODE"@[0]),
        FindingCode::EdgeConstraint => assert(code_text(c)[0] != "ORPHAN_NODE"@[0]),
        FindingCode::IdFormat => assert(code_text(c)[0] != "ORPHAN_NODE"@[0]),
        FindingCode::OrphanNode => {},
        FindingCode::SuggestedEdge => assert(code_text(c)[0] != "ORPHAN_NODE"@[0]),
        FindingCode::SuggestionUnresolved => assert(code_text(c)[0] != "ORPHAN_NODE"@[0]),
        FindingCode::UnknownKind => assert(code_text(c)[0] != "ORPHAN_NODE"@[0]),
    }
}

proof fn lemma_all_other_codes()
    ensures
        code_text(FindingCode::AttrEnum) != "ORPHAN_NODE"@,
        code_text(FindingCode::AttrListItems) != "ORPHAN_NODE"@,
        code_text(FindingCode::AttrRequired) != "ORPHAN_NODE"@,
        code_text(FindingCode::AttrType) != "ORPHAN_NODE"@,
        code_text(FindingCode::Constraint) != "ORPHAN_NODE"@,
        code_text(FindingCode::PathwayUnresolved) != "ORPHAN_NODE"@,
        code_text(FindingCode::ConfigError) != "ORPHAN_NODE"@,
        code_text(FindingCode::Coverage) != "ORPHAN_NODE"@,
        code_text(FindingCode::CoverageDeep) != "ORPHAN_NODE"@,
        code_text(FindingCode::CoverageUnknown) != "ORPHAN_NODE"@,
        code_text(FindingCode::Vacancy) != "ORPHAN_NODE"@,
        code_text(FindingCode::EdgeConstraint) != "ORPHAN_NODE"@,
        code_text(FindingCode::IdFormat) != "ORPHAN_NODE"@,
        code_text(FindingCode::UnknownKind) != "ORPHAN_NODE"@,
{
    lemma_other_code(FindingCode::AttrEnum);
    lemma_other_code(FindingCode::AttrListItems);
    lemma_other_code(FindingCode::AttrRequired);
    lemma_other_code(FindingCode::AttrType);
    lemma_other_code(FindingCode::Constraint);
    lemma_other_code(FindingCode::PathwayUnresolved);
    lemma_other_code(FindingCode::ConfigError);
    lemma_other_code(FindingCode::Coverage);
    lemma_other_code(FindingCode::CoverageDeep);
    lemma_other_code(FindingCode::CoverageUnknown);
    lemma_other_code(FindingCode::Vacancy);
    lemma_other_code(FindingCode::EdgeConstraint);
    lemma_other_code(FindingCode::IdFormat);
    lemma_other_code(FindingCode::UnknownKind);
}

proof fn lemma_pre_no_orphan(s: Seq<(String, Severity)>, n: nat, ov: Seq<(String, Severity)>)
    ensures
        no_orphan_code(pre_findings(s, n, ov)),
    decreases n,
{
    lemma_all_other_codes();
    if n > 0 && n <= s.len() {
        lemma_pre_no_orphan(s, (n - 1) as nat, ov);
    }
}

proof fn lemma_list_items_no_orphan(
    n: NodeView,
    name: Seq<char>,
    t: crate::profile::AttrType,
    items: Seq<Json>,
    k: nat,
    ov: Seq<(String, Severity)>,
)
    ensures
        no_orphan_code(crate::checks::list_item_findings(n, name, t, items, k, ov)),
    decreases k,
{
    lemma_all_other_codes();
    if k > 0 && k <= items.len() {
        lemma_list_items_no_orphan(n, name, t, items, (k - 1) as nat, ov);
    }
}

proof fn lemma_attrs_no_orphan(n: NodeView, s: Seq<(String, crate::profile::AttrSchema)>, k: nat, ov: Seq<(String, Severity)>)
    ensures
        no_orphan_code(crate::checks::attrs_findings(n, s, k, ov)),
    decreases k,
{
    lemma_all_other_codes();
    if k > 0 && k <= s.len() {
        lemma_attrs_no_orphan(n, s, (k - 1) as nat, ov);
        let name = s[k - 1].0@;
        let schema = s[k - 1].1@;
        match lookup(n.attrs, name) {
            Some(Json::Array(items)) => {
                lemma_list_items_no_orphan(n, name, schema.items->0, items, items.len(), ov);
            },
            _ => {},
        }
    }
}

proof fn lemma_edges_no_orphan(es: Seq<EdgeView>, k: nat, p: Profile, ns: Seq<NodeView>)
    ensures
        no_orphan_code(edges_findings(es, k, p, ns)),
    decreases k,
{
    lemma_all_other_codes();
    if k > 0 && k <= es.len() {
        lemma_edges_no_orphan(es, (k - 1) as nat, p, ns);
    }
}

proof fn lemma_cov_nodes_no_orphan(
    ns: Seq<NodeView>,
    k: nat,
    target: Seq<char>,
    edge: Seq<char>,
    conds: Seq<crate::profile::ConditionView>,
    es: Seq<EdgeView>,
    state: Seq<char>,
    ov: Seq<(String, Severity)>,
)
    ensures
        no_orphan_code(crate::coverage::coverage_nodes_findings(ns, k, target, edge, conds, es, state, ov)),
    decreases k,
{
    lemma_all_other_codes();
    if k > 0 && k <= ns.len() {
        lemma_cov_nodes_no_orphan(ns, (k - 1) as nat, target, edge, conds, es, state, ov);
    }
}

proof fn lemma_cov_all_no_orphan(cfgs: Seq<ValidationConfig>, k: nat, g: LatticeGraph, p: Profile)
    ensures
        no_orphan_code(coverage_all(cfgs, k, g, p)),
    decreases k,
{
    lemma_all_other_codes();
    if k > 0 && k <= cfgs.len() {
        lemma_cov_all_no_orphan(cfgs, (k - 1) as nat, g, p);
        let ns = g.spec_nodes();
        assert forall|t: Seq<char>, e: Seq<char>, conds: Seq<crate::profile::ConditionView>|
            no_orphan_code(#[trigger] crate::coverage::coverage_body(t, e, conds, g, p)) by {
            let es = g.spec_edges();
            let ek = assoc(p.spec_edge_kinds(), e)->0;
            let srcs = crate::coverage::sources(crate::profile::allowed_pairs(ek), crate::profile::allowed_pairs(ek).len(), t);
            let un = crate::coverage::unattributed(ns, ns.len(), srcs, es, e);
            lemma_cov_nodes_no_orphan(ns, ns.len(), t, e, conds, es, crate::coverage::state_text(un), p.spec_overrides());
        }
    }
}

proof fn lemma_deep_nodes_no_orphan(
    ns: Seq<NodeView>,
    k: nat,
    d: crate::deep::DeepGraph,
    target: Seq<char>,
    via: Seq<char>,
    conds: Seq<crate::profile::ConditionView>,
    state: Seq<char>,
    ov: Seq<(String, Severity)>,
)
    ensures
        no_orphan_code(crate::deep::deep_nodes_findings(ns, k, d, target, via, conds, state, ov)),
    decreases k,
{
    lemma_all_other_codes();
    if k > 0 && k <= ns.len() {
        lemma_deep_nodes_no_orphan(ns, (k - 1) as nat, d, target, via, conds, state, ov);
    }
}

proof fn lemma_deep_all_no_orphan(cfgs: Seq<ValidationConfig>, k: nat, g: LatticeGraph, p: Profile)
    ensures
        no_orphan_code(deep_all(cfgs, k, g, p)),
    decreases k,
{
    lemma_all_other_codes();
    if k > 0 && k <= cfgs.len() {
        lemma_deep_all_no_orphan(cfgs, (k - 1) as nat, g, p);
        let ns = g.spec_nodes();
        assert forall|t: Seq<char>, v: Seq<char>, ev: Seq<char>, conds: Seq<crate::profile::ConditionView>|
            no_orphan_code(#[trigger] crate::deep::deep_body(t, v, ev, conds, g, p)) by {
            let es = g.spec_edges();
            let d = crate::deep::deep_graph(g, t, v, ev);
            let ek = assoc(p.spec_edge_kinds(), ev)->0;
            let srcs = crate::coverage::sources(crate::profile::allowed_pairs(ek), crate::profile::allowed_pairs(ek).len(), t);
            let un = crate::coverage::unattributed(ns, ns.len(), srcs, es, ev);
            lemma_deep_nodes_no_orphan(ns, ns.len(), d, t, v, conds, crate::coverage::state_text(un), p.spec_overrides());
        }
    }
}

proof fn lemma_constraint_no_orphan(c: crate::profile::ConstraintView, ns: Seq<NodeView>, k: nat, ov: Seq<(String, Severity)>)
    ensures
        no_orphan_code(crate::checks::constraint_findings(c, ns, k, ov)),
    decreases k,
{
    lemma_all_other_codes();
    if k > 0 && k <= ns.len() {
        lemma_constraint_no_orphan(c, ns, (k - 1) as nat, ov);
    }
}

proof fn lemma_constraints_no_orphan(cs: Seq<crate::profile::ConstraintView>, k: nat, ns: Seq<NodeView>, ov: Seq<(String, Severity)>)
    ensures
        no_orphan_code(constraints_findings(cs, k, ns, ov)),
    decreases k,
{
    if k > 0 && k <= cs.len() {
        lemma_constraints_no_orphan(cs, (k - 1) as nat, ns, ov);
        lemma_constraint_no_orphan(cs[k - 1], ns, ns.len(), ov);
    }
}

/// The node findings: an ORPHAN_NODE finding is only ever about a node that no
/// edge has at either end.
proof fn lemma_nodes_orphans(ns: Seq<NodeView>, k: nat, p: Profile, es: Seq<EdgeView>)
    ensures
        orphans_unnamed(es, nodes_findings(ns, k, p, es)),
    decreases k,
{
    lemma_all_other_codes();
    if k > 0 && k <= ns.len() {
        lemma_nodes_orphans(ns, (k - 1) as nat, p, es);
        let n = ns[k - 1];
        match assoc(p.spec_node_kinds(), n.kind) {
            Some(nk) => {
                lemma_attrs_no_orphan(n, nk.attrs@, nk.attrs@.len(), p.spec_overrides());
                if !crate::checks::connected(es, n.id) {
                    assert forall|j: int| 0 <= j < es.len() implies (#[trigger] es[j]).src != n.id && es[j].tgt != n.id by {
                        if es[j].src == n.id || es[j].tgt == n.id {
                            assert(crate::checks::connected(es, n.id));
                        }
                    }
                }
            },
            None => {},
        }
    }
}

/// Validation reports ORPHAN_NODE only for a node no edge names: whenever it
/// reports an ORPHAN_NODE finding, the finding names a node ID that is neither
/// the source nor the target of any edge of the graph. The graph's own
/// findings, from the adapter, pass through validation as they are, so the law
/// holds of graphs whose adapter reported no ORPHAN_NODE itself.
pub proof fn law_validate_orphans_have_no_edges(g: LatticeGraph, p: Profile, strict: bool)
    requires
        forall|k: int| 0 <= k < g.spec_issues().len() ==> (#[trigger] g.spec_issues()[k]).code != "ORPHAN_NODE"@,
    ensures
        forall|k: int|
            0 <= k < spec_validate(g, p, strict).len() && (#[trigger] spec_validate(g, p, strict)[k]).code == "ORPHAN_NODE"@
                ==> (spec_validate(g, p, strict)[k].node_id matches Some(x) && forall|j: int|
                0 <= j < g.spec_edges().len() ==> (#[trigger] g.spec_edges()[j]).src != x && g.spec_edges()[j].tgt != x),
{
    lemma_all_other_codes();
    let ov = p.spec_overrides();
    let ns = g.spec_nodes();
    let es = g.spec_edges();
    let cov = configs_for(p, "COVERAGE"@);
    let deep = configs_for(p, "COVERAGE_DEEP"@);
    lemma_pre_no_orphan(ov, ov.len(), ov);
    lemma_nodes_orphans(ns, ns.len(), p, es);
    lemma_edges_no_orphan(es, es.len(), p, ns);
    lemma_cov_all_no_orphan(cov, cov.len(), g, p);
    lemma_deep_all_no_orphan(deep, deep.len(), g, p);
    lemma_constraints_no_orphan(crate::profile::constraints_view(p.spec_constraints()), p.spec_constraints().len(), ns, ov);
    let adapter = spec_apply_overrides(g.spec_issues(), ov);
    assert(no_orphan_code(adapter)) by {
        let s = g.spec_issues();
        let codes = refused_codes(s, s.len(), ov);
        assert forall|k: int| 0 <= k < adapter.len() implies (#[trigger] adapter[k]).code != "ORPHAN_NODE"@ by {
            if k < s.len() {
                assert(adapter[k] == overridden(s[k], ov));
            } else {
                assert(adapter[k] == refusal(codes[k - s.len()], ov));
            }
        }
    }
    let c = collected(g, p);
    let parts1 = pre_findings(ov, ov.len(), ov);
    let parts2 = nodes_findings(ns, ns.len(), p, es);
    assert(orphans_unnamed(es, c)) by {
        assert forall|k: int| 0 <= k < c.len() && (#[trigger] c[k]).code == "ORPHAN_NODE"@ implies (c[k].node_id matches Some(x)
            && forall|j: int| 0 <= j < es.len() ==> (#[trigger] es[j]).src != x && es[j].tgt != x) by {
            if k < parts1.len() {
                assert(c[k] == parts1[k]);
            } else if k < parts1.len() + parts2.len() {
                assert(c[k] == parts2[k - parts1.len()]);
            } else {
                let rest = edges_findings(es, es.len(), p, ns) + coverage_all(cov, cov.len(), g, p) + deep_all(deep, deep.len(), g, p)
                    + constraints_findings(crate::profile::constraints_view(p.spec_constraints()), p.spec_constraints().len(), ns, ov)
                    + adapter;
                assert(c =~= parts1 + parts2 + rest);
                assert(c[k] == rest[k - parts1.len() - parts2.len()]);
            }
        }
    }
    let r = spec_resolve_axes(c, g, p);
    assert(orphans_unnamed(es, r)) by {
        if p.spec_bindings().len() != 0 {
            let codes = unresolved_codes(c, c.len(), g, p);
            assert forall|k: int| 0 <= k < r.len() && (#[trigger] r[k]).code == "ORPHAN_NODE"@ implies (r[k].node_id matches Some(x)
                && forall|j: int| 0 <= j < es.len() ==> (#[trigger] es[j]).src != x && es[j].tgt != x) by {
                if k < c.len() {
                    assert(r[k] == axis_issue(c[k], g, p));
                    assert(r[k].code == c[k].code && r[k].node_id == c[k].node_id);
                } else {
                    assert(r[k] == unresolved(codes[k - c.len()], p));
                }
            }
        }
    }
}

/// Among the node findings of the first `k` nodes there is an ORPHAN_NODE
/// finding for node `i` when its kind is declared and not exempt and no edge
/// names it.
proof fn lemma_nodes_report_orphan(ns: Seq<NodeView>, k: nat, p: Profile, es: Seq<EdgeView>, i: int)
    requires
        k <= ns.len(),
        0 <= i < k,
        assoc(p.spec_node_kinds(), ns[i].kind) matches Some(nk) && !nk.orphan_ok,
        forall|j: int| 0 <= j < es.len() ==> (#[trigger] es[j]).src != ns[i].id && es[j].tgt != ns[i].id,
    ensures
        exists|x: int|
            0 <= x < nodes_findings(ns, k, p, es).len() && (#[trigger] nodes_findings(ns, k, p, es)[x]).code == "ORPHAN_NODE"@
                && nodes_findings(ns, k, p, es)[x].node_id == Some(ns[i].id),
    decreases k,
{
    let prev = nodes_findings(ns, (k - 1) as nat, p, es);
    let cur = nodes_findings(ns, k, p, es);
    if i == k - 1 {
        let n = ns[i];
        assert(!crate::checks::connected(es, n.id));
        let mine = crate::checks::node_findings(n, p, es);
        assert(mine.len() > 0);
        assert(mine[mine.len() - 1].code == "ORPHAN_NODE"@);
        assert(cur[cur.len() - 1] == mine[mine.len() - 1]);
    } else {
        lemma_nodes_report_orphan(ns, (k - 1) as nat, p, es, i);
        let x = choose|x: int| 0 <= x < prev.len() && (#[trigger] prev[x]).code == "ORPHAN_NODE"@ && prev[x].node_id == Some(ns[i].id);
        assert(cur[x] == prev[x]);
    }
}

/// Validation reports ORPHAN_NODE for every node of a declared kind that is
/// not exempt (`orphan_ok`) when no edge of the graph has its ID at either end.
pub proof fn law_validate_reports_unnamed_nodes(g: LatticeGraph, p: Profile, strict: bool, i: int)
    requires
        0 <= i < g.spec_nodes().len(),
        assoc(p.spec_node_kinds(), g.spec_nodes()[i].kind) matches Some(nk) && !nk.orphan_ok,
        forall|j: int|
            0 <= j < g.spec_edges().len() ==> (#[trigger] g.spec_edges()[j]).src != g.spec_nodes()[i].id && g.spec_edges()[j].tgt
                != g.spec_nodes()[i].id,
    ensures
        exists|k: int|
            0 <= k < spec_validate(g, p, strict).len() && (#[trigger] spec_validate(g, p, strict)[k]).code == "ORPHAN_NODE"@
                && spec_validate(g, p, strict)[k].node_id == Some(g.spec_nodes()[i].id),
{
    let ov = p.spec_overrides();
    let ns = g.spec_nodes();
    let es = g.spec_edges();
    let id = ns[i].id;
    lemma_nodes_report_orphan(ns, ns.len(), p, es, i);
    let parts1 = pre_findings(ov, ov.len(), ov);
    let parts2 = nodes_findings(ns, ns.len(), p, es);
    let x = choose|x: int| 0 <= x < parts2.len() && (#[trigger] parts2[x]).code == "ORPHAN_NODE"@ && parts2[x].node_id == Some(id);
    let c = collected(g, p);
    let cov = configs_for(p, "COVERAGE"@);
    let deep = configs_for(p, "COVERAGE_DEEP"@);
    let rest = edges_findings(es, es.len(), p, ns) + coverage_all(cov, cov.len(), g, p) + deep_all(deep, deep.len(), g, p)
        + constraints_findings(crate::profile::constraints_view(p.spec_constraints()), p.spec_constraints().len(), ns, ov)
        + spec_apply_overrides(g.spec_issues(), ov);
    assert(c =~= parts1 + parts2 + rest);
    let y = parts1.len() + x;
    assert(c[y] == parts2[x]);
    let r = spec_resolve_axes(c, g, p);
    if p.spec_bindings().len() != 0 {
        assert(r[y] == axis_issue(c[y], g, p));
    }
    assert(r[y].code == "ORPHAN_NODE"@ && r[y].node_id == Some(id));
    let v = spec_validate(g, p, strict);
    assert(v[y].code == "ORPHAN_NODE"@ && v[y].node_id == Some(id));
}

} // verus!
