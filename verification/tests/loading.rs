use lattice::adapter::Document;
use lattice::at::at;
use lattice::fuse::{parse_trace, SourceTrace, TracePathway};
use lattice::gitlab::{Config as GitlabConfig, LinkMapping};
use lattice::gitlabissues::{keep_decoded, map_issues, GitLabIssue, IssueLink};
use lattice::graph::LatticeGraph;
use lattice::inherit::{inherit, merge_profile_values, parse_profile_text, take_extends};
use lattice::ingest::parse_document;
use lattice::json::JsonValue;
use lattice::profile::{load_profile_value, parse_suppress, Profile};
use lattice::render::strip_ansi;
use lattice::suggest::render_suggestions;
use lattice::types::Provenance;
use lattice::validate::validate;
use lattice::yaml::{YamlEntry, YamlValue};

fn s(t: &str) -> String {
    t.to_string()
}

fn parsed(text: &str) -> YamlValue {
    match parse_profile_text(text, "fixture") {
        Ok(v) => v,
        Err(e) => panic!("fixture parses: {}", e.0),
    }
}

fn loaded(text: &str) -> Profile {
    match load_profile_value(parsed(text), "profile.yaml") {
        Ok(p) => p,
        Err(e) => panic!("fixture loads: {}", e.0),
    }
}

fn refusal(text: &str) -> String {
    match load_profile_value(parsed(text), "p") {
        Ok(_) => panic!("profile should be refused"),
        Err(e) => e.0,
    }
}

fn entries(v: &YamlValue) -> &Vec<YamlEntry> {
    match v {
        YamlValue::Mapping(m) => m,
        _ => panic!("expected a mapping"),
    }
}

fn orphan_graph() -> LatticeGraph {
    let mut graph = LatticeGraph::new();
    graph
        .add_node(s("REQ-1"), s("req"), Vec::new(), Provenance::new("requirements.md", 1))
        .ok()
        .expect("unique");
    graph
        .add_node(s("REQ-2"), s("req"), Vec::new(), Provenance::new("requirements.md", 2))
        .ok()
        .expect("unique");
    graph
}

const BASE: &str = "name: t\nprofile_version: \"1.0.0\"\nnode_kinds:\n  req:\n    id_pattern: \"^REQ-[0-9]+$\"\nedge_kinds: {}\n";

#[test]
fn suppress_marks_matching_findings_and_keeps_them() {
    let profile = loaded(&format!("{BASE}validations:\n  - SUPPRESS:\n      code: ORPHAN_NODE\n"));
    let findings = validate(&orphan_graph(), &profile, false);
    let orphans: Vec<_> = findings.iter().filter(|f| f.code == "ORPHAN_NODE").collect();
    assert_eq!(orphans.len(), 2);
    assert!(orphans.iter().all(|f| f.suppressed && !f.gates()));
}

#[test]
fn suppress_by_node_ids_marks_only_those_nodes() {
    let profile = loaded(&format!(
        "{BASE}validations:\n  - SUPPRESS:\n      code: ORPHAN_NODE\n      node_ids: [REQ-2]\n"
    ));
    let findings = validate(&orphan_graph(), &profile, false);
    for f in findings.iter().filter(|f| f.code == "ORPHAN_NODE") {
        assert_eq!(f.suppressed, f.node_id.as_deref() == Some("REQ-2"));
    }
}

#[test]
fn without_suppress_no_finding_is_suppressed() {
    let profile = loaded(BASE);
    assert!(validate(&orphan_graph(), &profile, false).iter().all(|f| !f.suppressed));
}

#[test]
fn strip_ansi_removes_complete_sequences_only() {
    assert_eq!(strip_ansi("\u{1b}[1;31mred\u{1b}[0m done"), "red done");
    assert_eq!(strip_ansi("a\u{1b}[12- b"), "a\u{1b}[12- b");
    assert_eq!(strip_ansi("a\u{1b}[12x b"), "a b");
    assert_eq!(strip_ansi("tail \u{1b}[3"), "tail \u{1b}[3");
    assert_eq!(strip_ansi("plain text"), "plain text");
}

#[test]
fn profile_version_refusals_name_the_version() {
    let with = |v: &str| format!("name: t\nprofile_version: \"{v}\"\nnode_kinds: {{}}\nedge_kinds: {{}}\n");
    assert_eq!(refusal(&with("2.0.0")), "unsupported profile version 2.0.0 (supported major: 1)");
    assert!(refusal(&with("01.0.0")).starts_with("profile_version '01.0.0' is not a valid version"));
    assert!(refusal(&with("1.0")).starts_with("profile_version '1.0' is not a valid version"));
    let ok = loaded(&with("1.0.0"));
    assert_eq!(ok.profile_version(), "1.0.0");
    assert_eq!(ok.name(), "t");
}

#[test]
fn missing_required_key_names_the_first_missing() {
    assert_eq!(refusal("name: t\nprofile_version: \"1.0.0\"\n"), "p: missing required key 'node_kinds'");
    assert_eq!(refusal("node_kinds: {}\n"), "p: missing required key 'name'");
    assert_eq!(refusal("- a\n"), "p: expected a YAML mapping at top level");
}

#[test]
fn suppress_refusal_texts() {
    let e = parse_suppress(entries(&parsed("code: CONFIG_ERROR\n"))).err().expect("refused").0;
    assert_eq!(
        e,
        "validation config for 'SUPPRESS': CONFIG_ERROR cannot be suppressed; it reports that the profile itself is broken"
    );
    let ok = parse_suppress(entries(&parsed("code: ORPHAN_NODE\n"))).ok().expect("accepted");
    assert_eq!(ok.code, "ORPHAN_NODE");
    assert!(ok.node_ids.is_none());
    let e = parse_suppress(entries(&parsed("code: ORPHAN_NODE\nreason: x\n"))).err().expect("refused").0;
    assert!(e.contains("unknown keys [\"reason\"]"));
    let e = parse_suppress(entries(&parsed("node_ids: []\n"))).err().expect("refused").0;
    assert_eq!(e, "validation config for 'SUPPRESS': missing required key 'code'");
}

fn trace(version: &str, pathways: Vec<TracePathway>) -> SourceTrace {
    SourceTrace {
        header: vec![(s("trace_version"), s(version))],
        entries: Vec::new(),
        unattachable_findings: Vec::new(),
        pathways,
    }
}

#[test]
fn trace_version_two_is_accepted_and_three_refused() {
    assert!(parse_trace(Ok(trace("2", Vec::new())), "s").is_ok());
    assert_eq!(
        parse_trace(Ok(trace("3", Vec::new())), "s").err().expect("refused"),
        "source 's' emitted invalid trace JSON: unsupported or missing trace_version"
    );
}

#[test]
fn repeated_trace_pathway_is_refused() {
    let p = || TracePathway { name: s("release"), order: vec![s("a"), s("b")], current: s("a") };
    assert_eq!(
        parse_trace(Ok(trace("2", vec![p(), p()])), "s").err().expect("refused"),
        "source 's' emitted invalid trace JSON: repeated pathway 'release'"
    );
    assert!(parse_trace(Ok(trace("2", vec![p()])), "s").is_ok());
}

#[test]
fn blank_adapter_output_is_refused() {
    assert_eq!(parse_document("  \n").err().expect("refused").0, "adapter emitted no output");
    assert!(parse_document("{").err().expect("refused").0.starts_with("could not parse adapter output as JSON: "));
    match parse_document("{\"a\": 1}") {
        Ok(JsonValue::Object(m)) => {
            assert_eq!(m[0].0, "a");
            assert!(matches!(m[0].1, JsonValue::Int(1)));
        },
        _ => panic!("expected an object"),
    }
}

fn key_texts(v: &YamlValue) -> Vec<String> {
    entries(v).iter().map(|e| e.key_text.clone()).collect()
}

#[test]
fn merge_deep_merges_mappings_child_winning() {
    let merged = merge_profile_values(parsed("a: 1\nb:\n  x: 1\n  y: 2\n"), parsed("b:\n  y: 3\n  z: 4\nc: 5\n"));
    assert_eq!(key_texts(&merged), vec![s("a"), s("b"), s("c")]);
    let b = &entries(&merged)[1].value;
    assert_eq!(key_texts(b), vec![s("x"), s("y"), s("z")]);
    assert!(matches!(entries(b)[1].value, YamlValue::Int(3)));
    let replaced = merge_profile_values(parsed("a: [1, 2]\n"), parsed("a: [3]\n"));
    assert!(matches!(&entries(&replaced)[0].value, YamlValue::List(v) if v.len() == 1));
}

#[test]
fn extends_is_taken_out_and_checked() {
    let (rest, parent) = take_extends(parsed("extends: base.yaml\nprofile_version: \"1.0.0\"\nname: c\n"), "profile c.yaml")
        .ok()
        .expect("accepted");
    assert_eq!(parent.as_deref(), Some("base.yaml"));
    assert_eq!(key_texts(&rest), vec![s("profile_version"), s("name")]);
    let e = take_extends(parsed("extends: base.yaml\nname: c\n"), "profile c.yaml").err().expect("refused").0;
    assert_eq!(
        e,
        "profile c.yaml: child must declare its own 'profile_version' (inheriting it from a parent is not allowed)"
    );
    let e = take_extends(parsed("extends: 3\nprofile_version: \"1.0.0\"\n"), "profile c.yaml").err().expect("refused").0;
    assert_eq!(e, "profile c.yaml: 'extends' must be a string, got int");
    let (same, none) = take_extends(parsed("name: c\n"), "profile c.yaml").ok().expect("accepted");
    assert!(none.is_none());
    assert_eq!(key_texts(&same), vec![s("name")]);
}

#[test]
fn parent_must_be_a_mapping() {
    let e = inherit(parsed("- a\n"), parsed("name: c\n"), "profile c.yaml", "base.yaml").err().expect("refused").0;
    assert_eq!(e, "profile c.yaml: parent 'base.yaml' is not a YAML mapping");
    let merged = inherit(parsed("name: b\nx: 1\n"), parsed("name: c\n"), "profile c.yaml", "base.yaml").ok().expect("merged");
    assert_eq!(key_texts(&merged), vec![s("name"), s("x")]);
    assert!(matches!(&entries(&merged)[0].value, YamlValue::Str(n) if n == "c"));
}

#[test]
fn unreadable_profile_text_is_refused() {
    let e = parse_profile_text("a: [", "p.yaml").err().expect("refused").0;
    assert!(e.starts_with("failed to read profile p.yaml: "));
}

fn default_attrs_by_kind() -> Vec<(String, Vec<String>)> {
    vec![
        (s("issue"), vec![s("state"), s("summary")]),
        (s("requirement"), vec![s("assignee"), s("labels"), s("state"), s("summary")]),
    ]
}

fn default_link_type_map() -> Vec<(String, LinkMapping)> {
    vec![
        (s("blocks"), LinkMapping { edge_kind: s("depends_on"), reverse: true }),
        (s("is_blocked_by"), LinkMapping { edge_kind: s("depends_on"), reverse: false }),
        (s("relates_to"), LinkMapping { edge_kind: s("relates_to"), reverse: false }),
    ]
}

#[test]
fn malformed_issue_is_reported_without_losing_valid_issues() {
    let config = GitlabConfig {
        project: None,
        label_map: Vec::new(),
        default_kind: s("issue"),
        edge_patterns: Vec::new(),
        link_type_map: default_link_type_map(),
        attrs_by_kind: default_attrs_by_kind(),
    };
    let valid = GitLabIssue {
        iid: 2,
        project_id: Some(10),
        title: s("Valid issue"),
        state: s("opened"),
        labels: Vec::new(),
        assignee: None,
        description: None,
    };
    let decoded = vec![Err(s("invalid type: string \"bad\", expected u64")), Ok(valid)];
    let mut document = Document::default();
    let issues = keep_decoded(&mut document, "group/project", decoded);
    let links: Vec<Result<Vec<IssueLink>, String>> = issues.iter().map(|_| Ok(Vec::new())).collect();
    map_issues(&mut document, "group/project", &config, &issues, &links);
    assert_eq!(document.nodes.len(), 1);
    assert_eq!(document.nodes[0].id, "#2");
    assert_eq!(document.findings.len(), 1);
    assert_eq!(document.findings[0].code, "PARSE_ERROR");
    assert_eq!(document.findings[0].message, "issue response 1: invalid type: string \"bad\", expected u64");
}

#[test]
fn at_reports_entries_declared_under_the_path() {
    let profile = loaded(BASE);
    let mut graph = LatticeGraph::new();
    graph.add_node(s("REQ-1"), s("req"), Vec::new(), Provenance::new("docs/a.md", 1)).ok().expect("unique");
    graph.add_node(s("REQ-2"), s("req"), Vec::new(), Provenance::new("other/b.md", 1)).ok().expect("unique");
    let issues = validate(&graph, &profile, false);
    let report = at(&graph, &profile, issues, "t", "docs/", false, "0.1.0").ok().expect("posed");
    assert_eq!(report.path, "docs/");
    assert_eq!(report.entries.len(), 1);
    assert_eq!(report.entries[0].id, "REQ-1");
    assert!(report.findings.iter().all(|f| f.provenance.file.starts_with("docs/")));
}

#[test]
fn at_refuses_a_path_nothing_names() {
    let profile = loaded(BASE);
    let graph = orphan_graph();
    let issues = validate(&graph, &profile, false);
    let e = at(&graph, &profile, issues, "t", "nowhere", false, "0.1.0").err().expect("refused");
    assert_eq!(e.0, "path 'nowhere' does not exist under the target and no provenance names it");
    let issues = validate(&graph, &profile, false);
    assert!(at(&graph, &profile, issues, "t", "nowhere", true, "0.1.0").is_ok());
}

#[test]
fn suggestions_render_in_document_order() {
    let graph = orphan_graph();
    let doc = parse_document(
        "{\"suggestion_version\": \"1.0\", \"producer\": \"emb\", \"suggestions\": [\
         {\"src\": \"REQ-1\", \"tgt\": \"REQ-2\", \"kind\": \"derives\", \"score\": 0.5, \"basis\": \"close\"},\
         {\"src\": \"REQ-1\", \"tgt\": \"REQ-9\", \"kind\": \"derives\", \"score\": 1, \"basis\": \"far\"}]}",
    )
    .ok()
    .expect("parses");
    let issues = render_suggestions(&doc, &graph, &vec![s("0.5000"), s("1.0000")]).ok().expect("rendered");
    assert_eq!(issues.len(), 2);
    assert_eq!(issues[0].code, "SUGGESTED_EDGE");
    assert_eq!(issues[0].message, "'REQ-1' derives 'REQ-2' (score 0.5000, emb): close");
    assert_eq!(issues[0].provenance.file, "requirements.md");
    assert_eq!(issues[1].code, "SUGGESTION_UNRESOLVED");
    assert_eq!(issues[1].message, "suggestion from 'emb' proposes 'derives' REQ-1 -> REQ-9: REQ-9 does not resolve");
}

#[test]
fn unsupported_suggestion_version_is_refused() {
    let graph = orphan_graph();
    let doc = parse_document("{\"suggestion_version\": \"2.0\", \"producer\": \"emb\"}").ok().expect("parses");
    let e = render_suggestions(&doc, &graph, &Vec::new()).err().expect("refused");
    assert_eq!(e.0, "unsupported suggestion version '2.0'; this lattice supports 1.0");
    let doc = parse_document("{\"suggestion_version\": \"1.0\", \"producer\": \"emb\", \"suggestions\": [{\"src\": \"a\", \"score\": \"x\"}]}")
        .ok()
        .expect("parses");
    let e = render_suggestions(&doc, &graph, &Vec::new()).err().expect("refused");
    assert_eq!(e.0, "suggestion 0: 'score' must be a number, got string");
}

#[test]
fn strict_and_lenient_runs_line_up() {
    let profile = loaded(BASE);
    let graph = orphan_graph();
    let lenient = validate(&graph, &profile, false);
    let strict = validate(&graph, &profile, true);
    assert_eq!(lenient.len(), strict.len());
    assert!(!lenient.is_empty());
    for (a, b) in lenient.iter().zip(strict.iter()) {
        assert_eq!(a.code, b.code);
        assert_eq!(a.message, b.message);
        assert_eq!(a.node_id, b.node_id);
        let expected = if a.severity == lattice::types::Severity::Warning { lattice::types::Severity::Error } else { a.severity };
        assert_eq!(b.severity, expected);
    }
}

fn edge_graph(edges: &[(&str, &str)]) -> LatticeGraph {
    let mut graph = LatticeGraph::new();
    for id in ["REQ-1", "REQ-2", "REQ-3"] {
        graph.add_node(s(id), s("req"), Vec::new(), Provenance::new("r.md", 1)).ok().expect("unique");
    }
    for (src, tgt) in edges {
        graph.add_edge(
            lattice::graph::EdgeSpec { src: s(src), tgt: s(tgt), kind: s("derives"), attrs: Vec::new() },
            Provenance::new("r.md", 2),
        );
    }
    graph
}

#[test]
fn diff_edge_counts_balance() {
    let a = edge_graph(&[("REQ-1", "REQ-2"), ("REQ-1", "REQ-2"), ("REQ-2", "REQ-3")]);
    let b = edge_graph(&[("REQ-1", "REQ-2"), ("REQ-1", "REQ-3"), ("REQ-1", "REQ-3")]);
    let d = lattice::diff::diff("a", &a, "b", &b);
    let count = |list: &Vec<lattice::query::EdgeRef>, src: &str, tgt: &str| {
        list.iter().filter(|e| e.src == src && e.tgt == tgt).count() as i64
    };
    assert_eq!(count(&d.edges_added, "REQ-1", "REQ-2") - count(&d.edges_removed, "REQ-1", "REQ-2"), 1 - 2);
    assert_eq!(count(&d.edges_added, "REQ-1", "REQ-3") - count(&d.edges_removed, "REQ-1", "REQ-3"), 2);
    assert_eq!(count(&d.edges_added, "REQ-2", "REQ-3") - count(&d.edges_removed, "REQ-2", "REQ-3"), -1);
    for e in &d.edges_added {
        assert_eq!(count(&d.edges_removed, &e.src, &e.tgt), 0);
    }
}

#[test]
fn loaded_profile_refuses_suppressing_config_error() {
    let text = format!("{BASE}validations:\n  - SUPPRESS:\n      code: CONFIG_ERROR\n");
    assert!(load_profile_value(parsed(&text), "p").is_err());
}
