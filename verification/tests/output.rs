use lattice::ingest::{ingest_document, parse_document};
use lattice::inherit::parse_profile_text;
use lattice::output::{
    counts_json, escape_non_ascii, orphans_json, output_findings, parse_format, path_json, reach_json, render_json, Format,
};
use lattice::query::{CountsReport, NodeRef, OrphanEntry, OrphansReport, PathReport, ReachReport};
use lattice::profile::load_profile_value;
use lattice::types::{Issue, Provenance, Severity};
use lattice::validate::validate;

fn issue(severity: Severity, code: &str, message: &str, file: &str, line: i64) -> Issue {
    Issue::new(severity, code, message.to_string(), Provenance::new(file, line), None)
}

#[test]
fn unknown_formats_are_refused_by_name() {
    assert!(matches!(parse_format("plain"), Ok(Format::Plain)));
    assert!(matches!(parse_format("json"), Ok(Format::Json)));
    assert!(matches!(parse_format("rich"), Ok(Format::Rich)));
    let e = parse_format("xml").err().expect("refused");
    assert_eq!(e.0, "xml");
    assert_eq!(e.text(), "unknown format: xml");
    let e = output_findings(&Vec::new(), "yaml").err().expect("refused");
    assert_eq!(e.text(), "unknown format: yaml");
}

#[test]
fn non_ascii_is_escaped_as_utf16_units() {
    assert_eq!(escape_non_ascii("plain ascii"), "plain ascii");
    assert_eq!(escape_non_ascii("a\u{e9}b"), "a\\u00e9b");
    assert_eq!(escape_non_ascii("\u{1f600}"), "\\ud83d\\ude00");
}

#[test]
fn findings_json_is_a_rooted_sorted_array() {
    let mut second = issue(Severity::Warning, "UNTRACED", "z\u{e9}", "b.md", 2);
    second.node_id = Some("REQ-2".to_string());
    second.state = Some("open".to_string());
    let first = issue(Severity::Error, "ORPHAN", "lone", "a.md", 1);
    let text = output_findings(&vec![second, first], "json").ok().expect("known format");
    let expected = "{\n  \"findings\": [\n    {\n      \"code\": \"ORPHAN\",\n      \"file\": \"a.md\",\n      \"line\": 1,\n      \"message\": \"lone\",\n      \"node_id\": null,\n      \"severity\": \"error\"\n    },\n    {\n      \"code\": \"UNTRACED\",\n      \"file\": \"b.md\",\n      \"line\": 2,\n      \"message\": \"z\\u00e9\",\n      \"node_id\": \"REQ-2\",\n      \"severity\": \"warning\",\n      \"state\": \"open\"\n    }\n  ]\n}";
    assert_eq!(text, expected);
}

#[test]
fn plain_output_of_a_lone_node_reports_it_orphaned() {
    let profile_yaml = "name: demo\nprofile_version: \"1.0.0\"\nnode_kinds:\n  req:\n    id_pattern: \"^REQ-\\\\d+$\"\nedge_kinds: {}\n";
    let raw = parse_profile_text(profile_yaml, "demo.yaml").ok().expect("parses");
    let profile = load_profile_value(raw, "demo.yaml").ok().expect("loads");
    let text = r#"{
  "interface_version": "1.2",
  "nodes": [{"id": "REQ-1", "kind": "req", "attrs": {},
             "provenance": {"file": "reqs.md", "line": 3}}],
  "edges": [], "pathways": [], "findings": []
}"#;
    let document = parse_document(text).ok().expect("parses");
    let graph = ingest_document(&document).ok().expect("ingests");
    let issues = validate(&graph, &profile, false);
    let rendered = output_findings(&issues, "plain").ok().expect("known format");
    assert_eq!(
        rendered,
        "WARNING ORPHAN_NODE reqs.md:3 node 'REQ-1' has no edges"
    );
}

#[test]
fn diff_lists_added_and_removed_ids_once_in_id_order() {
    let mut a = lattice::graph::LatticeGraph::new();
    let mut b = lattice::graph::LatticeGraph::new();
    for id in ["REQ-3", "REQ-1"] {
        a.add_node(id.to_string(), "req".to_string(), Vec::new(), Provenance::new("a.md", 1)).ok().expect("unique");
    }
    for id in ["REQ-9", "REQ-1", "REQ-4"] {
        b.add_node(id.to_string(), "req".to_string(), Vec::new(), Provenance::new("b.md", 1)).ok().expect("unique");
    }
    let d = lattice::diff::diff("a", &a, "b", &b);
    let added: Vec<&str> = d.nodes_added.iter().map(|n| n.id.as_str()).collect();
    let removed: Vec<&str> = d.nodes_removed.iter().map(|n| n.id.as_str()).collect();
    assert_eq!(added, vec!["REQ-4", "REQ-9"]);
    assert_eq!(removed, vec!["REQ-3"]);
}

#[test]
fn query_answers_render_as_json() {
    let counts = CountsReport {
        nodes: vec![("req".to_string(), 2)],
        edges: vec![("derives".to_string(), 0)],
    };
    assert_eq!(
        render_json(&counts_json(&counts)),
        "{\n  \"edges\": {\n    \"derives\": 0\n  },\n  \"nodes\": {\n    \"req\": 2\n  }\n}"
    );
    let orphans = OrphansReport {
        kind_filter: None,
        orphans: vec![OrphanEntry { id: "REQ-1".to_string(), kind: "req".to_string(), provenance: Provenance::new("r.md", 4) }],
    };
    assert_eq!(
        render_json(&orphans_json(&orphans)),
        "{\n  \"kind_filter\": null,\n  \"orphans\": [\n    {\n      \"file\": \"r.md\",\n      \"id\": \"REQ-1\",\n      \"kind\": \"req\",\n      \"line\": 4\n    }\n  ]\n}"
    );
    let reach = ReachReport {
        origin: "REQ-1".to_string(),
        direction: "reaches".to_string(),
        edge_kinds: vec!["derives".to_string()],
        nodes: vec![NodeRef { id: "REQ-2".to_string(), kind: "req".to_string(), tainted: Some(true) }],
    };
    assert_eq!(
        render_json(&reach_json(&reach)),
        "{\n  \"direction\": \"reaches\",\n  \"edge_kinds\": [\n    \"derives\"\n  ],\n  \"nodes\": [\n    {\n      \"id\": \"REQ-2\",\n      \"kind\": \"req\",\n      \"tainted\": true\n    }\n  ],\n  \"origin\": \"REQ-1\"\n}"
    );
    let path = PathReport::not_found("A".to_string(), "B".to_string());
    assert_eq!(
        render_json(&path_json(&path)),
        "{\n  \"edges\": [],\n  \"found\": false,\n  \"nodes\": [],\n  \"src\": \"A\",\n  \"tgt\": \"B\"\n}"
    );
}

#[test]
fn structural_counts_render_in_rich_and_json() {
    let report = lattice::summary::StructuralSummary {
        node_counts: vec![("req".to_string(), 3)],
        edge_counts: vec![("derives".to_string(), 12)],
        finding_counts: vec![lattice::summary::FindingTally { code: "ORPHAN_NODE".to_string(), severity: Severity::Warning, count: 1 }],
    };
    assert_eq!(
        lattice::render::format_structural_rich(&report),
        "Nodes\n  req                                3\nEdges\n  derives                           12\nFindings\n  ORPHAN_NODE warning                1"
    );
    assert_eq!(
        render_json(&lattice::output::structural_json(&report)),
        "{\n  \"edge_counts\": {\n    \"derives\": 12\n  },\n  \"finding_counts\": [\n    {\n      \"code\": \"ORPHAN_NODE\",\n      \"count\": 1,\n      \"severity\": \"warning\"\n    }\n  ],\n  \"node_counts\": {\n    \"req\": 3\n  }\n}"
    );
}

#[test]
fn rollup_rows_carry_the_group_in_key_order() {
    let report = lattice::summary::StatusRollup {
        group_key: "milestone".to_string(),
        status_keys: vec!["done".to_string(), "open".to_string()],
        groups: vec![
            ("M1".to_string(), vec![("done".to_string(), 1), ("open".to_string(), 2), ("total".to_string(), 3)]),
            ("M2".to_string(), vec![("done".to_string(), 4), ("total".to_string(), 4)]),
        ],
    };
    assert_eq!(
        render_json(&lattice::output::rollup_json(&report)),
        "{\n  \"groups\": [\n    {\n      \"done\": 1,\n      \"milestone\": \"M1\",\n      \"open\": 2,\n      \"total\": 3\n    },\n    {\n      \"done\": 4,\n      \"milestone\": \"M2\",\n      \"total\": 4\n    }\n  ],\n  \"totals\": {\n    \"done\": 5,\n    \"open\": 2,\n    \"total\": 7\n  }\n}"
    );
}
