use lattice::diff::diff;
use lattice::graph::{EdgeSpec, LatticeGraph};
use lattice::json::JsonValue;
use lattice::profile::{load_profile_value, Profile};
use lattice::summary::{build_summary, tally_findings, SummaryReport};
use lattice::types::{Issue, Provenance, Severity};
use lattice::yaml::{YamlEntry, YamlValue};

fn yaml(value: &serde_norway::Value) -> YamlValue {
    match value {
        serde_norway::Value::Null => YamlValue::Null,
        serde_norway::Value::Bool(b) => YamlValue::Bool(*b),
        serde_norway::Value::Number(n) => match n.as_i64() {
            Some(i) => YamlValue::Int(i as i128),
            None => YamlValue::Float(n.to_string()),
        },
        serde_norway::Value::String(s) => YamlValue::Str(s.clone()),
        serde_norway::Value::Sequence(items) => YamlValue::List(items.iter().map(yaml).collect()),
        serde_norway::Value::Mapping(m) => YamlValue::Mapping(
            m.iter()
                .map(|(k, v)| YamlEntry {
                    key: yaml(k),
                    key_text: match k {
                        serde_norway::Value::String(s) => s.clone(),
                        other => format!("{other:?}"),
                    },
                    value: yaml(v),
                })
                .collect(),
        ),
        serde_norway::Value::Tagged(t) => YamlValue::Tagged(t.tag.to_string(), Box::new(yaml(&t.value))),
    }
}

fn profile_from(text: &str) -> Profile {
    let value: serde_norway::Value = serde_norway::from_str(text).expect("fixture parses");
    match load_profile_value(yaml(&value), "profile.yaml") {
        Ok(p) => p,
        Err(e) => panic!("fixture loads: {}", e.0),
    }
}

const KINDS: &str = "name: t\nprofile_version: \"1.0.0\"\n\
    node_kinds:\n  req:\n    id_pattern: \"^REQ-[0-9]+$\"\n    attrs:\n      status:\n        type: enum\n        values: [draft, done, dropped]\n\
    edge_kinds:\n  derives:\n    allowed: [[req, req]]\n";

fn text(s: &str) -> JsonValue {
    JsonValue::Str(s.to_owned())
}

fn node(g: &mut LatticeGraph, id: &str, attrs: Vec<(&str, JsonValue)>, line: i64) {
    let attrs = attrs.into_iter().map(|(k, v)| (k.to_owned(), v)).collect();
    g.add_node(id.into(), "req".into(), attrs, Provenance::new("reqs.md", line)).ok().expect("unique node");
}

fn edge(g: &mut LatticeGraph, src: &str, tgt: &str, attrs: Vec<(&str, JsonValue)>, line: i64) {
    let attrs = attrs.into_iter().map(|(k, v)| (k.to_owned(), v)).collect();
    g.add_edge(
        EdgeSpec { src: src.into(), tgt: tgt.into(), kind: "derives".into(), attrs },
        Provenance::new("reqs.md", line),
    );
}

fn register() -> LatticeGraph {
    let mut g = LatticeGraph::new();
    node(&mut g, "REQ-1", vec![("area", text("core")), ("status", text("draft"))], 1);
    node(&mut g, "REQ-2", vec![("area", text("core")), ("status", text("done"))], 2);
    node(&mut g, "REQ-3", vec![("area", text("ui")), ("status", text("review"))], 3);
    node(&mut g, "REQ-4", vec![], 4);
    g
}

fn count(row: &[(String, i64)], key: &str) -> Option<i64> {
    row.iter().find(|(k, _)| k == key).map(|(_, v)| *v)
}

#[test]
fn rollup_counts_every_status_column_per_group() {
    let profile = profile_from(&format!(
        "{KINDS}validations:\n  - SUMMARY:\n      node_kind: req\n      status_attr: status\n      group_by_attr: area\n"
    ));
    let report = match build_summary(&profile, &register()) {
        Ok(SummaryReport::Configured(r)) => r,
        _ => panic!("a configured rollup"),
    };
    assert_eq!(report.group_key, "area");
    assert_eq!(report.status_keys, vec!["done", "draft", "dropped", "review", "unknown"]);
    let groups: Vec<&str> = report.groups.iter().map(|(g, _)| g.as_str()).collect();
    assert_eq!(groups, vec!["core", "ui", "unknown"]);
    let core = &report.groups[0].1;
    assert_eq!(count(core, "done"), Some(1));
    assert_eq!(count(core, "draft"), Some(1));
    assert_eq!(count(core, "dropped"), Some(0));
    assert_eq!(count(core, "total"), Some(2));
    assert_eq!(count(&report.groups[2].1, "unknown"), Some(1));
    let totals = report.totals();
    assert_eq!(count(&totals, "total"), Some(4));
    assert_eq!(count(&totals, "review"), Some(1));
    assert_eq!(count(&totals, "dropped"), Some(0));
}

#[test]
fn non_string_attrs_count_under_their_json_text() {
    let profile = profile_from(&format!(
        "{KINDS}validations:\n  - SUMMARY:\n      node_kind: req\n      status_attr: status\n      group_by_attr: area\n"
    ));
    let mut g = LatticeGraph::new();
    node(&mut g, "REQ-1", vec![("area", JsonValue::Int(7)), ("status", JsonValue::Bool(true))], 1);
    let report = match build_summary(&profile, &g) {
        Ok(SummaryReport::Configured(r)) => r,
        _ => panic!("a configured rollup"),
    };
    assert_eq!(report.groups[0].0, "7");
    assert!(report.status_keys.contains(&"true".to_string()));
}

#[test]
fn summary_refuses_ambiguous_or_incomplete_configs() {
    let two = profile_from(&format!(
        "{KINDS}validations:\n  - SUMMARY:\n      node_kind: req\n      status_attr: status\n      group_by_attr: area\n  - SUMMARY:\n      node_kind: req\n      status_attr: status\n      group_by_attr: area\n"
    ));
    let err = build_summary(&two, &register()).err().expect("refused");
    assert_eq!(err.0, "profile declares 2 SUMMARY configs; summary renders one rollup and cannot choose between them");
    let missing = profile_from(&format!("{KINDS}validations:\n  - SUMMARY:\n      node_kind: req\n      status_attr: status\n"));
    let err = build_summary(&missing, &register()).err().expect("refused");
    assert_eq!(err.0, "SUMMARY config requires node_kind, status_attr, group_by_attr");
    let mistyped = profile_from(&format!(
        "{KINDS}validations:\n  - SUMMARY:\n      node_kind: 3\n      status_attr: status\n      group_by_attr: area\n"
    ));
    let err = build_summary(&mistyped, &register()).err().expect("refused");
    assert!(err.0.starts_with("SUMMARY config: 'node_kind' must be a string, got "));
}

#[test]
fn unconfigured_summary_falls_back_to_structural_counts() {
    let profile = profile_from(KINDS);
    let mut g = register();
    edge(&mut g, "REQ-1", "REQ-9", vec![], 5);
    let stats = match build_summary(&profile, &g) {
        Ok(SummaryReport::Statistics(s)) => s,
        _ => panic!("structural counts"),
    };
    assert_eq!(stats.node_counts, vec![("req".to_string(), 4)]);
    assert_eq!(stats.edge_counts, vec![("derives".to_string(), 1)]);
    assert!(stats.finding_counts.iter().any(|t| t.code == "VACANCY" && t.severity == Severity::Error && t.count == 1));
}

#[test]
fn finding_tallies_are_ordered_by_code_then_severity() {
    let issue = |code: &str, severity: Severity| {
        Issue::new(severity, code, "m".to_string(), Provenance::new("f", 1), None)
    };
    let findings = vec![
        issue("B", Severity::Hint),
        issue("A", Severity::Warning),
        issue("B", Severity::Error),
        issue("A", Severity::Warning),
    ];
    let t = tally_findings(&findings);
    let seen: Vec<(&str, Severity, i64)> = t.iter().map(|x| (x.code.as_str(), x.severity, x.count)).collect();
    assert_eq!(seen, vec![("A", Severity::Warning, 2), ("B", Severity::Error, 1), ("B", Severity::Hint, 1)]);
}

#[test]
fn diff_reports_added_removed_and_changed_entries() {
    let mut a = LatticeGraph::new();
    node(&mut a, "REQ-1", vec![("status", text("draft"))], 1);
    node(&mut a, "REQ-2", vec![], 2);
    edge(&mut a, "REQ-1", "REQ-2", vec![("w", JsonValue::Int(1))], 3);
    edge(&mut a, "REQ-1", "REQ-2", vec![], 4);
    let mut b = LatticeGraph::new();
    node(&mut b, "REQ-1", vec![("status", text("done"))], 10);
    node(&mut b, "REQ-3", vec![], 11);
    edge(&mut b, "REQ-1", "REQ-2", vec![("w", JsonValue::Int(2))], 12);
    edge(&mut b, "REQ-1", "REQ-3", vec![], 13);
    let d = diff("a", &a, "b", &b);
    assert_eq!(d.rev_a, "a");
    assert_eq!(d.nodes_added.iter().map(|n| n.id.as_str()).collect::<Vec<_>>(), vec!["REQ-3"]);
    assert_eq!(d.nodes_removed.iter().map(|n| n.id.as_str()).collect::<Vec<_>>(), vec!["REQ-2"]);
    assert_eq!(d.nodes_changed.len(), 1);
    assert_eq!(d.nodes_changed[0].id, "REQ-1");
    assert_eq!(d.edges_added.len(), 1);
    assert_eq!(d.edges_added[0].tgt, "REQ-3");
    assert_eq!(d.edges_removed.len(), 1);
    assert_eq!(d.edges_removed[0].tgt, "REQ-2");
    assert_eq!(d.edges_changed.len(), 1);
    assert!(!d.is_empty());
}

#[test]
fn diff_ignores_where_things_were_declared() {
    let a = register();
    let mut b = LatticeGraph::new();
    node(&mut b, "REQ-1", vec![("area", text("core")), ("status", text("draft"))], 40);
    node(&mut b, "REQ-2", vec![("area", text("core")), ("status", text("done"))], 41);
    node(&mut b, "REQ-3", vec![("area", text("ui")), ("status", text("review"))], 42);
    node(&mut b, "REQ-4", vec![], 43);
    assert!(diff("a", &a, "b", &b).is_empty());
    assert!(diff("a", &a, "a", &a).is_empty());
}
