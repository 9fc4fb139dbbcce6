use lattice::graph::{EdgeSpec, LatticeGraph};
use lattice::profile::{load_profile_value, Profile};
use lattice::rules::{default_severity, FindingCode};
use lattice::types::{Provenance, Severity};
use lattice::validate::validate;
use lattice::yaml::{YamlEntry, YamlValue};

/// A YAML document as the library models it.
fn yaml(value: &serde_norway::Value) -> YamlValue {
    match value {
        serde_norway::Value::Null => YamlValue::Null,
        serde_norway::Value::Bool(b) => YamlValue::Bool(*b),
        serde_norway::Value::Number(n) => match n.as_i64() {
            Some(i) => YamlValue::Int(i as i128),
            None => match n.as_u64() {
                Some(u) => YamlValue::Int(u as i128),
                None => YamlValue::Float(n.to_string()),
            },
        },
        serde_norway::Value::String(s) => YamlValue::Str(s.clone()),
        serde_norway::Value::Sequence(items) => YamlValue::List(items.iter().map(yaml).collect()),
        serde_norway::Value::Mapping(m) => YamlValue::Mapping(
            m.iter()
                .map(|(k, v)| YamlEntry {
                    key: yaml(k),
                    key_text: match k {
                        serde_norway::Value::String(s) => s.clone(),
                        other => format!("{other:?}"),
                    },
                    value: yaml(v),
                })
                .collect(),
        ),
        serde_norway::Value::Tagged(t) => YamlValue::Tagged(t.tag.to_string(), Box::new(yaml(&t.value))),
    }
}

pub fn profile_from(text: &str) -> Profile {
    let value: serde_norway::Value = serde_norway::from_str(text).expect("fixture parses");
    match load_profile_value(yaml(&value), "profile.yaml") {
        Ok(p) => p,
        Err(e) => panic!("fixture loads: {}", e.0),
    }
}

#[test]
fn warning_finding_codes_have_explicit_defaults() {
    assert_eq!(default_severity(FindingCode::OrphanNode), Severity::Warning);
    assert_eq!(default_severity(FindingCode::Coverage), Severity::Warning);
    assert_eq!(default_severity(FindingCode::PathwayUnresolved), Severity::Warning);
}

fn dangling_severity(cross_source: bool) -> Severity {
    let flag = if cross_source { "    cross_source: true\n" } else { "" };
    let profile = profile_from(&format!(
        "name: t\nprofile_version: \"1.0.0\"\n\
         node_kinds:\n  req:\n    id_pattern: \"^REQ-[0-9]+$\"\n\
         edge_kinds:\n  derives:\n    allowed: [[req, req]]\n{flag}"
    ));

    let mut graph = LatticeGraph::new();
    graph
        .add_node("REQ-1".into(), "req".into(), Vec::new(), Provenance::new("requirements.md", 1))
        .ok()
        .expect("source node is unique");
    graph.add_edge(
        EdgeSpec { src: "REQ-1".into(), tgt: "REQ-2".into(), kind: "derives".into(), attrs: Vec::new() },
        Provenance::new("requirements.md", 1),
    );

    validate(&graph, &profile, false)
        .into_iter()
        .find(|finding| finding.code == "VACANCY")
        .expect("dangling edge produces a finding")
        .severity
}

#[test]
fn cross_source_dangling_target_is_a_hint() {
    assert_eq!(dangling_severity(true), Severity::Hint);
}

#[test]
fn ordinary_dangling_target_remains_an_error() {
    assert_eq!(dangling_severity(false), Severity::Error);
}
