use lattice::adapter::Document;
use lattice::compose::{FuseEdge, FuseFinding, FuseNode, FuseProvenance, FuseReport};
use lattice::githubissues::{map_github_issues, parse_issue, GithubConfig};
use lattice::gitlab::{Config as GitlabConfig, EdgePattern, LinkMapping};
use lattice::gitlabissues::{map_issues, GitLabIssue, IssueLink};
use lattice::entomologist::{classify_entries, issue_nodes, parse_batch, parse_tree_listing, TreeEntry};
use lattice::json::JsonValue;
use lattice::render::{format_fuse_text, format_trace_text, key_value, strip_ansi};
use lattice::tomladapter::{
    attach_pathway, dot_path, json_value, mapped_attributes, parse_line, read_directory_file, read_edges, read_file,
    toml_type, Config, HeaderConfig, IdPrefix, PathwayConfig, TableConfig, TomlValue,
};
use lattice::trace::{PathwayEntry, TraceEntry, TraceReport};
use lattice::types::{Issue, Provenance, Severity};

fn s(text: &str) -> String {
    text.to_string()
}

fn table(entries: Vec<(&str, TomlValue)>) -> TomlValue {
    TomlValue::Table(entries.into_iter().map(|(k, v)| (s(k), v)).collect())
}

fn stage_source() -> Vec<(String, TomlValue)> {
    let register = table(vec![
        ("current_stage", TomlValue::Str(s("s2"))),
        ("stage_order", TomlValue::Array(vec![TomlValue::Str(s("s1")), TomlValue::Str(s("s2"))])),
    ]);
    vec![(s("registers/index.toml"), table(vec![("register", register)]))]
}

fn stage_config() -> PathwayConfig {
    PathwayConfig {
        source_file: s("registers/index.toml"),
        name: s("stage"),
        order_key: s("register.stage_order"),
        current_key: s("register.current_stage"),
    }
}

#[test]
fn valid_pathway_is_attached() {
    let parsed = stage_source();
    let config = stage_config();
    let mut document = Document::default();
    attach_pathway(&mut document, &config, &parsed);
    assert_eq!(document.pathways.len(), 1);
    assert_eq!(document.pathways[0].current, "s2");
}

#[test]
fn scalar_types_map_without_stringifying() {
    assert!(matches!(json_value(&TomlValue::Int(3)), Ok(JsonValue::Int(3))));
    assert!(matches!(json_value(&TomlValue::Bool(true)), Ok(JsonValue::Bool(true))));
    assert!(json_value(&TomlValue::Array(Vec::new())).is_err());
}

#[test]
fn non_finite_floats_and_tables_are_refused_by_name() {
    assert_eq!(json_value(&TomlValue::Float(None)).err(), Some("non-finite float"));
    assert_eq!(json_value(&TomlValue::Table(Vec::new())).err(), Some("table"));
    assert_eq!(toml_type(&TomlValue::Datetime(s("1979-05-27"))), "datetime");
}

#[test]
fn dotted_paths_walk_nested_tables() {
    let parsed = stage_source();
    let root = &parsed[0].1;
    assert!(matches!(dot_path(root, "register.current_stage"), Some(TomlValue::Str(t)) if t == "s2"));
    assert!(dot_path(root, "register.missing").is_none());
    assert!(dot_path(root, "register.current_stage.deeper").is_none());
}

#[test]
fn backslashed_source_file_is_found() {
    let parsed = stage_source();
    let mut config = stage_config();
    config.source_file = s("registers\\index.toml");
    let mut document = Document::default();
    attach_pathway(&mut document, &config, &parsed);
    assert_eq!(document.pathways.len(), 1);
}

#[test]
fn pathway_refusals_are_warnings_on_the_source_file() {
    let mut document = Document::default();
    let mut config = stage_config();
    config.source_file = s("other.toml");
    attach_pathway(&mut document, &config, &stage_source());
    assert_eq!(document.findings.len(), 1);
    assert_eq!(document.findings[0].code, "PATHWAY_INVALID");
    assert_eq!(document.findings[0].message, "other.toml: pathway 'stage' source file was not read");

    let mut document = Document::default();
    let mut config = stage_config();
    config.current_key = s("register.nowhere");
    attach_pathway(&mut document, &config, &stage_source());
    assert_eq!(
        document.findings[0].message,
        "registers/index.toml: pathway 'stage' declares only one of the pair, missing 'register.nowhere'"
    );

    let mut document = Document::default();
    let mut config = stage_config();
    config.order_key = s("register.nowhere");
    config.current_key = s("register.elsewhere");
    attach_pathway(&mut document, &config, &stage_source());
    assert!(document.findings.is_empty());
    assert!(document.pathways.is_empty());

    let register = table(vec![
        ("current_stage", TomlValue::Str(s("s3"))),
        ("stage_order", TomlValue::Array(vec![TomlValue::Str(s("s1")), TomlValue::Str(s("s1"))])),
    ]);
    let parsed = vec![(s("registers/index.toml"), table(vec![("register", register)]))];
    let mut document = Document::default();
    attach_pathway(&mut document, &stage_config(), &parsed);
    assert_eq!(
        document.findings[0].message,
        "registers/index.toml: pathway 'stage' requires distinct positions and current 's3' among them"
    );
}

#[test]
fn mapped_keys_become_attrs_and_non_scalars_findings() {
    let source = vec![
        (s("name"), TomlValue::Str(s("Widget"))),
        (s("parts"), TomlValue::Array(Vec::new())),
    ];
    let mapping = vec![(s("name"), s("title")), (s("parts"), s("parts"))];
    let mut document = Document::default();
    let attrs = mapped_attributes(&mut document, &source, &mapping, "a.toml", Some("W1"));
    assert_eq!(attrs.len(), 1);
    assert_eq!(attrs[0].0, "title");
    assert_eq!(document.findings.len(), 1);
    assert_eq!(document.findings[0].message, "a.toml: mapped key 'parts' has type array, expected a scalar value");
    assert_eq!(document.findings[0].node_id.as_deref(), Some("W1"));
}

#[test]
fn edge_keys_take_a_string_or_strings() {
    let config = TableConfig {
        kind: s("item"),
        id_key: s("id"),
        key_map: Vec::new(),
        edge_keys: vec![(s("bad"), s("x")), (s("deps"), s("depends_on")), (s("parent"), s("child_of"))],
    };
    let row = vec![
        (s("bad"), TomlValue::Int(1)),
        (s("deps"), TomlValue::Array(vec![TomlValue::Str(s("B")), TomlValue::Str(s("C"))])),
        (s("parent"), TomlValue::Str(s("P"))),
    ];
    let mut document = Document::default();
    read_edges(&mut document, &config, &row, "A", "f.toml");
    let targets: Vec<&str> = document.edges.iter().map(|e| e.tgt.as_str()).collect();
    assert_eq!(targets, vec!["B", "C", "P"]);
    assert_eq!(document.edges[2].kind, "child_of");
    assert_eq!(
        document.findings[0].message,
        "f.toml: item 'A' has edge key 'bad' of type integer, expected a string or array of strings"
    );
}

const ISSUE: &str = "0123456789abcdef0123456789abcdef";
const OTHER: &str = "fedcba9876543210fedcba9876543210";

fn entry(path: &str, oid: &str, object_type: &str) -> TreeEntry {
    TreeEntry { path: s(path), oid: s(oid), object_type: s(object_type) }
}

#[test]
fn ent_entries_sort_into_fetches_tags_and_refusals() {
    let entries = vec![
        entry("README.md", "r", "blob"),
        entry(&format!("{ISSUE}/dependencies/{OTHER}"), "d", "blob"),
        entry(&format!("{ISSUE}/description"), "o1", "blob"),
        entry(&format!("{ISSUE}/tags/urgent"), "t", "blob"),
        entry(&format!("{ISSUE}/weird"), "w", "blob"),
        entry("sub", "s", "tree"),
    ];
    let mut document = Document::default();
    let (issues, wanted) = classify_entries(&mut document, &entries);
    assert_eq!(issues.len(), 1);
    assert_eq!(issues[0].0, ISSUE);
    assert_eq!(issues[0].1.tags, vec![s("urgent")]);
    assert_eq!(issues[0].1.dependencies, vec![s(OTHER)]);
    assert_eq!(wanted, vec![(format!("{ISSUE}/description"), s("o1"))]);
    let messages: Vec<&str> = document.findings.iter().map(|f| f.message.as_str()).collect();
    assert_eq!(messages[0], format!("{ISSUE}/weird: no reader for this file shape"));
    assert_eq!(messages[1], "sub: unexpected tree entry");
    assert_eq!(document.findings[1].provenance.file, "entomologist-data:sub");
}

#[test]
fn cat_file_answers_are_framed_per_object() {
    let wanted = vec![
        (s("a/description"), s("1")),
        (s("a/author"), s("2")),
        (s("a/state"), s("3")),
        (s("a/assignee"), s("4")),
    ];
    let mut out: Vec<u8> = Vec::new();
    out.extend_from_slice(b"1 blob 11\nFix it\nmore\n");
    out.extend_from_slice(b"2 missing\n");
    out.extend_from_slice(b"3 blob 2\n\xff\xfe\n");
    out.extend_from_slice(b"4 blob 100\nshort");
    let mut document = Document::default();
    let texts = parse_batch(&mut document, &wanted, &Ok(out));
    assert_eq!(texts, vec![(s("a/description"), s("Fix it\nmore"))]);
    let messages: Vec<&str> = document.findings.iter().map(|f| f.message.as_str()).collect();
    assert_eq!(
        messages,
        vec![
            "a/author: object not in the repository",
            "a/state: not valid UTF-8: 'utf-8' codec can't decode byte 0xff in position 0: invalid start byte",
            "a/assignee: truncated response from git cat-file",
        ]
    );
}

#[test]
fn a_failed_cat_file_marks_every_requested_object() {
    let wanted = vec![(s("a/state"), s("3")), (s("b/state"), s("4"))];
    let mut document = Document::default();
    let texts = parse_batch(&mut document, &wanted, &Err(s("no git")));
    assert!(texts.is_empty());
    assert_eq!(document.findings[1].message, "b/state: could not read object: no git");

    let mut document = Document::default();
    let texts = parse_batch(&mut document, &Vec::new(), &Err(s("no git")));
    assert!(texts.is_empty());
    assert!(document.findings.is_empty());
}

#[test]
fn issues_become_nodes_with_summary_state_and_sorted_tags() {
    let entries = vec![
        entry(&format!("{ISSUE}/dependencies/{OTHER}"), "d", "blob"),
        entry(&format!("{ISSUE}/description"), "o1", "blob"),
        entry(&format!("{ISSUE}/tags/b"), "t", "blob"),
        entry(&format!("{ISSUE}/tags/a"), "t", "blob"),
    ];
    let mut document = Document::default();
    let (issues, wanted) = classify_entries(&mut document, &entries);
    let fetched = vec![(format!("{ISSUE}/description"), s("  Title line \nbody"))];
    issue_nodes(&mut document, &issues, &wanted, &fetched);
    assert_eq!(document.nodes.len(), 1);
    let node = &document.nodes[0];
    assert_eq!(node.kind, "issue");
    assert_eq!(node.provenance.file, format!("entomologist-data:{ISSUE}"));
    let keys: Vec<&str> = node.attrs.iter().map(|a| a.0.as_str()).collect();
    assert_eq!(keys, vec!["state", "summary", "tags"]);
    assert!(matches!(&node.attrs[0].1, JsonValue::Str(t) if t == "new"));
    assert!(matches!(&node.attrs[1].1, JsonValue::Str(t) if t == "Title line"));
    match &node.attrs[2].1 {
        JsonValue::Array(items) => {
            assert!(matches!(&items[0], JsonValue::Str(t) if t == "a"));
            assert!(matches!(&items[1], JsonValue::Str(t) if t == "b"));
        }
        _ => panic!("tags are an array"),
    }
    assert_eq!(document.edges.len(), 1);
    assert_eq!(document.edges[0].kind, "depends_on");
    assert_eq!(document.edges[0].provenance.file, format!("entomologist-data:{ISSUE}/dependencies/{OTHER}"));
}

fn fuse_report(suppressed: bool) -> FuseReport {
    let at = |source: &str| FuseProvenance { source: s(source), location: Provenance::new("r.md", 3) };
    let mut issue = Issue::new(Severity::Error, "DANGLING_EDGE", s("no target"), Provenance::new("r.md", 4), None);
    issue.suppressed = suppressed;
    FuseReport {
        header: vec![(s("name"), s("demo")), (s("version"), s("2"))],
        nodes: vec![FuseNode { id: s("a:R1"), kind: s("a:req"), attrs: Vec::new(), provenance: at("a") }],
        edges: vec![FuseEdge {
            src: s("a:R1"),
            tgt: s("b:X"),
            kind: s("traces"),
            attrs: Vec::new(),
            provenance: at("a"),
            source_kind: s("a:req"),
            target_kind: None,
            target_source: None,
        }],
        pathways: vec![PathwayEntry { name: s("stage"), order: vec![s("s1"), s("s2")], current: s("s1") }],
        findings: vec![FuseFinding { issue, source: None, locations: vec![at("a"), at("b")] }],
        could_run: true,
    }
}

#[test]
fn fuse_text_lists_nodes_edges_pathways_and_findings() {
    let text = format_fuse_text(&fuse_report(false), false);
    assert_eq!(
        text,
        "Fuse demo 2: 1 nodes, 1 edges, 1 pathways\n\
         a:R1 [a:req] r.md:3\n\
         a:R1 --traces--> b:X (unresolved)\n\
         stage: s1 -> s2 (current: s1)\n\
         ERROR DANGLING_EDGE [a, b] r.md:4 no target"
    );
    let rich = format_fuse_text(&fuse_report(false), true);
    assert_eq!(strip_ansi(&rich), text);
    assert!(format_fuse_text(&fuse_report(true), false).ends_with("\nNo findings."));
}

fn trace_report() -> TraceReport {
    TraceReport {
        header: Vec::new(),
        entries: vec![TraceEntry {
            id: s("R1"),
            kind: s("req"),
            attrs: vec![(s("title"), JsonValue::Str(s("A title that is far longer than thirty characters")))],
            provenance: Provenance::new("r.md", 1),
            summary_attr: Some(s("title")),
            edges: Vec::new(),
            findings: vec![Issue::new(Severity::Warning, "W1", s("careful"), Provenance::new("r.md", 2), None)],
        }],
        unattachable_findings: vec![Issue::new(Severity::Error, "E1", s("lost"), Provenance::new("x.md", 0), None)],
        pathways: Vec::new(),
    }
}

#[test]
fn trace_key_cell_is_cut_to_thirty_characters() {
    let report = trace_report();
    assert_eq!(key_value(&report.entries[0]), "A title that is far longer tha");
}

#[test]
fn trace_text_rows_findings_and_tally() {
    let report = trace_report();
    let plain = format_trace_text(&report, false);
    let lines: Vec<&str> = plain.lines().collect();
    assert_eq!(lines[0], format!("{:<20} {:<10} {:<30} edges:0 findings:1", "R1", "req", "A title that is far longer tha"));
    assert_eq!(lines[1], "  WARNING W1 r.md:2 careful");
    assert_eq!(lines[2], "");
    assert_eq!(lines[3], "Unattachable findings:");
    assert_eq!(lines[4], "  ERROR E1 x.md:0 lost");
    let rich = strip_ansi(&format_trace_text(&report, true));
    assert!(rich.ends_with("\n\n1 entries, 1 error(s), 1 warning(s)"));
    let empty = TraceReport { header: Vec::new(), entries: Vec::new(), unattachable_findings: Vec::new(), pathways: Vec::new() };
    assert_eq!(format_trace_text(&empty, true), "No trace entries.");
    assert_eq!(format_trace_text(&empty, false), "");
}

fn item_table() -> TableConfig {
    TableConfig {
        kind: s("item"),
        id_key: s("id"),
        key_map: vec![(s("title"), s("name"))],
        edge_keys: vec![(s("parent"), s("child_of"))],
    }
}

fn toml_config(prefix: Option<IdPrefix>, header: Option<HeaderConfig>) -> Config {
    Config {
        files: vec![s("**/*.toml")],
        tables: vec![(s("items"), item_table())],
        id_prefix: prefix,
        header,
        mode: None,
        pathway: None,
    }
}

#[test]
fn toml_file_reads_header_rows_and_reports_unread_tables() {
    let header = HeaderConfig { table: s("register"), kind: s("register"), id: s("file_stem"), key_map: Vec::new() };
    let config = toml_config(Some(IdPrefix::FileStem), Some(header));
    let row = |id: &str| table(vec![("id", TomlValue::Str(s(id))), ("parent", TomlValue::Str(s("P")))]);
    let value = table(vec![
        ("extra", TomlValue::Array(vec![table(Vec::new()), table(Vec::new())])),
        ("items", TomlValue::Array(vec![row("A"), table(vec![("title", TomlValue::Str(s("no id")))])])),
        ("register", table(Vec::new())),
    ]);
    let mut document = Document::default();
    read_file(&mut document, &config, &value, "reg/one.toml", "one");
    let ids: Vec<&str> = document.nodes.iter().map(|n| n.id.as_str()).collect();
    assert_eq!(ids, vec!["one", "one/A"]);
    assert_eq!(document.edges.len(), 1);
    assert_eq!(document.edges[0].src, "one/A");
    let messages: Vec<&str> = document.findings.iter().map(|f| f.message.as_str()).collect();
    assert_eq!(
        messages,
        vec![
            "reg/one.toml: no reader for array-of-tables 'extra' (2 rows not read)",
            "reg/one.toml: items row 1 declares no string 'id' ID key",
        ]
    );
}

#[test]
fn toml_root_and_table_shapes_are_checked() {
    let config = toml_config(None, None);
    let mut document = Document::default();
    read_file(&mut document, &config, &TomlValue::Int(1), "x.toml", "x");
    assert_eq!(document.findings[0].message, "x.toml: TOML root is not a table");
    let mut document = Document::default();
    read_file(&mut document, &config, &table(vec![("items", TomlValue::Str(s("no")))]), "x.toml", "x");
    assert_eq!(
        document.findings[0].message,
        "x.toml: configured table 'items' has type string, expected an array of tables"
    );
}

#[test]
fn directory_mode_reads_each_file_as_one_record() {
    let config = toml_config(None, None);
    let mut document = Document::default();
    let value = table(vec![("id", TomlValue::Str(s("R7"))), ("title", TomlValue::Str(s("Seven")))]);
    read_directory_file(&mut document, &config, &value, "d/r7.toml", "r7");
    assert_eq!(document.nodes.len(), 1);
    assert_eq!(document.nodes[0].id, "R7");
    assert_eq!(document.nodes[0].attrs[0].0, "name");
}

#[test]
fn parse_errors_point_at_their_line() {
    let text = b"a = 1\nb = \n".to_vec();
    assert_eq!(parse_line(&text, Some(10)), 2);
    assert_eq!(parse_line(&text, Some(0)), 1);
    assert_eq!(parse_line(&text, None), 0);
}

#[test]
fn tree_listing_records_are_read_and_sorted_by_path() {
    let mut out: Vec<u8> = Vec::new();
    out.extend_from_slice(b"100644 blob bbb\tz/file\0");
    out.extend_from_slice(b"100644 blob aaa\ta/file\0");
    out.extend_from_slice(b"no tab here\0");
    out.extend_from_slice(b"100644 blob\tshort\0");
    let mut document = Document::default();
    let entries = parse_tree_listing(&mut document, &out);
    let paths: Vec<&str> = entries.iter().map(|e| e.path.as_str()).collect();
    assert_eq!(paths, vec!["a/file", "z/file"]);
    assert_eq!(entries[0].oid, "aaa");
    assert_eq!(entries[0].object_type, "blob");
    let messages: Vec<&str> = document.findings.iter().map(|f| f.message.as_str()).collect();
    assert_eq!(messages, vec!["git ls-tree returned a malformed record", "short: malformed git ls-tree metadata"]);
    assert_eq!(document.findings[0].provenance.file, ".");
}

fn default_attrs_by_kind() -> Vec<(String, Vec<String>)> {
    vec![
        (s("issue"), vec![s("state"), s("summary")]),
        (s("requirement"), vec![s("assignee"), s("labels"), s("state"), s("summary")]),
    ]
}

fn default_link_type_map() -> Vec<(String, LinkMapping)> {
    vec![
        (s("blocks"), LinkMapping { edge_kind: s("depends_on"), reverse: true }),
        (s("is_blocked_by"), LinkMapping { edge_kind: s("depends_on"), reverse: false }),
        (s("relates_to"), LinkMapping { edge_kind: s("relates_to"), reverse: false }),
    ]
}

fn gitlab_config(label_map: Vec<(String, String)>, edge_patterns: Vec<EdgePattern>) -> GitlabConfig {
    GitlabConfig {
        project: None,
        label_map,
        default_kind: s("issue"),
        edge_patterns,
        link_type_map: default_link_type_map(),
        attrs_by_kind: default_attrs_by_kind(),
    }
}

fn gitlab_issue(iid: u64, project_id: Option<u64>, title: &str) -> GitLabIssue {
    GitLabIssue {
        iid,
        project_id,
        title: s(title),
        state: s("opened"),
        labels: Vec::new(),
        assignee: None,
        description: None,
    }
}

#[test]
fn maps_gitlab_fields_labels_and_description_edges() {
    let config = gitlab_config(
        vec![(s("requirement"), s("requirement"))],
        vec![EdgePattern { pattern: s(r"depends on #(\d+)"), kind: s("depends_on") }],
    );
    let mut issue = gitlab_issue(1, Some(10), "Validate input");
    issue.labels = vec![s("requirement")];
    issue.assignee = Some(s("jone"));
    issue.description = Some(s("depends on #2"));
    let mut document = Document::default();
    map_issues(&mut document, "group/project", &config, &vec![issue], &vec![Ok(Vec::new())]);
    assert_eq!(document.nodes[0].id, "#1");
    assert_eq!(document.nodes[0].kind, "requirement");
    assert_eq!(document.nodes[0].attrs[0].0, "assignee");
    assert!(matches!(&document.nodes[0].attrs[0].1, JsonValue::Str(u) if u == "jone"));
    assert_eq!(document.edges[0].tgt, "#2");
}

#[test]
fn cross_project_link_is_reported_without_creating_an_edge() {
    let config = gitlab_config(Vec::new(), Vec::new());
    let issues = vec![gitlab_issue(1, Some(10), "Source"), gitlab_issue(2, Some(10), "Local target")];
    let links = vec![
        Ok(vec![IssueLink { iid: 2, project_id: Some(20), link_type: s("relates_to") }]),
        Ok(Vec::new()),
    ];
    let mut document = Document::default();
    map_issues(&mut document, "group/project", &config, &issues, &links);
    assert!(document.edges.is_empty());
    assert_eq!(document.findings.len(), 1);
    assert_eq!(document.findings[0].severity, "info");
    assert_eq!(document.findings[0].code, "EXTERNAL_REF");
}

#[test]
fn missing_project_identity_is_reported_without_creating_an_edge() {
    let config = gitlab_config(Vec::new(), Vec::new());
    for (source_project_id, target_project_id) in [(None, Some(10)), (Some(10), None)] {
        let issues = vec![gitlab_issue(1, source_project_id, "Source"), gitlab_issue(2, Some(10), "Local IID collision")];
        let links = vec![
            Ok(vec![IssueLink { iid: 2, project_id: target_project_id, link_type: s("relates_to") }]),
            Ok(Vec::new()),
        ];
        let mut document = Document::default();
        map_issues(&mut document, "group/project", &config, &issues, &links);
        assert!(document.edges.is_empty());
        assert_eq!(document.findings.len(), 1);
        assert_eq!(document.findings[0].code, "PARSE_ERROR");
    }
}

#[test]
fn link_fetches_are_bounded_and_failures_stay_with_their_issues() {
    let config = gitlab_config(Vec::new(), Vec::new());
    let issues: Vec<GitLabIssue> = (1..=16).map(|iid| gitlab_issue(iid, Some(10), &format!("Issue {iid}"))).collect();
    let links: Vec<Result<Vec<IssueLink>, String>> = (1..=16u64)
        .map(|iid| if iid == 7 { Err(s("issue #7 link request failed")) } else { Ok(Vec::new()) })
        .collect();
    let mut document = Document::default();
    map_issues(&mut document, "group/project", &config, &issues, &links);
    assert_eq!(document.nodes.len(), 16);
    assert_eq!(document.findings.len(), 1);
    assert_eq!(document.findings[0].code, "PARSE_ERROR");
    assert_eq!(document.findings[0].provenance.file, "gitlab:group/project#7");
    assert!(document.findings[0].message.contains("issue #7"));
}

#[test]
fn mapped_links_point_as_their_type_says() {
    let config = gitlab_config(
        Vec::new(),
        vec![EdgePattern { pattern: s(r"needs #(\w+)"), kind: s("depends_on") }],
    );
    let mut first = gitlab_issue(1, Some(10), "One");
    first.description = Some(s("needs #x and needs #3"));
    let issues = vec![first, gitlab_issue(3, Some(10), "Three")];
    let links = vec![
        Ok(vec![
            IssueLink { iid: 3, project_id: Some(10), link_type: s("blocks") },
            IssueLink { iid: 3, project_id: Some(10), link_type: s("mentions") },
        ]),
        Ok(Vec::new()),
    ];
    let mut document = Document::default();
    map_issues(&mut document, "group/project", &config, &issues, &links);
    let edges: Vec<(&str, &str)> = document.edges.iter().map(|e| (e.src.as_str(), e.tgt.as_str())).collect();
    assert_eq!(edges, vec![("#1", "#3"), ("#3", "#1")]);
    let messages: Vec<&str> = document.findings.iter().map(|f| f.message.as_str()).collect();
    assert_eq!(
        messages,
        vec![
            r"edge pattern 'needs #(\w+)' captured invalid target iid 'x'",
            "issue #1 has link_type 'mentions' not declared in adapter.link_type_map",
        ]
    );
}

fn obj(entries: Vec<(&str, JsonValue)>) -> JsonValue {
    JsonValue::Object(entries.into_iter().map(|(k, v)| (s(k), v)).collect())
}

fn named(key: &str, names: &[&str]) -> JsonValue {
    JsonValue::Array(names.iter().map(|n| obj(vec![(key, JsonValue::Str(s(n)))])).collect())
}

#[test]
fn github_issues_are_read_field_by_field() {
    let issue = obj(vec![
        ("number", JsonValue::Int(12)),
        ("title", JsonValue::Str(s("Add export"))),
        ("state", JsonValue::Str(s("open"))),
        ("body", JsonValue::Null),
        ("labels", named("name", &["feature"])),
        ("assignees", named("login", &["ana", "bo"])),
        (
            "milestone",
            obj(vec![
                ("number", JsonValue::Int(3)),
                ("title", JsonValue::Str(s("v1"))),
                ("state", JsonValue::Str(s("open"))),
            ]),
        ),
    ]);
    let parsed = parse_issue(&issue).ok().unwrap();
    assert_eq!(parsed.number, 12);
    assert_eq!(parsed.body, "");
    assert_eq!(parsed.labels, vec![s("feature")]);
    assert_eq!(parsed.assignee.as_deref(), Some("ana"));
    assert_eq!(parsed.milestone.map(|m| m.title), Some(s("v1")));
}

#[test]
fn github_issue_refusals_name_the_first_bad_field() {
    assert_eq!(parse_issue(&JsonValue::Str(s("x"))).err(), Some(s("expected an object, got string")));
    let zero = obj(vec![("number", JsonValue::Int(0))]);
    assert_eq!(parse_issue(&zero).err(), Some(s("field 'number' must be a positive integer")));
    let bad_label = obj(vec![
        ("number", JsonValue::Int(1)),
        ("title", JsonValue::Str(s("t"))),
        ("state", JsonValue::Str(s("open"))),
        ("labels", JsonValue::Array(vec![obj(vec![("name", JsonValue::Str(s("a")))]), JsonValue::Int(5)])),
    ]);
    assert_eq!(parse_issue(&bad_label).err(), Some(s("field 'labels' item 2 has no string name")));
    let bad_body = obj(vec![
        ("number", JsonValue::Int(1)),
        ("title", JsonValue::Str(s("t"))),
        ("state", JsonValue::Str(s("open"))),
        ("body", JsonValue::Int(2)),
    ]);
    assert_eq!(parse_issue(&bad_body).err(), Some(s("field 'body' must be a string or null")));
}

fn gh_issue(number: i128, labels: &[&str], body: &str, milestone: Option<(i128, &str, &str)>) -> JsonValue {
    let mut fields = vec![
        ("number", JsonValue::Int(number)),
        ("title", JsonValue::Str(format!("Issue {number}"))),
        ("state", JsonValue::Str(s("open"))),
        ("body", JsonValue::Str(s(body))),
        ("labels", named("name", labels)),
        ("assignees", JsonValue::Array(Vec::new())),
    ];
    if let Some((n, title, state)) = milestone {
        fields.push((
            "milestone",
            obj(vec![("number", JsonValue::Int(n)), ("title", JsonValue::Str(s(title))), ("state", JsonValue::Str(s(state)))]),
        ));
    }
    obj(fields)
}

#[test]
fn github_issues_become_nodes_edges_and_milestone_pathways() {
    let config = GithubConfig {
        repo: None,
        label_map: vec![(s("bug"), s("defect"))],
        default_kind: None,
        edge_patterns: vec![(s(r"blocked by #(\w+)"), s("depends_on"))],
        attrs_by_kind: vec![(s("defect"), vec![s("release"), s("summary")])],
        pathways: vec![s("release")],
    };
    let values = vec![
        gh_issue(2, &["bug"], "blocked by #1 and blocked by #zz", Some((5, "v2", "closed"))),
        obj(vec![("pull_request", obj(Vec::new()))]),
        gh_issue(3, &["question"], "", None),
        gh_issue(4, &["bug"], "", Some((4, "v1", "open"))),
        JsonValue::Int(7),
    ];
    let mut document = Document::default();
    map_github_issues(&mut document, &config, "o/r", &values);
    let ids: Vec<&str> = document.nodes.iter().map(|n| n.id.as_str()).collect();
    assert_eq!(ids, vec!["#2", "#4"]);
    assert_eq!(document.nodes[0].provenance.file, "github:o/r#2");
    let keys: Vec<&str> = document.nodes[0].attrs.iter().map(|a| a.0.as_str()).collect();
    assert_eq!(keys, vec!["release", "summary"]);
    assert_eq!(document.edges.len(), 1);
    assert_eq!(document.edges[0].tgt, "#1");
    let messages: Vec<&str> = document.findings.iter().map(|f| f.message.as_str()).collect();
    assert_eq!(
        messages,
        vec![
            "issue #2: edge pattern captured invalid issue number 'zz'",
            "issue #3 has no label mapped to a node kind and no default_kind",
            "issue response 5: expected an object, got number",
        ]
    );
    assert_eq!(document.pathways.len(), 1);
    assert_eq!(document.pathways[0].order, vec![s("v1"), s("v2")]);
    assert_eq!(document.pathways[0].current, "v1");
}
