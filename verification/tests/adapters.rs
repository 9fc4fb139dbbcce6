use lattice::adapter::{Document, INTERFACE_VERSION};
use lattice::mdadapter::{
    glob_regex, read_table, Config, IdColumn, Presence, ProfileDocument, RawTableConfig, TableConfig, TableDecl,
    FileMatcher,
};
use lattice::mdtable::{tables, Row, Table};
use lattice::remote::{encode_project, project_from_remote, repo_from_remote, valid_repo_slug};
use regex::Regex;

#[test]
fn repo_slug_has_exactly_two_nonempty_parts() {
    assert!(valid_repo_slug("owner/repo"));
    assert!(!valid_repo_slug("repo"));
    assert!(!valid_repo_slug("owner/repo/extra"));
}

#[test]
fn parses_common_github_remotes() {
    assert_eq!(
        repo_from_remote("https://github.com/test-org/test-repo.git"),
        Some("test-org/test-repo".into())
    );
    assert_eq!(
        repo_from_remote("git@github.com:test-org/test-repo.git"),
        Some("test-org/test-repo".into())
    );
}

#[test]
fn parses_supported_gitlab_remotes() {
    assert_eq!(
        project_from_remote("git@gitlab.com:group/sub/project.git\n").as_deref(),
        Some("group/sub/project")
    );
    assert_eq!(
        project_from_remote("https://gitlab.com/group/project.git").as_deref(),
        Some("group/project")
    );
    assert_eq!(project_from_remote("git@github.com:group/project.git"), None);
}

#[test]
fn encodes_the_complete_project_path_as_one_api_identifier() {
    assert_eq!(encode_project("group/sub project"), "group%2Fsub%20project");
}

#[test]
fn finds_rows_and_source_lines() {
    let text = "heading\n\n| ID | Text |\n| --- | :---: |\n| A | hello |\n";
    assert_eq!(
        tables(text),
        vec![Table {
            headers: vec!["ID".to_owned(), "Text".to_owned()],
            rows: vec![Row {
                cells: vec!["A".to_owned(), "hello".to_owned()],
                line: 5,
            }],
        }]
    );
}

#[test]
fn preserves_short_rows_for_the_caller_to_report() {
    let text = "| ID | Text | More |\n| --- | --- | --- |\n| A | short |\n";
    assert_eq!(tables(text)[0].rows[0].cells.len(), 2);
}

#[test]
fn ignores_pipe_text_without_a_separator_row() {
    assert!(tables("one | two\nnot a separator\n").is_empty());
}

#[test]
fn escaped_pipes_are_not_column_separators() {
    let text = "| ID | Text |\n| --- | --- |\n| A | hello \\| world |\n";
    let result = tables(text);
    assert_eq!(result[0].rows[0].cells.len(), 2);
    assert_eq!(result[0].rows[0].cells[1], "hello | world");
}

#[test]
fn preserves_non_ascii_headers_and_cell_content() {
    let text = "| Identifiant | Résumé |\n| --- | --- |\n| 要件-1 | café \\| 東京 |\n";
    let result = tables(text);
    assert_eq!(result[0].headers, ["Identifiant", "Résumé"]);
    assert_eq!(result[0].rows[0].cells, ["要件-1", "café | 東京"]);
}

#[test]
fn accepts_left_and_right_aligned_separator_cells() {
    let text = "| ID | Text |\n| :--- | ---: |\n| A | hello |\n";
    assert_eq!(tables(text).len(), 1);
}

// ---------------------------------------------------------------- md config

fn empty_table() -> TableDecl {
    TableDecl { id_column: IdColumn::Name("ID".to_owned()), column_map: Vec::new(), edge_columns: Vec::new() }
}

fn raw_table(heading: &str, kind: &str) -> RawTableConfig {
    RawTableConfig {
        heading: heading.to_owned(),
        kind: kind.to_owned(),
        id_column: IdColumn::Name("ID".to_owned()),
        column_map: Vec::new(),
        edge_columns: Vec::new(),
    }
}

fn profile(table: Presence<TableDecl>, tables: Presence<Vec<RawTableConfig>>, kinds: &[&str]) -> ProfileDocument {
    ProfileDocument {
        resolved_schema: "1".to_owned(),
        files: vec!["*.md".to_owned()],
        table,
        tables,
        node_kinds: kinds.iter().map(|k| k.to_string()).collect(),
    }
}

fn load(doc: ProfileDocument) -> Result<Config, String> {
    Config::from_decoded(Ok(doc), "profile.json")
}

#[test]
fn wraps_a_single_table_as_a_catch_all_config() {
    let config = load(profile(Presence::Value(empty_table()), Presence::Absent, &["requirement"])).unwrap();
    assert!(!config.multi_table);
    assert_eq!(config.tables.len(), 1);
    assert_eq!(config.tables[0].kind, "requirement");
    assert!(config.tables[0].heading_matches("any heading"));
}

#[test]
fn loads_plural_table_configs_and_compiles_headings() {
    let config = load(profile(
        Presence::Absent,
        Presence::Value(vec![raw_table("^Domain [0-9]+$", "requirement")]),
        &["requirement", "stakeholder"],
    ))
    .unwrap();
    assert!(config.multi_table);
    assert!(config.tables[0].heading_matches("Domain 02"));
    assert!(!config.tables[0].heading_matches("Stakeholders"));
}

#[test]
fn rejects_both_or_neither_table_form() {
    let both = profile(Presence::Value(empty_table()), Presence::Value(Vec::new()), &["requirement"]);
    let neither = profile(Presence::Absent, Presence::Absent, &["requirement"]);
    assert!(load(both).unwrap_err().contains("only one"));
    assert!(load(neither).unwrap_err().contains("declare one"));
}

#[test]
fn rejects_null_table_or_tables_as_present() {
    let table_with_null_tables = profile(Presence::Value(empty_table()), Presence::Null, &["requirement"]);
    assert!(load(table_with_null_tables).unwrap_err().contains("only one"));

    let null_table_with_tables =
        profile(Presence::Null, Presence::Value(vec![raw_table("", "requirement")]), &["requirement"]);
    assert!(load(null_table_with_tables).unwrap_err().contains("only one"));

    let both_null = profile(Presence::Null, Presence::Null, &["requirement"]);
    assert!(load(both_null).unwrap_err().contains("only one"));
}

#[test]
fn rejects_undeclared_kinds_and_invalid_heading_regexes() {
    let undeclared = profile(Presence::Absent, Presence::Value(vec![raw_table("Requirements", "missing")]), &["requirement"]);
    let invalid_regex = profile(Presence::Absent, Presence::Value(vec![raw_table("[", "requirement")]), &["requirement"]);
    assert!(load(undeclared).unwrap_err().contains("not declared"));
    assert!(load(invalid_regex).unwrap_err().contains("invalid heading regex"));
}

#[test]
fn main_recursive_glob_also_matches_a_root_file() {
    let pattern = Regex::new(&glob_regex("**/*.md")).unwrap();
    assert!(pattern.is_match("one.md"));
    assert!(pattern.is_match("nested/one.md"));
    assert!(!pattern.is_match("one.toml"));
}

// ---------------------------------------------------------------- own cases

#[test]
fn md_config_refusals_name_the_profile() {
    let err = Config::from_decoded(Err("expected value at line 1".to_owned()), "p.json").unwrap_err();
    assert_eq!(err, "could not load profile p.json: expected value at line 1");
    let mut doc = profile(Presence::Value(empty_table()), Presence::Absent, &["requirement"]);
    doc.resolved_schema = "2".to_owned();
    assert_eq!(load(doc).unwrap_err(), "could not load profile profile.json: not a resolved profile document");
    let mut doc = profile(Presence::Value(empty_table()), Presence::Absent, &["requirement"]);
    doc.files = vec!["*.md".to_owned(), String::new()];
    assert_eq!(
        load(doc).unwrap_err(),
        "could not load profile profile.json: 'adapter.paths.files' must contain a file glob"
    );
    let doc = profile(Presence::Value(empty_table()), Presence::Absent, &["a", "b"]);
    assert_eq!(
        load(doc).unwrap_err(),
        "could not load profile profile.json: md profiles using 'adapter.table' must declare exactly one node kind, found 2"
    );
}

#[test]
fn glob_translation_escapes_and_scopes_wildcards() {
    assert_eq!(glob_regex("**/*.md"), "^(?:.*/)?[^/]*\\.md$");
    assert_eq!(glob_regex("a?b**"), "^a[^/]b.*$");
    let matcher = FileMatcher::new(&vec!["docs/*.md".to_owned()]).unwrap();
    assert!(matcher.matches("docs/one.md"));
    assert!(!matcher.matches("docs/deep/one.md"));
}

fn requirement_config() -> TableConfig {
    TableConfig {
        heading: None,
        kind: "requirement".to_owned(),
        id_column: IdColumn::Name("ID".to_owned()),
        column_map: vec![("Text".to_owned(), "text".to_owned())],
        edge_columns: vec![("Depends".to_owned(), "depends_on".to_owned()), ("Owner".to_owned(), "owned_by".to_owned())],
    }
}

#[test]
fn reads_rows_into_nodes_edges_and_findings() {
    let found = tables("| ID | Text | Depends |\n| --- | --- | --- |\n| R-1 | first | R-2, R-3 ,, |\n|  | blank |  |\n| R-4 | short |\n");
    let mut document = Document::default();
    assert_eq!(document.interface_version, INTERFACE_VERSION);
    read_table(&mut document, &requirement_config(), &found[0], 1, "reqs.md");
    let messages: Vec<&str> = document.findings.iter().map(|f| f.message.as_str()).collect();
    assert_eq!(
        messages,
        vec![
            "configured column 'Owner' was not found in table headers",
            "table row has an empty ID column",
            "table row has fewer columns than its header (2 < 3)",
        ]
    );
    assert_eq!(document.findings[0].provenance.line, 1);
    assert_eq!(document.findings[1].provenance.line, 4);
    assert_eq!(document.nodes.len(), 1);
    assert_eq!(document.nodes[0].id, "R-1");
    assert_eq!(document.nodes[0].provenance.line, 3);
    assert_eq!(document.nodes[0].attrs.len(), 1);
    assert_eq!(document.nodes[0].attrs[0].0, "text");
    let targets: Vec<&str> = document.edges.iter().map(|e| e.tgt.as_str()).collect();
    assert_eq!(targets, vec!["R-2", "R-3"]);
    assert!(document.edges.iter().all(|e| e.kind == "depends_on" && e.src == "R-1"));
}

#[test]
fn a_missing_id_column_reads_no_rows() {
    let found = tables("| Key | Text |\n| --- | --- |\n| R-1 | first |\n");
    let mut document = Document::default();
    read_table(&mut document, &requirement_config(), &found[0], 7, "reqs.md");
    assert!(document.nodes.is_empty());
    assert_eq!(
        document.findings.last().unwrap().message,
        "configured ID column 'ID' was not found in table headers"
    );
    let mut by_index = requirement_config();
    by_index.id_column = IdColumn::Index(5);
    let mut document = Document::default();
    read_table(&mut document, &by_index, &found[0], 7, "reqs.md");
    assert_eq!(document.findings.last().unwrap().message, "configured ID column 5 was not found in table headers");
}

#[test]
fn document_findings_carry_their_codes() {
    let mut document = Document::default();
    document.parse_error("bad".to_owned(), "f".to_owned(), 3);
    document.node_parse_error("worse".to_owned(), "f".to_owned(), 4, "N-1".to_owned());
    document.pathway_invalid("odd".to_owned(), "g".to_owned());
    document.external_ref("far".to_owned(), "h".to_owned());
    let codes: Vec<(&str, &str)> = document.findings.iter().map(|f| (f.severity, f.code)).collect();
    assert_eq!(
        codes,
        vec![("error", "PARSE_ERROR"), ("error", "PARSE_ERROR"), ("warning", "PATHWAY_INVALID"), ("info", "EXTERNAL_REF")]
    );
    assert_eq!(document.findings[1].node_id.as_deref(), Some("N-1"));
    assert_eq!(document.findings[2].provenance.line, 0);
}
