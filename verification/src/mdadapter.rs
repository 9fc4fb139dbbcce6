//! The markdown adapter: which files it reads, which tables in them, and how
//! a table's rows become interface-document nodes and edges.

use vstd::prelude::*;

use crate::adapter::{
    adapter_edges_view, adapter_nodes_view, finding, findings_view, Document, Edge, EdgeView, Issue, IssueView, Node,
    NodeView, Provenance, ProvenanceView,
};
use crate::assoc::contains_text;
use crate::coverage::{insert_text_sorted, text_put};
use crate::graph::same_text;
use crate::json::{members_view, object_put, Json, JsonValue};
use crate::mdtable::{Row, RowView, Table, TableView};
use crate::seqs::{first_index, lemma_first_index_at};
use crate::trace::put_all;
use crate::pattern::{escaped, regex_check, regex_compiles, regex_error_text, regex_escape, regex_finds, regex_search};
use crate::text::{msg3, msg4, msg5, nat_text, push_char, push_str, split_on, str_eq, texts, trim, usize_text};
use crate::trace::pairs_view;

verus! {

/// Which column holds a row's ID: by position or by header text.
#[derive(Debug)]
pub enum IdColumn {
    Index(usize),
    Name(String),
}

pub enum IdColumnView {
    Index(nat),
    Name(Seq<char>),
}

impl View for IdColumn {
    type V = IdColumnView;

    open spec fn view(&self) -> IdColumnView {
        match self {
            IdColumn::Index(i) => IdColumnView::Index(*i as nat),
            IdColumn::Name(n) => IdColumnView::Name(n@),
        }
    }
}

/// How one kind of table is read.
#[derive(Debug)]
pub struct TableConfig {
    /// The pattern a table's heading must match; `None` reads every table.
    pub heading: Option<String>,
    pub kind: String,
    pub id_column: IdColumn,
    /// Header to attr name, in header order.
    pub column_map: Vec<(String, String)>,
    /// Header to edge kind, in header order.
    pub edge_columns: Vec<(String, String)>,
}

pub struct TableConfigView {
    pub heading: Option<Seq<char>>,
    pub kind: Seq<char>,
    pub id_column: IdColumnView,
    pub column_map: Seq<(Seq<char>, Seq<char>)>,
    pub edge_columns: Seq<(Seq<char>, Seq<char>)>,
}

impl View for TableConfig {
    type V = TableConfigView;

    open spec fn view(&self) -> TableConfigView {
        TableConfigView {
            heading: match self.heading {
                Some(h) => Some(h@),
                None => None,
            },
            kind: self.kind@,
            id_column: self.id_column@,
            column_map: pairs_view(self.column_map@),
            edge_columns: pairs_view(self.edge_columns@),
        }
    }
}

/// The adapter's reading of a resolved profile.
#[derive(Debug)]
pub struct Config {
    pub files: Vec<String>,
    pub tables: Vec<TableConfig>,
    /// Whether the profile declared several tables, so that a table no
    /// configuration claims is worth reporting.
    pub multi_table: bool,
}

pub struct ConfigView {
    pub files: Seq<Seq<char>>,
    pub tables: Seq<TableConfigView>,
    pub multi_table: bool,
}

impl View for Config {
    type V = ConfigView;

    open spec fn view(&self) -> ConfigView {
        ConfigView {
            files: texts(self.files@),
            tables: self.tables@.map_values(|t: TableConfig| t@),
            multi_table: self.multi_table,
        }
    }
}

/// A key that may be absent, present as `null`, or present with a value.
pub enum Presence<T> {
    Absent,
    Null,
    Value(T),
}

/// `adapter.table`: one table for the profile's one node kind.
pub struct TableDecl {
    pub id_column: IdColumn,
    pub column_map: Vec<(String, String)>,
    pub edge_columns: Vec<(String, String)>,
}

/// One entry of `adapter.tables`.
pub struct RawTableConfig {
    pub heading: String,
    pub kind: String,
    pub id_column: IdColumn,
    pub column_map: Vec<(String, String)>,
    pub edge_columns: Vec<(String, String)>,
}

/// What the adapter reads of a resolved profile document.
pub struct ProfileDocument {
    pub resolved_schema: String,
    /// `adapter.paths.files`.
    pub files: Vec<String>,
    pub table: Presence<TableDecl>,
    pub tables: Presence<Vec<RawTableConfig>>,
    /// The keys of `node_kinds`.
    pub node_kinds: Vec<String>,
}

// ---------------------------------------------------------------- the model

/// Every error of loading starts by naming the profile.
pub open spec fn load_prefix(path: Seq<char>) -> Seq<char> {
    "could not load profile "@ + path + ": "@
}

/// Why one `adapter.tables` entry is refused.
pub open spec fn raw_table_refusal(t: RawTableConfig, kinds: Seq<Seq<char>>) -> Option<Seq<char>> {
    if !kinds.contains(t.kind@) {
        Some("table kind '"@ + t.kind@ + "' is not declared in 'node_kinds'"@)
    } else if !regex_compiles(t.heading@) {
        Some("invalid heading regex '"@ + t.heading@ + "': "@ + regex_error_text(t.heading@))
    } else {
        None
    }
}

/// The first refusal among the first `k` entries.
pub open spec fn tables_refusal(ts: Seq<RawTableConfig>, kinds: Seq<Seq<char>>, k: nat) -> Option<Seq<char>>
    decreases k,
{
    if k == 0 || k > ts.len() {
        None
    } else {
        match tables_refusal(ts, kinds, (k - 1) as nat) {
            Some(e) => Some(e),
            None => raw_table_refusal(ts[k - 1], kinds),
        }
    }
}

/// Why a decoded profile gives no configuration, after the common prefix.
pub open spec fn md_refusal(d: ProfileDocument) -> Option<Seq<char>> {
    if d.resolved_schema@ != "1"@ {
        Some("not a resolved profile document"@)
    } else if d.files@.len() == 0 || exists|i: int| 0 <= i < d.files@.len() && (#[trigger] d.files@[i])@.len() == 0 {
        Some("'adapter.paths.files' must contain a file glob"@)
    } else {
        match d.table {
            Presence::Value(_) => match d.tables {
                Presence::Absent => if d.node_kinds@.len() != 1 {
                    Some(
                        "md profiles using 'adapter.table' must declare exactly one node kind, found "@ + nat_text(
                            d.node_kinds@.len(),
                        ),
                    )
                } else {
                    None
                },
                _ => Some("declare only one of 'adapter.table' or 'adapter.tables'"@),
            },
            Presence::Absent => match d.tables {
                Presence::Value(ts) => tables_refusal(ts@, texts(d.node_kinds@), ts@.len()),
                Presence::Absent => Some("declare one of 'adapter.table' or 'adapter.tables'"@),
                Presence::Null => Some("declare only one of 'adapter.table' or 'adapter.tables'"@),
            },
            Presence::Null => Some("declare only one of 'adapter.table' or 'adapter.tables'"@),
        }
    }
}

/// The configuration an `adapter.tables` entry gives.
pub open spec fn raw_table_view(t: RawTableConfig) -> TableConfigView {
    TableConfigView {
        heading: Some(t.heading@),
        kind: t.kind@,
        id_column: t.id_column@,
        column_map: pairs_view(t.column_map@),
        edge_columns: pairs_view(t.edge_columns@),
    }
}

/// The configuration a profile the adapter accepts gives.
pub open spec fn md_config_view(d: ProfileDocument) -> ConfigView {
    match d.table {
        Presence::Value(t) => ConfigView {
            files: texts(d.files@),
            tables: seq![
                TableConfigView {
                    heading: None,
                    kind: d.node_kinds@[0]@,
                    id_column: t.id_column@,
                    column_map: pairs_view(t.column_map@),
                    edge_columns: pairs_view(t.edge_columns@),
                },
            ],
            multi_table: false,
        },
        _ => ConfigView {
            files: texts(d.files@),
            tables: match d.tables {
                Presence::Value(ts) => ts@.map_values(|t: RawTableConfig| raw_table_view(t)),
                _ => Seq::empty(),
            },
            multi_table: true,
        },
    }
}

// ---------------------------------------------------------------- loading

/// An error of loading the profile at `path`.
fn refuse(path: &str, msg: &str) -> (s: String)
    ensures
        s@ == load_prefix(path@) + msg@,
{
    msg4("could not load profile ", path, ": ", msg)
}

impl Config {
    /// Read the adapter's configuration from a decoded profile document, or
    /// say, naming the profile at `path`, why the document gives none.
    #[verifier::loop_isolation(false)]
    pub fn from_decoded(decoded: Result<ProfileDocument, String>, path: &str) -> (r: Result<Config, String>)
        ensures
            match decoded {
                Err(e) => r matches Err(m) && m@ == load_prefix(path@) + e@,
                Ok(d) => match md_refusal(d) {
                    Some(msg) => r matches Err(m) && m@ == load_prefix(path@) + msg,
                    None => r matches Ok(c) && c@ == md_config_view(d),
                },
            },
    {
        let d = match decoded {
            Ok(d) => d,
            Err(e) => return Err(refuse(path, e.as_str())),
        };
        if !crate::text::str_eq(d.resolved_schema.as_str(), "1") {
            return Err(refuse(path, "not a resolved profile document"));
        }
        let mut any_empty = d.files.len() == 0;
        let mut i: usize = 0;
        while i < d.files.len()
            invariant
                i <= d.files.len(),
                any_empty ==> d.files@.len() == 0 || exists|j: int| 0 <= j < i && (#[trigger] d.files@[j])@.len() == 0,
                !any_empty ==> d.files@.len() > 0 && forall|j: int| 0 <= j < i ==> (#[trigger] d.files@[j])@.len() > 0,
            decreases d.files.len() - i,
        {
            proof {
                reveal_strlit("");
            }
            if crate::text::str_eq(d.files[i].as_str(), "") {
                any_empty = true;
                assert(d.files@[i as int]@.len() == 0);
            } else {
                proof {
                    if d.files@[i as int]@.len() == 0 {
                        assert(d.files@[i as int]@ =~= ""@);
                    }
                }
            }
            i += 1;
        }
        if any_empty {
            return Err(refuse(path, "'adapter.paths.files' must contain a file glob"));
        }
        let ProfileDocument { resolved_schema, files, table, tables, node_kinds } = d;
        match table {
            Presence::Value(t) => match tables {
                Presence::Absent => {
                    if node_kinds.len() != 1 {
                        let n = usize_text(node_kinds.len());
                        let m = crate::text::msg2(
                            "md profiles using 'adapter.table' must declare exactly one node kind, found ",
                            n.as_str(),
                        );
                        return Err(refuse(path, m.as_str()));
                    }
                    let kind = node_kinds[0].clone();
                    let TableDecl { id_column, column_map, edge_columns } = t;
                    let one = TableConfig { heading: None, kind, id_column, column_map, edge_columns };
                    let mut list: Vec<TableConfig> = Vec::new();
                    list.push(one);
                    let c = Config { files, tables: list, multi_table: false };
                    assert(c@.tables =~= md_config_view(d).tables);
                    Ok(c)
                },
                _ => Err(refuse(path, "declare only one of 'adapter.table' or 'adapter.tables'")),
            },
            Presence::Absent => match tables {
                Presence::Value(ts) => {
                    let ghost all = ts@;
                    let ghost kinds = texts(node_kinds@);
                    assert(all.len() == ts.len());
                    let mut rest = ts;
                    let mut out: Vec<TableConfig> = Vec::new();
                    let mut k: usize = 0;
                    while rest.len() > 0
                        invariant
                            k + rest.len() == all.len(),
                            all.len() <= usize::MAX,
                            rest@ == all.skip(k as int),
                            kinds == texts(node_kinds@),
                            tables_refusal(all, kinds, k as nat) is None,
                            out@.map_values(|t: TableConfig| t@) == all.take(k as int).map_values(
                                |t: RawTableConfig| raw_table_view(t),
                            ),
                        decreases rest.len(),
                    {
                        let raw = rest.remove(0);
                        assert(all[k as int] == raw);
                        if !contains_text(&node_kinds, raw.kind.as_str()) {
                            proof {
                                lemma_tables_refusal_stops(all, kinds, (k + 1) as nat, all.len());
                            }
                            let m = msg3("table kind '", raw.kind.as_str(), "' is not declared in 'node_kinds'");
                            return Err(refuse(path, m.as_str()));
                        }
                        if let Err(e) = regex_check(raw.heading.as_str()) {
                            proof {
                                lemma_tables_refusal_stops(all, kinds, (k + 1) as nat, all.len());
                            }
                            let m = msg4("invalid heading regex '", raw.heading.as_str(), "': ", e.as_str());
                            return Err(refuse(path, m.as_str()));
                        }
                        let ghost old_out = out@;
                        let RawTableConfig { heading, kind, id_column, column_map, edge_columns } = raw;
                        out.push(TableConfig { heading: Some(heading), kind, id_column, column_map, edge_columns });
                        proof {
                            assert(all.take(k + 1) =~= all.take(k as int).push(all[k as int]));
                            assert(out@.map_values(|t: TableConfig| t@) =~= old_out.map_values(|t: TableConfig| t@).push(
                                raw_table_view(all[k as int]),
                            ));
                            assert(all.take(k + 1).map_values(|t: RawTableConfig| raw_table_view(t)) =~= all.take(
                                k as int,
                            ).map_values(|t: RawTableConfig| raw_table_view(t)).push(raw_table_view(all[k as int])));
                        }
                        k += 1;
                    }
                    assert(all.take(k as int) =~= all);
                    Ok(Config { files, tables: out, multi_table: true })
                },
                Presence::Absent => Err(refuse(path, "declare one of 'adapter.table' or 'adapter.tables'")),
                Presence::Null => Err(refuse(path, "declare only one of 'adapter.table' or 'adapter.tables'")),
            },
            Presence::Null => Err(refuse(path, "declare only one of 'adapter.table' or 'adapter.tables'")),
        }
    }
}

/// A refusal among the first `k` entries stands for every longer prefix.
proof fn lemma_tables_refusal_stops(ts: Seq<RawTableConfig>, kinds: Seq<Seq<char>>, k: nat, m: nat)
    requires
        k <= m <= ts.len(),
        tables_refusal(ts, kinds, k) is Some,
    ensures
        tables_refusal(ts, kinds, m) == tables_refusal(ts, kinds, k),
    decreases m - k,
{
    if m > k {
        lemma_tables_refusal_stops(ts, kinds, k, (m - 1) as nat);
    }
}

impl TableConfig {
    /// Whether a table under `heading` is read by this configuration.
    pub fn heading_matches(&self, heading: &str) -> (r: bool)
        ensures
            r == match self.heading {
                None => true,
                Some(p) => regex_compiles(p@) && regex_finds(p@, heading@),
            },
    {
        match &self.heading {
            None => true,
            Some(p) => match regex_search(p.as_str(), heading) {
                Some(found) => found,
                None => false,
            },
        }
    }
}

// ---------------------------------------------------------------- file globs

/// The regex text the glob from position `i` on stands for: `**/` any
/// directories or none, `**` anything, `*` anything within one path segment,
/// `?` one character of a segment, and every other character for itself.
pub open spec fn glob_from(p: Seq<char>, i: int) -> Seq<char>
    decreases p.len() - i,
{
    if i < 0 || i >= p.len() {
        Seq::empty()
    } else if p[i] == '*' && i + 1 < p.len() && p[i + 1] == '*' {
        if i + 2 < p.len() && p[i + 2] == '/' {
            "(?:.*/)?"@ + glob_from(p, i + 3)
        } else {
            ".*"@ + glob_from(p, i + 2)
        }
    } else if p[i] == '*' {
        "[^/]*"@ + glob_from(p, i + 1)
    } else if p[i] == '?' {
        "[^/]"@ + glob_from(p, i + 1)
    } else {
        escaped(seq![p[i]]) + glob_from(p, i + 1)
    }
}

/// A file glob as a regex anchored to the whole path.
pub open spec fn spec_glob_regex(p: Seq<char>) -> Seq<char> {
    "^"@ + glob_from(p, 0) + "$"@
}

/// Translate a file glob into the regex that matches the same paths.
pub fn glob_regex(pattern: &str) -> (r: String)
    ensures
        r@ == spec_glob_regex(pattern@),
{
    let chars = crate::text::chars_of(pattern);
    let ghost p = chars@;
    let mut regex = String::new();
    push_char(&mut regex, '^');
    let mut index: usize = 0;
    while index < chars.len()
        invariant
            p == chars@,
            p == pattern@,
            index <= chars.len(),
            regex@ + glob_from(p, index as int) == seq!['^'] + glob_from(p, 0),
        decreases chars.len() - index,
    {
        let ghost before = regex@;
        let ghost at = index as int;
        if chars[index] == '*' && index + 1 < chars.len() && chars[index + 1] == '*' {
            index += 2;
            if index < chars.len() && chars[index] == '/' {
                push_str(&mut regex, "(?:.*/)?");
                index += 1;
            } else {
                push_str(&mut regex, ".*");
            }
        } else if chars[index] == '*' {
            push_str(&mut regex, "[^/]*");
            index += 1;
        } else if chars[index] == '?' {
            push_str(&mut regex, "[^/]");
            index += 1;
        } else {
            let mut one = String::new();
            push_char(&mut one, chars[index]);
            assert(one@ =~= seq![p[at]]);
            let piece = regex_escape(one.as_str());
            push_str(&mut regex, piece.as_str());
            index += 1;
        }
        assert(regex@ + glob_from(p, index as int) =~= before + glob_from(p, at));
    }
    push_char(&mut regex, '$');
    proof {
        reveal_strlit("^");
        reveal_strlit("$");
        assert(glob_from(p, index as int) =~= Seq::<char>::empty());
    }
    assert(regex@ =~= spec_glob_regex(pattern@));
    regex
}

/// Which paths the profile's file globs select.
pub struct FileMatcher {
    /// The globs' regexes, each known to compile.
    pub patterns: Vec<String>,
}

/// Whether some glob's regex matches `path`.
pub open spec fn globs_match(patterns: Seq<Seq<char>>, path: Seq<char>) -> bool {
    exists|i: int| 0 <= i < patterns.len() && regex_finds(#[trigger] spec_glob_regex(patterns[i]), path)
}

impl FileMatcher {
    /// Compile each glob; the first that does not compile is refused.
    pub fn new(patterns: &Vec<String>) -> (r: Result<FileMatcher, String>)
        ensures
            match r {
                Ok(m) => texts(m.patterns@) == texts(patterns@).map_values(|g: Seq<char>| spec_glob_regex(g))
                    && forall|i: int| 0 <= i < patterns.len() ==> regex_compiles(#[trigger] spec_glob_regex(patterns@[i]@)),
                Err(e) => exists|i: int|
                    0 <= i < patterns.len() && !regex_compiles(#[trigger] spec_glob_regex(patterns@[i]@)) && e@
                        == "invalid file glob '"@ + patterns@[i]@ + "' in profile: "@ + regex_error_text(
                        spec_glob_regex(patterns@[i]@),
                    ),
            },
    {
        let mut out: Vec<String> = Vec::new();
        let mut i: usize = 0;
        while i < patterns.len()
            invariant
                i <= patterns.len(),
                texts(out@) == texts(patterns@).take(i as int).map_values(|g: Seq<char>| spec_glob_regex(g)),
                forall|j: int| 0 <= j < i ==> regex_compiles(#[trigger] spec_glob_regex(patterns@[j]@)),
            decreases patterns.len() - i,
        {
            let regex = glob_regex(patterns[i].as_str());
            if let Err(e) = regex_check(regex.as_str()) {
                return Err(msg4("invalid file glob '", patterns[i].as_str(), "' in profile: ", e.as_str()));
            }
            let ghost rv = regex@;
            let ghost old_out = texts(out@);
            out.push(regex);
            proof {
                let tp = texts(patterns@);
                assert(texts(out@) =~= old_out.push(rv));
                assert(tp.take(i + 1) =~= tp.take(i as int).push(tp[i as int]));
                assert(tp.take(i + 1).map_values(|g: Seq<char>| spec_glob_regex(g)) =~= tp.take(i as int).map_values(
                    |g: Seq<char>| spec_glob_regex(g),
                ).push(spec_glob_regex(tp[i as int])));
            }
            i += 1;
        }
        assert(texts(patterns@).take(patterns.len() as int) =~= texts(patterns@));
        assert(texts(out@) =~= texts(patterns@).map_values(|g: Seq<char>| spec_glob_regex(g)));
        Ok(FileMatcher { patterns: out })
    }

    /// Whether any glob selects `path`.
    pub fn matches(&self, path: &str) -> (r: bool)
        ensures
            r == exists|i: int|
                0 <= i < self.patterns.len() && regex_compiles(#[trigger] self.patterns@[i]@) && regex_finds(
                    self.patterns@[i]@,
                    path@,
                ),
    {
        let mut i: usize = 0;
        while i < self.patterns.len()
            invariant
                i <= self.patterns.len(),
                forall|j: int|
                    0 <= j < i ==> !(regex_compiles(#[trigger] self.patterns@[j]@) && regex_finds(self.patterns@[j]@, path@)),
            decreases self.patterns.len() - i,
        {
            if let Some(true) = regex_search(self.patterns[i].as_str(), path) {
                return true;
            }
            i += 1;
        }
        false
    }
}

// ---------------------------------------------------------------- tables

/// The first position of `x` among `s`.
pub open spec fn position(s: Seq<Seq<char>>, x: Seq<char>) -> Option<int> {
    first_index(s, same_text(x))
}

/// The mapping entries among the first `k` whose header the table has, each
/// with the header's position.
pub open spec fn spec_mapped(headers: Seq<Seq<char>>, mapping: Seq<(Seq<char>, Seq<char>)>, k: nat) -> Seq<(int, Seq<char>)>
    decreases k,
{
    if k == 0 || k > mapping.len() {
        Seq::empty()
    } else {
        let prev = spec_mapped(headers, mapping, (k - 1) as nat);
        match position(headers, mapping[k - 1].0) {
            Some(p) => prev.push((p, mapping[k - 1].1)),
            None => prev,
        }
    }
}

/// The configured ID column's position among the headers.
pub open spec fn spec_id_index(c: IdColumnView, headers: Seq<Seq<char>>) -> Option<int> {
    match c {
        IdColumnView::Index(i) => if i < headers.len() {
            Some(i as int)
        } else {
            None
        },
        IdColumnView::Name(n) => position(headers, n),
    }
}

/// How a refusal names the ID column.
pub open spec fn id_column_text(c: IdColumnView) -> Seq<char> {
    match c {
        IdColumnView::Index(i) => nat_text(i),
        IdColumnView::Name(n) => "'"@ + n + "'"@,
    }
}

/// The headers either mapping names, sorted and without repeats.
pub open spec fn declared_columns(c: TableConfigView) -> Seq<Seq<char>> {
    puts(puts(Seq::empty(), keys_of_pairs(c.column_map), c.column_map.len()), keys_of_pairs(c.edge_columns), c.edge_columns.len())
}

pub open spec fn keys_of_pairs(s: Seq<(Seq<char>, Seq<char>)>) -> Seq<Seq<char>> {
    s.map_values(|p: (Seq<char>, Seq<char>)| p.0)
}

/// The first `k` of `xs` added to a sorted list of distinct texts.
pub open spec fn puts(s: Seq<Seq<char>>, xs: Seq<Seq<char>>, k: nat) -> Seq<Seq<char>>
    decreases k,
{
    if k == 0 || k > xs.len() {
        s
    } else {
        text_put(puts(s, xs, (k - 1) as nat), xs[k - 1])
    }
}

/// A parse error of the adapter at a line of `file`.
pub open spec fn parse_finding(message: Seq<char>, file: Seq<char>, line: u32) -> IssueView {
    finding("error"@, "PARSE_ERROR"@, message, file, line, None)
}

/// One finding per declared column, among the first `k`, the headers lack.
pub open spec fn missing_columns(declared: Seq<Seq<char>>, headers: Seq<Seq<char>>, file: Seq<char>, line: u32, k: nat) -> Seq<
    IssueView,
>
    decreases k,
{
    if k == 0 || k > declared.len() {
        Seq::empty()
    } else {
        let prev = missing_columns(declared, headers, file, line, (k - 1) as nat);
        if headers.contains(declared[k - 1]) {
            prev
        } else {
            prev.push(
                parse_finding("configured column '"@ + declared[k - 1] + "' was not found in table headers"@, file, line),
            )
        }
    }
}

/// Why a row gives no node.
pub open spec fn row_refusal(r: RowView, width: nat, idx: int) -> Option<Seq<char>> {
    if r.cells.len() < width {
        Some("table row has fewer columns than its header ("@ + nat_text(r.cells.len()) + " < "@ + nat_text(width) + ")"@)
    } else if r.cells.len() > width {
        Some("table row has more columns than its header ("@ + nat_text(r.cells.len()) + " > "@ + nat_text(width) + ")"@)
    } else if trim(r.cells[idx]).len() == 0 {
        Some("table row has an empty ID column"@)
    } else {
        None
    }
}

/// The line a row's findings and entries are recorded at.
pub open spec fn row_line(r: RowView) -> u32 {
    (r.line as int) as u32
}

/// The findings of the first `k` rows.
pub open spec fn rows_findings(rows: Seq<RowView>, k: nat, width: nat, idx: int, file: Seq<char>) -> Seq<IssueView>
    decreases k,
{
    if k == 0 || k > rows.len() {
        Seq::empty()
    } else {
        let prev = rows_findings(rows, (k - 1) as nat, width, idx, file);
        match row_refusal(rows[k - 1], width, idx) {
            Some(m) => prev.push(parse_finding(m, file, row_line(rows[k - 1]))),
            None => prev,
        }
    }
}

/// A row's attrs: each mapped column's cell as a string, by attr name.
pub open spec fn row_attrs(attributes: Seq<(int, Seq<char>)>, cells: Seq<Seq<char>>) -> Seq<(Seq<char>, Json)> {
    put_all(attributes.map_values(|a: (int, Seq<char>)| (a.1, Json::Str(cells[a.0]))), attributes.len())
}

/// The node an accepted row gives.
pub open spec fn row_node(r: RowView, idx: int, attributes: Seq<(int, Seq<char>)>, kind: Seq<char>, file: Seq<char>) -> NodeView {
    NodeView {
        id: trim(r.cells[idx]),
        kind,
        attrs: row_attrs(attributes, r.cells),
        provenance: ProvenanceView { file, line: row_line(r) },
    }
}

/// The nodes of the first `k` rows.
pub open spec fn rows_nodes(
    rows: Seq<RowView>,
    k: nat,
    width: nat,
    idx: int,
    attributes: Seq<(int, Seq<char>)>,
    kind: Seq<char>,
    file: Seq<char>,
) -> Seq<NodeView>
    decreases k,
{
    if k == 0 || k > rows.len() {
        Seq::empty()
    } else {
        let prev = rows_nodes(rows, (k - 1) as nat, width, idx, attributes, kind, file);
        if row_refusal(rows[k - 1], width, idx) is None {
            prev.push(row_node(rows[k - 1], idx, attributes, kind, file))
        } else {
            prev
        }
    }
}

/// The targets a cell names: split at commas, trimmed, the empty ones dropped.
pub open spec fn targets(parts: Seq<Seq<char>>, k: nat) -> Seq<Seq<char>>
    decreases k,
{
    if k == 0 || k > parts.len() {
        Seq::empty()
    } else {
        let prev = targets(parts, (k - 1) as nat);
        if trim(parts[k - 1]).len() > 0 {
            prev.push(trim(parts[k - 1]))
        } else {
            prev
        }
    }
}

/// The edges of one row, through the first `k` edge columns.
pub open spec fn row_edges(cells: Seq<Seq<char>>, edges: Seq<(int, Seq<char>)>, k: nat, id: Seq<char>, prov: ProvenanceView) -> Seq<
    EdgeView,
>
    decreases k,
{
    if k == 0 || k > edges.len() {
        Seq::empty()
    } else {
        let parts = split_on(cells[edges[k - 1].0], ',');
        row_edges(cells, edges, (k - 1) as nat, id, prov) + targets(parts, parts.len()).map_values(
            |t: Seq<char>| EdgeView { src: id, tgt: t, kind: edges[k - 1].1, attrs: Seq::empty(), provenance: prov },
        )
    }
}

/// The edges of the first `k` rows.
pub open spec fn rows_edges(rows: Seq<RowView>, k: nat, width: nat, idx: int, edges: Seq<(int, Seq<char>)>, file: Seq<char>) -> Seq<
    EdgeView,
>
    decreases k,
{
    if k == 0 || k > rows.len() {
        Seq::empty()
    } else {
        let prev = rows_edges(rows, (k - 1) as nat, width, idx, edges, file);
        let r = rows[k - 1];
        if row_refusal(r, width, idx) is None {
            prev + row_edges(r.cells, edges, edges.len(), trim(r.cells[idx]), ProvenanceView { file, line: row_line(r) })
        } else {
            prev
        }
    }
}

/// The findings reading a table gives.
pub open spec fn table_findings(c: TableConfigView, t: TableView, line: u32, file: Seq<char>) -> Seq<IssueView> {
    let declared = declared_columns(c);
    let missing = missing_columns(declared, t.headers, file, line, declared.len());
    match spec_id_index(c.id_column, t.headers) {
        None => missing.push(
            parse_finding("configured ID column "@ + id_column_text(c.id_column) + " was not found in table headers"@, file, line),
        ),
        Some(idx) => missing + rows_findings(t.rows, t.rows.len(), t.headers.len(), idx, file),
    }
}

/// The nodes reading a table gives.
pub open spec fn table_nodes(c: TableConfigView, t: TableView, file: Seq<char>) -> Seq<NodeView> {
    match spec_id_index(c.id_column, t.headers) {
        None => Seq::empty(),
        Some(idx) => rows_nodes(
            t.rows,
            t.rows.len(),
            t.headers.len(),
            idx,
            spec_mapped(t.headers, c.column_map, c.column_map.len()),
            c.kind,
            file,
        ),
    }
}

/// The edges reading a table gives.
pub open spec fn table_edges(c: TableConfigView, t: TableView, file: Seq<char>) -> Seq<EdgeView> {
    match spec_id_index(c.id_column, t.headers) {
        None => Seq::empty(),
        Some(idx) => rows_edges(
            t.rows,
            t.rows.len(),
            t.headers.len(),
            idx,
            spec_mapped(t.headers, c.edge_columns, c.edge_columns.len()),
            file,
        ),
    }
}

/// The positions and names of mapped columns, by value.
pub open spec fn mapped_view(s: Seq<(usize, String)>) -> Seq<(int, Seq<char>)> {
    s.map_values(|e: (usize, String)| (e.0 as int, e.1@))
}

/// The first position of `x` among the headers.
fn position_of(headers: &Vec<String>, x: &str) -> (r: Option<usize>)
    ensures
        r is None <==> position(texts(headers@), x@) is None,
        r matches Some(p) ==> p < headers.len() && position(texts(headers@), x@) == Some(p as int),
{
    let ghost hs = texts(headers@);
    let mut i: usize = 0;
    while i < headers.len()
        invariant
            i <= headers.len(),
            hs == texts(headers@),
            forall|k: int| 0 <= k < i ==> !same_text(x@)(#[trigger] hs[k]),
        decreases headers.len() - i,
    {
        assert(hs[i as int] == headers@[i as int]@);
        if str_eq(headers[i].as_str(), x) {
            proof {
                lemma_first_index_at(hs, same_text(x@), i as int);
            }
            return Some(i);
        }
        i += 1;
    }
    proof {
        lemma_first_index_at(hs, same_text(x@), hs.len() as int);
    }
    None
}

/// The configured ID column's position among the headers.
pub fn id_index(config: &TableConfig, headers: &Vec<String>) -> (r: Option<usize>)
    ensures
        r is None <==> spec_id_index(config.id_column@, texts(headers@)) is None,
        r matches Some(p) ==> p < headers.len() && spec_id_index(config.id_column@, texts(headers@)) == Some(p as int),
{
    match &config.id_column {
        IdColumn::Index(i) => if *i < headers.len() {
            Some(*i)
        } else {
            None
        },
        IdColumn::Name(n) => position_of(headers, n.as_str()),
    }
}

/// The mapping entries whose header the table has, with the header's position.
pub fn mapped_columns(headers: &Vec<String>, mapping: &Vec<(String, String)>) -> (r: Vec<(usize, String)>)
    ensures
        mapped_view(r@) == spec_mapped(texts(headers@), pairs_view(mapping@), mapping.len() as nat),
        forall|i: int| 0 <= i < r.len() ==> (#[trigger] r@[i]).0 < headers.len(),
{
    let ghost hs = texts(headers@);
    let ghost mv = pairs_view(mapping@);
    let mut out: Vec<(usize, String)> = Vec::new();
    let mut i: usize = 0;
    while i < mapping.len()
        invariant
            i <= mapping.len(),
            hs == texts(headers@),
            mv == pairs_view(mapping@),
            mapped_view(out@) == spec_mapped(hs, mv, i as nat),
            forall|k: int| 0 <= k < out.len() ==> (#[trigger] out@[k]).0 < headers.len(),
        decreases mapping.len() - i,
    {
        assert(mv[i as int] == (mapping@[i as int].0@, mapping@[i as int].1@));
        let ghost before = out@;
        match position_of(headers, mapping[i].0.as_str()) {
            Some(p) => {
                out.push((p, mapping[i].1.clone()));
                assert(mapped_view(out@) =~= mapped_view(before).push((p as int, mapping@[i as int].1@)));
            },
            None => {
                assert(position(hs, mv[i as int].0) is None);
                assert(mapped_view(out@) == spec_mapped(hs, mv, (i + 1) as nat));
            },
        }
        i += 1;
    }
    out
}

/// The headers either mapping names, sorted and without repeats.
fn configured_columns(config: &TableConfig) -> (r: Vec<String>)
    ensures
        texts(r@) == declared_columns(config@),
{
    let ghost cm = keys_of_pairs(pairs_view(config.column_map@));
    let ghost em = keys_of_pairs(pairs_view(config.edge_columns@));
    let mut out: Vec<String> = Vec::new();
    assert(texts(out@) =~= Seq::<Seq<char>>::empty());
    let mut i: usize = 0;
    while i < config.column_map.len()
        invariant
            i <= config.column_map.len(),
            cm == keys_of_pairs(pairs_view(config.column_map@)),
            texts(out@) == puts(Seq::empty(), cm, i as nat),
        decreases config.column_map.len() - i,
    {
        assert(cm[i as int] == config.column_map@[i as int].0@);
        insert_text_sorted(&mut out, config.column_map[i].0.clone());
        i += 1;
    }
    let ghost first = texts(out@);
    let mut j: usize = 0;
    while j < config.edge_columns.len()
        invariant
            j <= config.edge_columns.len(),
            em == keys_of_pairs(pairs_view(config.edge_columns@)),
            first == puts(Seq::empty(), cm, cm.len()),
            texts(out@) == puts(first, em, j as nat),
        decreases config.edge_columns.len() - j,
    {
        assert(em[j as int] == config.edge_columns@[j as int].0@);
        insert_text_sorted(&mut out, config.edge_columns[j].0.clone());
        j += 1;
    }
    out
}

/// A row's attrs: each mapped column's cell as a string, by attr name.
fn attrs_of(attributes: &Vec<(usize, String)>, cells: &Vec<String>) -> (r: Vec<(String, JsonValue)>)
    requires
        forall|i: int| 0 <= i < attributes.len() ==> (#[trigger] attributes@[i]).0 < cells.len(),
    ensures
        members_view(r@) == row_attrs(mapped_view(attributes@), texts(cells@)),
{
    let ghost cv = texts(cells@);
    let ghost pairs = mapped_view(attributes@).map_values(|a: (int, Seq<char>)| (a.1, Json::Str(cv[a.0])));
    let mut r: Vec<(String, JsonValue)> = Vec::new();
    assert(members_view(r@) =~= Seq::<(Seq<char>, Json)>::empty()) by {
        crate::json::lemma_members(r@, 0);
    }
    let mut i: usize = 0;
    while i < attributes.len()
        invariant
            i <= attributes.len(),
            cv == texts(cells@),
            pairs == mapped_view(attributes@).map_values(|a: (int, Seq<char>)| (a.1, Json::Str(cv[a.0]))),
            forall|k: int| 0 <= k < attributes.len() ==> (#[trigger] attributes@[k]).0 < cells.len(),
            members_view(r@) == put_all(pairs, i as nat),
        decreases attributes.len() - i,
    {
        let at = attributes[i].0;
        assert(pairs[i as int] == (attributes@[i as int].1@, Json::Str(cv[at as int])));
        object_put(&mut r, attributes[i].1.clone(), JsonValue::Str(cells[at].clone()));
        i += 1;
    }
    r
}

/// Push the edges one row gives.
fn push_row_edges(
    out: &mut Vec<Edge>,
    cells: &Vec<String>,
    edges: &Vec<(usize, String)>,
    id: &String,
    file: &str,
    line: u32,
)
    requires
        forall|i: int| 0 <= i < edges.len() ==> (#[trigger] edges@[i]).0 < cells.len(),
    ensures
        adapter_edges_view(final(out)@) == adapter_edges_view(old(out)@) + row_edges(
            texts(cells@),
            mapped_view(edges@),
            edges.len() as nat,
            id@,
            ProvenanceView { file: file@, line },
        ),
{
    let ghost start = adapter_edges_view(out@);
    let ghost cv = texts(cells@);
    let ghost ev = mapped_view(edges@);
    let ghost prov = ProvenanceView { file: file@, line };
    let mut k: usize = 0;
    while k < edges.len()
        invariant
            k <= edges.len(),
            cv == texts(cells@),
            ev == mapped_view(edges@),
            prov == (ProvenanceView { file: file@, line }),
            forall|i: int| 0 <= i < edges.len() ==> (#[trigger] edges@[i]).0 < cells.len(),
            adapter_edges_view(out@) == start + row_edges(cv, ev, k as nat, id@, prov),
        decreases edges.len() - k,
    {
        let col = edges[k].0;
        let kind = &edges[k].1;
        let parts = crate::text::split_char(cells[col].as_str(), ',');
        let ghost pv = texts(parts@);
        assert(ev[k as int] == (col as int, kind@));
        assert(pv == split_on(cv[col as int], ','));
        let ghost mid = adapter_edges_view(out@);
        let mut j: usize = 0;
        while j < parts.len()
            invariant
                j <= parts.len(),
                pv == texts(parts@),
                prov == (ProvenanceView { file: file@, line }),
                adapter_edges_view(out@) == mid + targets(pv, j as nat).map_values(
                    |t: Seq<char>| EdgeView { src: id@, tgt: t, kind: kind@, attrs: Seq::empty(), provenance: prov },
                ),
            decreases parts.len() - j,
        {
            let t = crate::text::trim_str(parts[j].as_str());
            assert(pv[j as int] == parts@[j as int]@);
            let ghost before = adapter_edges_view(out@);
            proof {
                reveal_strlit("");
            }
            if !str_eq(t.as_str(), "") {
                let e = Edge {
                    src: id.clone(),
                    tgt: t,
                    kind: kind.clone(),
                    attrs: Vec::new(),
                    provenance: Provenance::new(crate::text::copy_str(file), line),
                };
                proof {
                    crate::json::lemma_members(e.attrs@, 0);
                    assert(members_view(e.attrs@) =~= Seq::<(Seq<char>, Json)>::empty());
                }
                let ghost ew = e@;
                out.push(e);
                proof {
                    assert(trim(pv[j as int]).len() > 0) by {
                        if trim(pv[j as int]).len() == 0 {
                            assert(trim(pv[j as int]) =~= ""@);
                        }
                    }
                    assert(adapter_edges_view(out@) =~= before.push(ew));
                    assert(targets(pv, (j + 1) as nat) =~= targets(pv, j as nat).push(trim(pv[j as int])));
                    assert(ew == (EdgeView { src: id@, tgt: trim(pv[j as int]), kind: kind@, attrs: Seq::empty(), provenance: prov }));
                    assert(mid + targets(pv, (j + 1) as nat).map_values(
                        |t: Seq<char>| EdgeView { src: id@, tgt: t, kind: kind@, attrs: Seq::empty(), provenance: prov },
                    ) =~= before.push(ew));
                }
            } else {
                assert(trim(pv[j as int]).len() == 0);
            }
            j += 1;
        }
        assert(targets(pv, pv.len()) == targets(pv, j as nat));
        k += 1;
    }
}

/// Read one table into the document: a finding for each configured column
/// the headers lack, and, once the ID column is found, for each row the
/// header does not fit or whose ID is blank; a node for every other row, and
/// an edge for each non-empty comma-separated target of its edge columns.
pub fn read_table(document: &mut Document, config: &TableConfig, table: &Table, table_line: usize, file: &str)
    ensures
        final(document).interface_version == old(document).interface_version,
        final(document).pathways == old(document).pathways,
        findings_view(final(document).findings@) == findings_view(old(document).findings@) + table_findings(
            config@,
            table@,
            table_line as u32,
            file@,
        ),
        adapter_nodes_view(final(document).nodes@) == adapter_nodes_view(old(document).nodes@) + table_nodes(
            config@,
            table@,
            file@,
        ),
        adapter_edges_view(final(document).edges@) == adapter_edges_view(old(document).edges@) + table_edges(
            config@,
            table@,
            file@,
        ),
{
    let ghost f0 = findings_view(document.findings@);
    let ghost n0 = adapter_nodes_view(document.nodes@);
    let ghost e0 = adapter_edges_view(document.edges@);
    let ghost cv = config@;
    let ghost tv = table@;
    let line = table_line as u32;
    let attributes = mapped_columns(&table.headers, &config.column_map);
    let edges = mapped_columns(&table.headers, &config.edge_columns);
    let declared = configured_columns(config);
    let ghost dv = texts(declared@);
    let mut i: usize = 0;
    while i < declared.len()
        invariant
            i <= declared.len(),
            dv == texts(declared@),
            tv == table@,
            n0 == adapter_nodes_view(document.nodes@),
            e0 == adapter_edges_view(document.edges@),
            document.interface_version == old(document).interface_version,
            document.pathways == old(document).pathways,
            findings_view(document.findings@) == f0 + missing_columns(dv, tv.headers, file@, line, i as nat),
        decreases declared.len() - i,
    {
        assert(dv[i as int] == declared@[i as int]@);
        if !contains_text(&table.headers, declared[i].as_str()) {
            let m = msg3("configured column '", declared[i].as_str(), "' was not found in table headers");
            document.parse_error(m, crate::text::copy_str(file), line);
        }
        i += 1;
    }
    let ghost missing = findings_view(document.findings@);
    let idx = match id_index(config, &table.headers) {
        Some(x) => x,
        None => {
            let column = match &config.id_column {
                IdColumn::Index(k) => usize_text(*k),
                IdColumn::Name(n) => msg3("'", n.as_str(), "'"),
            };
            let m = msg3("configured ID column ", column.as_str(), " was not found in table headers");
            document.parse_error(m, crate::text::copy_str(file), line);
            return;
        },
    };
    let ghost width = tv.headers.len();
    let ghost av = mapped_view(attributes@);
    let ghost ev = mapped_view(edges@);
    assert(idx < table.headers.len());
    let mut r: usize = 0;
    while r < table.rows.len()
        invariant
            r <= table.rows.len(),
            tv == table@,
            cv == config@,
            width == table.headers.len(),
            spec_id_index(cv.id_column, tv.headers) == Some(idx as int),
            idx < table.headers.len(),
            av == mapped_view(attributes@),
            ev == mapped_view(edges@),
            av == spec_mapped(tv.headers, cv.column_map, cv.column_map.len()),
            ev == spec_mapped(tv.headers, cv.edge_columns, cv.edge_columns.len()),
            forall|k: int| 0 <= k < attributes.len() ==> (#[trigger] attributes@[k]).0 < table.headers.len(),
            forall|k: int| 0 <= k < edges.len() ==> (#[trigger] edges@[k]).0 < table.headers.len(),
            document.interface_version == old(document).interface_version,
            document.pathways == old(document).pathways,
            findings_view(document.findings@) == missing + rows_findings(tv.rows, r as nat, width, idx as int, file@),
            adapter_nodes_view(document.nodes@) == n0 + rows_nodes(tv.rows, r as nat, width, idx as int, av, cv.kind, file@),
            adapter_edges_view(document.edges@) == e0 + rows_edges(tv.rows, r as nat, width, idx as int, ev, file@),
        decreases table.rows.len() - r,
    {
        let row = &table.rows[r];
        let ghost rv = row@;
        assert(tv.rows[r as int] == rv);
        let ghost fb = findings_view(document.findings@);
        let ghost nb = adapter_nodes_view(document.nodes@);
        let ghost eb = adapter_edges_view(document.edges@);
        let width_now = table.headers.len();
        let row_line_now = row.line as u32;
        assert(row_line_now == row_line(rv));
        if row.cells.len() < width_now {
            let a = usize_text(row.cells.len());
            let b = usize_text(width_now);
            let m = msg5("table row has fewer columns than its header (", a.as_str(), " < ", b.as_str(), ")");
            document.parse_error(m, crate::text::copy_str(file), row_line_now);
        } else if row.cells.len() > width_now {
            let a = usize_text(row.cells.len());
            let b = usize_text(width_now);
            let m = msg5("table row has more columns than its header (", a.as_str(), " > ", b.as_str(), ")");
            document.parse_error(m, crate::text::copy_str(file), row_line_now);
        } else {
            let id = crate::text::trim_str(row.cells[idx].as_str());
            assert(rv.cells[idx as int] == row.cells@[idx as int]@);
            proof {
                reveal_strlit("");
            }
            if str_eq(id.as_str(), "") {
                document.parse_error(
                    crate::text::copy_str("table row has an empty ID column"),
                    crate::text::copy_str(file),
                    row_line_now,
                );
            } else {
                proof {
                    if trim(rv.cells[idx as int]).len() == 0 {
                        assert(trim(rv.cells[idx as int]) =~= ""@);
                    }
                }
                let attrs = attrs_of(&attributes, &row.cells);
                let node = Node {
                    id: id.clone(),
                    kind: config.kind.clone(),
                    attrs,
                    provenance: Provenance::new(crate::text::copy_str(file), row_line_now),
                };
                let ghost nw = node@;
                assert(nw == row_node(rv, idx as int, av, cv.kind, file@));
                document.nodes.push(node);
                assert(adapter_nodes_view(document.nodes@) =~= nb.push(nw));
                push_row_edges(&mut document.edges, &row.cells, &edges, &id, file, row_line_now);
            }
        }
        proof {
            assert(tv.rows.take(r as int + 1) == tv.rows.take(r as int + 1));
        }
        r += 1;
    }
}

/// Whether a configuration reads a table under `heading`.
pub open spec fn claims(t: TableConfigView, heading: Seq<char>) -> bool {
    match t.heading {
        None => true,
        Some(p) => regex_compiles(p) && regex_finds(p, heading),
    }
}

/// The first configuration that reads a table under `heading`.
pub open spec fn claiming(ts: Seq<TableConfigView>, heading: Seq<char>) -> Option<int> {
    first_index(ts, |t: TableConfigView| claims(t, heading))
}

/// Read one table found in a file: by the first configuration whose heading
/// pattern matches the heading above it (`""` where there is none), or, when
/// the profile declares several tables and none claims it, a finding.
#[verifier::loop_isolation(false)]
pub fn read_found_table(
    document: &mut Document,
    config: &Config,
    heading: Option<&str>,
    table: &Table,
    table_line: usize,
    file: &str,
)
    ensures
        final(document).interface_version == old(document).interface_version,
        final(document).pathways == old(document).pathways,
        match claiming(config@.tables, match heading { Some(h) => h@, None => ""@ }) {
            Some(i) => {
                &&& findings_view(final(document).findings@) == findings_view(old(document).findings@) + table_findings(
                    config@.tables[i],
                    table@,
                    table_line as u32,
                    file@,
                )
                &&& adapter_nodes_view(final(document).nodes@) == adapter_nodes_view(old(document).nodes@) + table_nodes(
                    config@.tables[i],
                    table@,
                    file@,
                )
                &&& adapter_edges_view(final(document).edges@) == adapter_edges_view(old(document).edges@) + table_edges(
                    config@.tables[i],
                    table@,
                    file@,
                )
            },
            None => {
                &&& final(document).nodes == old(document).nodes
                &&& final(document).edges == old(document).edges
                &&& findings_view(final(document).findings@) == if config.multi_table {
                    findings_view(old(document).findings@).push(
                        parse_finding(
                            "table under heading '"@ + match heading {
                                Some(h) => h@,
                                None => "no heading"@,
                            } + "' matches no table configuration"@,
                            file@,
                            table_line as u32,
                        ),
                    )
                } else {
                    findings_view(old(document).findings@)
                }
            },
        },
{
    let text: &str = match heading {
        Some(h) => h,
        None => "",
    };
    let ghost tv = config@.tables;
    let ghost f = |t: TableConfigView| claims(t, text@);
    let mut i: usize = 0;
    while i < config.tables.len()
        invariant
            i <= config.tables.len(),
            tv == config@.tables,
            f == (|t: TableConfigView| claims(t, text@)),
            forall|k: int| 0 <= k < i ==> !f(#[trigger] tv[k]),
            document.interface_version == old(document).interface_version,
            document.pathways == old(document).pathways,
            document.nodes == old(document).nodes,
            document.edges == old(document).edges,
            document.findings == old(document).findings,
        decreases config.tables.len() - i,
    {
        assert(tv[i as int] == config.tables@[i as int]@);
        if config.tables[i].heading_matches(text) {
            proof {
                lemma_first_index_at(tv, f, i as int);
            }
            read_table(document, &config.tables[i], table, table_line, file);
            return;
        }
        i += 1;
    }
    proof {
        lemma_first_index_at(tv, f, tv.len() as int);
    }
    if config.multi_table {
        let shown: &str = match heading {
            Some(h) => h,
            None => "no heading",
        };
        let m = msg3("table under heading '", shown, "' matches no table configuration");
        document.parse_error(m, crate::text::copy_str(file), table_line as u32);
    }
}

} // verus!
