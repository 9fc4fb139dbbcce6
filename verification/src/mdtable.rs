//! Markdown tables: a header row, a separator row of dashes, then data rows,
//! each data row keeping its one-based source line.

use vstd::prelude::*;

use crate::text::{
    chars_of, contains_char, lines_of, push_char, string_of_range, text_lines, texts, trim,
    trim_str, without_prefix, without_prefix_str, without_suffix, without_suffix_str,
};

verus! {

broadcast use vstd::string::group_string_axioms;

/// One table: its header cells and its data rows.
#[derive(Debug, PartialEq, Eq)]
pub struct Table {
    pub headers: Vec<String>,
    pub rows: Vec<Row>,
}

/// One data row: its cells and its one-based line in the text.
#[derive(Debug, PartialEq, Eq)]
pub struct Row {
    pub cells: Vec<String>,
    pub line: usize,
}

pub struct RowView {
    pub cells: Seq<Seq<char>>,
    pub line: nat,
}

pub struct TableView {
    pub headers: Seq<Seq<char>>,
    pub rows: Seq<RowView>,
}

impl View for Row {
    type V = RowView;

    open spec fn view(&self) -> RowView {
        RowView { cells: texts(self.cells@), line: self.line as nat }
    }
}

impl View for Table {
    type V = TableView;

    open spec fn view(&self) -> TableView {
        TableView { headers: texts(self.headers@), rows: self.rows@.map_values(|r: Row| r@) }
    }
}

/// The cells of a row's inner text: split at `|`, where `\|` stands for a
/// literal pipe, each cell trimmed. Scanning starts at `i` with the cells
/// `done` and the open cell `cur`.
pub open spec fn split_cells_from(s: Seq<char>, i: int, done: Seq<Seq<char>>, cur: Seq<char>) -> Seq<
    Seq<char>,
>
    decreases s.len() - i,
{
    if i >= s.len() || i < 0 {
        done.push(trim(cur))
    } else if s[i] == '\\' && i + 1 < s.len() && s[i + 1] == '|' {
        split_cells_from(s, i + 2, done, cur.push('|'))
    } else if s[i] == '|' {
        split_cells_from(s, i + 1, done.push(trim(cur)), Seq::empty())
    } else {
        split_cells_from(s, i + 1, done, cur.push(s[i]))
    }
}

/// The cells of a row's inner text.
pub open spec fn spec_split_cells(inner: Seq<char>) -> Seq<Seq<char>> {
    split_cells_from(inner, 0, Seq::empty(), Seq::empty())
}

/// The cells of a line that holds a `|`: the trimmed line without one leading
/// and one trailing `|`, split into cells.
pub open spec fn spec_cells(line: Seq<char>) -> Option<Seq<Seq<char>>> {
    let t = trim(line);
    if !t.contains('|') {
        None
    } else {
        Some(spec_split_cells(without_suffix(without_prefix(t, seq!['|']), seq!['|'])))
    }
}

/// A separator cell: at least three dashes, with an optional `:` at either end.
pub open spec fn spec_is_separator_cell(cell: Seq<char>) -> bool {
    let middle = without_suffix(without_prefix(cell, seq![':']), seq![':']);
    middle.len() >= 3 && forall|k: int| 0 <= k < middle.len() ==> middle[k] == '-'
}

/// A separator row: at least one cell, every cell a separator cell.
pub open spec fn spec_is_separator(row: Seq<Seq<char>>) -> bool {
    row.len() > 0 && forall|k: int| 0 <= k < row.len() ==> spec_is_separator_cell(#[trigger] row[k])
}

/// The first index at or after `i` whose line holds no cells.
pub open spec fn rows_end(lines: Seq<Seq<char>>, i: int) -> int
    decreases lines.len() - i,
{
    if i >= lines.len() || i < 0 {
        lines.len() as int
    } else if spec_cells(lines[i]) is None {
        i
    } else {
        rows_end(lines, i + 1)
    }
}

/// The data rows on the lines `from..to`.
pub open spec fn rows_between(lines: Seq<Seq<char>>, from: int, to: int) -> Seq<RowView> {
    Seq::new(
        (to - from) as nat,
        |k: int| RowView { cells: spec_cells(lines[from + k])->0, line: (from + k + 1) as nat },
    )
}

/// Whether a table starts at line `i`: it and the next line hold cells, as
/// many in each, and the next is a separator row.
pub open spec fn table_starts(lines: Seq<Seq<char>>, i: int) -> bool {
    &&& 0 <= i
    &&& i + 1 < lines.len()
    &&& spec_cells(lines[i]) is Some
    &&& spec_cells(lines[i + 1]) is Some
    &&& spec_cells(lines[i])->0.len() == spec_cells(lines[i + 1])->0.len()
    &&& spec_is_separator(spec_cells(lines[i + 1])->0)
}

/// The tables found from line `i` on.
pub open spec fn tables_from(lines: Seq<Seq<char>>, i: int) -> Seq<TableView>
    decreases lines.len() - i,
{
    if i < 0 || i + 1 >= lines.len() {
        Seq::empty()
    } else if table_starts(lines, i) {
        let end = rows_end(lines, i + 2);
        proof {
            lemma_rows_end(lines, i + 2);
        }
        seq![
            TableView { headers: spec_cells(lines[i])->0, rows: rows_between(lines, i + 2, end) },
        ] + tables_from(lines, end)
    } else {
        tables_from(lines, i + 1)
    }
}

/// The tables of a markdown text.
pub open spec fn spec_tables(text: Seq<char>) -> Seq<TableView> {
    tables_from(text_lines(text), 0)
}

pub proof fn lemma_rows_end(lines: Seq<Seq<char>>, i: int)
    requires
        0 <= i <= lines.len(),
    ensures
        i <= rows_end(lines, i) <= lines.len(),
        forall|k: int| i <= k < rows_end(lines, i) ==> (#[trigger] spec_cells(lines[k])) is Some,
        rows_end(lines, i) < lines.len() ==> spec_cells(lines[rows_end(lines, i)]) is None,
    decreases lines.len() - i,
{
    if i < lines.len() && spec_cells(lines[i]) is Some {
        lemma_rows_end(lines, i + 1);
    }
}

fn split_cells(inner: &str) -> (cells: Vec<String>)
    ensures
        texts(cells@) == spec_split_cells(inner@),
{
    let v = chars_of(inner);
    let mut cells: Vec<String> = Vec::new();
    let mut current = String::new();
    let mut i: usize = 0;
    assert(texts(cells@) =~= Seq::<Seq<char>>::empty());
    assert(current@ =~= Seq::<char>::empty());
    while i < v.len()
        invariant
            v@ == inner@,
            i <= v.len(),
            split_cells_from(v@, i as int, texts(cells@), current@) == spec_split_cells(inner@),
        decreases v.len() - i,
    {
        let character = v[i];
        if character == '\\' && i + 1 < v.len() && v[i + 1] == '|' {
            push_char(&mut current, '|');
            i += 2;
        } else if character == '|' {
            let cell = trim_str(current.as_str());
            let ghost before = texts(cells@);
            cells.push(cell);
            assert(texts(cells@) =~= before.push(trim(current@)));
            current = String::new();
            assert(current@ =~= Seq::<char>::empty());
            i += 1;
        } else {
            push_char(&mut current, character);
            i += 1;
        }
    }
    let last = trim_str(current.as_str());
    let ghost before = texts(cells@);
    cells.push(last);
    assert(texts(cells@) =~= before.push(trim(current@)));
    cells
}

/// The cells of one line, or `None` when it holds no `|`.
pub fn cells(line: &str) -> (r: Option<Vec<String>>)
    ensures
        match r {
            Some(c) => spec_cells(line@) == Some(texts(c@)),
            None => spec_cells(line@) is None,
        },
{
    let trimmed = trim_str(line);
    if !contains_char(trimmed.as_str(), '|') {
        return None;
    }
    let without_leading = without_prefix_str(trimmed.as_str(), "|");
    let inner = without_suffix_str(without_leading.as_str(), "|");
    proof {
        reveal_strlit("|");
        assert("|"@ =~= seq!['|']);
    }
    Some(split_cells(inner.as_str()))
}

/// Whether one cell is a separator cell.
pub fn is_separator_cell(cell: &str) -> (r: bool)
    ensures
        r == spec_is_separator_cell(cell@),
{
    let a = without_prefix_str(cell, ":");
    let middle = without_suffix_str(a.as_str(), ":");
    proof {
        reveal_strlit(":");
        assert(":"@ =~= seq![':']);
    }
    let v = chars_of(middle.as_str());
    if v.len() < 3 {
        return false;
    }
    let mut i: usize = 0;
    while i < v.len()
        invariant
            v@ == middle@,
            middle@ == without_suffix(without_prefix(cell@, seq![':']), seq![':']),
            i <= v.len(),
            forall|k: int| 0 <= k < i ==> v@[k] == '-',
        decreases v.len() - i,
    {
        if v[i] != '-' {
            assert(middle@[i as int] != '-');
            return false;
        }
        i += 1;
    }
    true
}

/// Whether a row of cells is a separator row.
pub fn is_separator(row: &Vec<String>) -> (r: bool)
    ensures
        r == spec_is_separator(texts(row@)),
{
    if row.len() == 0 {
        return false;
    }
    let mut i: usize = 0;
    while i < row.len()
        invariant
            i <= row.len(),
            forall|k: int| 0 <= k < i ==> spec_is_separator_cell(#[trigger] texts(row@)[k]),
        decreases row.len() - i,
    {
        if !is_separator_cell(row[i].as_str()) {
            assert(texts(row@)[i as int] == row@[i as int]@);
            return false;
        }
        i += 1;
    }
    true
}

/// The markdown tables of `text`, in order, each data row with its one-based
/// source line. A table is a line of cells, then a separator row with as many
/// cells; its rows run until the first line without a `|`.
pub fn tables(text: &str) -> (found: Vec<Table>)
    ensures
        found@.map_values(|t: Table| t@) == spec_tables(text@),
{
    let lines = lines_of(text);
    let ghost lv = texts(lines@);
    let mut found: Vec<Table> = Vec::new();
    let mut index: usize = 0;
    while index < lines.len() && index + 1 < lines.len()
        invariant
            lv == texts(lines@),
            lv == text_lines(text@),
            index <= lines.len(),
            found@.map_values(|t: Table| t@) + tables_from(lv, index as int) == spec_tables(text@),
        decreases lines.len() - index,
    {
        assert(lv[index as int] == lines@[index as int]@);
        assert(lv[index + 1] == lines@[index + 1]@);
        let headers = match cells(lines[index].as_str()) {
            Some(h) => h,
            None => {
                index += 1;
                continue;
            },
        };
        let separator = match cells(lines[index + 1].as_str()) {
            Some(s) => s,
            None => {
                index += 1;
                continue;
            },
        };
        if headers.len() != separator.len() || !is_separator(&separator) {
            index += 1;
            continue;
        }
        assert(table_starts(lv, index as int));
        let start = index;
        index += 2;
        proof {
            lemma_rows_end(lv, index as int);
        }
        let mut rows: Vec<Row> = Vec::new();
        while index < lines.len()
            invariant_except_break
                lv == texts(lines@),
                lv.len() == lines.len(),
                start + 2 <= index <= rows_end(lv, start + 2),
                rows_end(lv, start + 2) <= lv.len(),
                forall|k: int|
                    start + 2 <= k < rows_end(lv, start + 2) ==> (#[trigger] spec_cells(lv[k])) is Some,
                rows_end(lv, start + 2) < lv.len() ==> spec_cells(lv[rows_end(lv, start + 2)]) is None,
                rows@.map_values(|r: Row| r@) == rows_between(lv, start + 2, index as int),
            ensures
                index == rows_end(lv, start + 2),
                rows@.map_values(|r: Row| r@) == rows_between(lv, start + 2, index as int),
            decreases lines.len() - index,
        {
            assert(lv[index as int] == lines@[index as int]@);
            let row = match cells(lines[index].as_str()) {
                Some(r) => r,
                None => {
                    break;
                },
            };
            let ghost before = rows@.map_values(|r: Row| r@);
            rows.push(Row { cells: row, line: index + 1 });
            assert(rows@.map_values(|r: Row| r@) =~= rows_between(lv, start + 2, index + 1)) by {
                assert(rows@.map_values(|r: Row| r@) =~= before.push(rows@.last()@));
            }
            index += 1;
        }
        let ghost before = found@.map_values(|t: Table| t@);
        let table = Table { headers, rows };
        found.push(table);
        assert(found@.map_values(|t: Table| t@) =~= before.push(table@));
        proof {
            assert(tables_from(lv, start as int) == seq![table@] + tables_from(lv, index as int));
            assert(before.push(table@) + tables_from(lv, index as int) =~= before + (seq![table@]
                + tables_from(lv, index as int)));
        }
    }
    assert(tables_from(lv, index as int) == Seq::<TableView>::empty());
    assert(found@.map_values(|t: Table| t@) + Seq::<TableView>::empty() =~= found@.map_values(
        |t: Table| t@,
    ));
    found
}

} // verus!
