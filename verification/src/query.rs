//! What the query command prints: a result set as a bordered table, as CSV
//! or as a JSON array of objects.
use vstd::prelude::*;
use vstd::string::*;
use vstd::utf8::encode_utf8;

use crate::text::{
    csv_row, csv_row_spec, decimal_spec, join_spec, json_escape, json_escape_spec, json_value,
    json_value_spec, push_char, push_str, string_views, unsigned_to_string,
};

verus! {

/// The columns and rows of a query, every value already rendered as text.
pub struct QueryResult {
    pub columns: Vec<String>,
    pub rows: Vec<Vec<String>>,
}

/// How a result is printed.
#[derive(Debug, Clone, Copy, PartialEq, Eq, Structural)]
pub enum OutputFormat {
    Table,
    Csv,
    Json,
}

impl QueryResult {
    /// The column names as text.
    pub open spec fn column_texts(&self) -> Seq<Seq<char>> {
        string_views(self.columns@)
    }

    /// The rows, each a sequence of cell texts.
    pub open spec fn row_texts(&self) -> Seq<Seq<Seq<char>>> {
        self.rows@.map_values(|r: Vec<String>| string_views(r@))
    }

    /// Every name and cell fits in memory: its UTF-8 encoding is at most
    /// `isize::MAX` bytes long.
    pub open spec fn fits(&self) -> bool {
        &&& forall|i: int| 0 <= i < self.columns@.len() ==> byte_len(#[trigger] self.columns@[i]@) <= isize::MAX
        &&& forall|r: int, i: int|
            0 <= r < self.rows@.len() && 0 <= i < self.rows@[r]@.len() ==> byte_len(
                #[trigger] self.rows@[r]@[i]@,
            ) <= isize::MAX
    }
}

// ── Specification ────────────────────────────────────────────────────────────

/// The length of the UTF-8 encoding of `s`, which is what `str::len` reports.
pub open spec fn byte_len(s: Seq<char>) -> nat {
    encode_utf8(s).len()
}

pub open spec fn max_nat(a: nat, b: nat) -> nat {
    if a >= b {
        a
    } else {
        b
    }
}

/// The width of each column: the byte length of its name, widened to the
/// byte length of every cell of the rows in that column.
pub open spec fn widths_spec(cols: Seq<Seq<char>>, rows: Seq<Seq<Seq<char>>>) -> Seq<nat>
    decreases rows.len(),
{
    if rows.len() == 0 {
        cols.map_values(|c: Seq<char>| byte_len(c))
    } else {
        let w = widths_spec(cols, rows.drop_last());
        let row = rows.last();
        Seq::new(
            w.len(),
            |i: int|
                if i < row.len() {
                    max_nat(w[i], byte_len(row[i]))
                } else {
                    w[i]
                },
        )
    }
}

/// `n` copies of `c`.
pub open spec fn repeat_spec(c: char, n: nat) -> Seq<char> {
    Seq::new(n, |i: int| c)
}

/// `s` followed by spaces up to `w` characters, as `{:w$}` writes it.
pub open spec fn pad_spec(s: Seq<char>, w: nat) -> Seq<char> {
    if s.len() < w {
        s + repeat_spec(' ', (w - s.len()) as nat)
    } else {
        s
    }
}

/// One table cell between its borders: a space, the padded text, a space.
pub open spec fn cell_spec(s: Seq<char>, w: nat) -> Seq<char> {
    seq![' '] + pad_spec(s, w) + seq![' ']
}

/// The `i`-th cell of a row, or nothing where the row is shorter.
pub open spec fn cell_or_empty(row: Seq<Seq<char>>, i: int) -> Seq<char> {
    if 0 <= i < row.len() {
        row[i]
    } else {
        Seq::empty()
    }
}

/// The horizontal rule: `+`, then per column its width plus two dashes,
/// with `+` between columns and at the end.
pub open spec fn separator_spec(widths: Seq<nat>) -> Seq<char> {
    seq!['+'] + join_spec(widths.map_values(|w: nat| repeat_spec('-', w + 2)), seq!['+'])
        + seq!['+']
}

/// A table line: one cell per column, `|` between them and at both ends.
pub open spec fn bordered_spec(cells: Seq<Seq<char>>, widths: Seq<nat>) -> Seq<char> {
    seq!['|'] + join_spec(
        Seq::new(widths.len(), |i: int| cell_spec(cell_or_empty(cells, i), widths[i])),
        seq!['|'],
    ) + seq!['|']
}

/// The lines of the table: rule, header, rule, one line per row, rule, and
/// the row count. Nothing at all when there are no columns.
pub open spec fn table_lines_spec(cols: Seq<Seq<char>>, rows: Seq<Seq<Seq<char>>>) -> Seq<
    Seq<char>,
> {
    if cols.len() == 0 {
        Seq::empty()
    } else {
        let w = widths_spec(cols, rows);
        let sep = separator_spec(w);
        seq![sep, bordered_spec(cols, w), sep] + rows.map_values(
            |r: Seq<Seq<char>>| bordered_spec(r, w),
        ) + seq![sep, decimal_spec(rows.len()) + " row(s)"@]
    }
}

/// The lines of the CSV output: the header, then one line per row.
pub open spec fn csv_lines_spec(cols: Seq<Seq<char>>, rows: Seq<Seq<Seq<char>>>) -> Seq<Seq<char>> {
    seq![csv_row_spec(cols)] + rows.map_values(|r: Seq<Seq<char>>| csv_row_spec(r))
}

/// One member of a JSON object: the column name and the cell, both strings.
pub open spec fn json_member_spec(col: Seq<char>, cell: Seq<char>) -> Seq<char> {
    seq!['"'] + json_escape_spec(col) + seq!['"', ':'] + json_value_spec(cell)
}

/// A row as a JSON object keyed by the column names.
pub open spec fn json_object_spec(cols: Seq<Seq<char>>, row: Seq<Seq<char>>) -> Seq<char> {
    seq!['{'] + join_spec(
        Seq::new(cols.len(), |i: int| json_member_spec(cols[i], cell_or_empty(row, i))),
        seq![','],
    ) + seq!['}']
}

/// The whole result as one JSON array of row objects.
pub open spec fn json_line_spec(cols: Seq<Seq<char>>, rows: Seq<Seq<Seq<char>>>) -> Seq<char> {
    seq!['['] + join_spec(
        rows.map_values(|r: Seq<Seq<char>>| json_object_spec(cols, r)),
        seq![','],
    ) + seq![']']
}

/// Lines as printed: each followed by a newline.
pub open spec fn lines_text(lines: Seq<Seq<char>>) -> Seq<char>
    decreases lines.len(),
{
    if lines.len() == 0 {
        Seq::empty()
    } else {
        lines_text(lines.drop_last()) + lines.last() + seq!['\n']
    }
}

/// Everything the query command prints for a result in the given format.
pub open spec fn output_spec(
    cols: Seq<Seq<char>>,
    rows: Seq<Seq<Seq<char>>>,
    format: OutputFormat,
) -> Seq<char> {
    match format {
        OutputFormat::Table => lines_text(table_lines_spec(cols, rows)),
        OutputFormat::Csv => lines_text(csv_lines_spec(cols, rows)),
        OutputFormat::Json => lines_text(seq![json_line_spec(cols, rows)]),
    }
}

// ── Building blocks ──────────────────────────────────────────────────────────

/// The byte length of a string, as `str::len` reports it.
fn byte_width(s: &String) -> (n: usize)
    requires
        byte_len(s@) <= isize::MAX,
    ensures
        n == byte_len(s@),
{
    s.as_str().len()
}

/// Appends `n` copies of `c`.
fn push_repeat(out: &mut String, c: char, n: usize)
    ensures
        final(out)@ == old(out)@ + repeat_spec(c, n as nat),
{
    let mut i: usize = 0;
    while i < n
        invariant
            i <= n,
            out@ == old(out)@ + repeat_spec(c, i as nat),
        decreases n - i,
    {
        push_char(out, c);
        assert(out@ =~= old(out)@ + repeat_spec(c, (i + 1) as nat));
        i = i + 1;
    }
}

/// Appends one table cell: a space, `s` padded to `w` characters, a space.
fn push_cell(out: &mut String, s: &str, w: usize)
    ensures
        final(out)@ == old(out)@ + cell_spec(s@, w as nat),
{
    let n = s.unicode_len();
    push_char(out, ' ');
    push_str(out, s);
    if n < w {
        push_repeat(out, ' ', w - n);
    }
    push_char(out, ' ');
    assert(out@ =~= old(out)@ + cell_spec(s@, w as nat));
}

/// Widths never exceed the longest text they were taken from.
proof fn lemma_widths_bounded(cols: Seq<Seq<char>>, rows: Seq<Seq<Seq<char>>>, b: nat)
    requires
        forall|i: int| 0 <= i < cols.len() ==> byte_len(#[trigger] cols[i]) <= b,
        forall|r: int, i: int|
            0 <= r < rows.len() && 0 <= i < rows[r].len() ==> byte_len(#[trigger] rows[r][i]) <= b,
    ensures
        widths_spec(cols, rows).len() == cols.len(),
        forall|i: int| 0 <= i < cols.len() ==> #[trigger] widths_spec(cols, rows)[i] <= b,
    decreases rows.len(),
{
    if rows.len() > 0 {
        let prev = rows.drop_last();
        assert forall|r: int, i: int| 0 <= r < prev.len() && 0 <= i < prev[r].len() implies byte_len(
            #[trigger] prev[r][i],
        ) <= b by {
            assert(prev[r] == rows[r]);
        }
        lemma_widths_bounded(cols, prev, b);
        let last = rows.last();
        assert forall|i: int| 0 <= i < last.len() implies byte_len(#[trigger] last[i]) <= b by {
            assert(last[i] == rows[rows.len() - 1][i]);
        }
    }
}

/// The column widths of a result.
pub fn column_widths(result: &QueryResult) -> (w: Vec<usize>)
    requires
        result.fits(),
    ensures
        w@.len() == result.columns@.len(),
        forall|i: int| 0 <= i < w@.len() ==> #[trigger] w@[i] <= isize::MAX,
        w@.map_values(|x: usize| x as nat) == widths_spec(result.column_texts(), result.row_texts()),
{
    let ghost cols = result.column_texts();
    let ghost rows = result.row_texts();
    let mut widths: Vec<usize> = Vec::new();
    let mut i: usize = 0;
    while i < result.columns.len()
        invariant
            result.fits(),
            cols == result.column_texts(),
            i <= result.columns@.len(),
            widths@.len() == i,
            forall|j: int| 0 <= j < i ==> #[trigger] widths@[j] == byte_len(cols[j]),
        decreases result.columns.len() - i,
    {
        assert(byte_len(result.columns@[i as int]@) <= isize::MAX);
        let b = byte_width(&result.columns[i]);
        widths.push(b);
        i = i + 1;
    }
    assert(widths@.map_values(|x: usize| x as nat) =~= widths_spec(cols, rows.take(0)));
    let mut r: usize = 0;
    while r < result.rows.len()
        invariant
            result.fits(),
            cols == result.column_texts(),
            rows == result.row_texts(),
            r <= result.rows@.len(),
            widths@.len() == cols.len(),
            widths@.map_values(|x: usize| x as nat) == widths_spec(cols, rows.take(r as int)),
        decreases result.rows.len() - r,
    {
        let row = &result.rows[r];
        let ghost before = widths@;
        let ghost rowv = rows[r as int];
        assert(rowv == string_views(row@));
        let mut i: usize = 0;
        while i < widths.len()
            invariant
                result.fits(),
                r < result.rows@.len(),
                row == &result.rows@[r as int],
                rowv == string_views(row@),
                i <= widths@.len(),
                widths@.len() == before.len(),
                forall|j: int| 0 <= j < i ==> #[trigger] widths@[j] == (if j < rowv.len() {
                    max_nat(before[j] as nat, byte_len(rowv[j]))
                } else {
                    before[j] as nat
                }),
                forall|j: int| i <= j < widths@.len() ==> #[trigger] widths@[j] == before[j],
            decreases widths.len() - i,
        {
            if i < row.len() {
                assert(byte_len(result.rows@[r as int]@[i as int]@) <= isize::MAX);
                let b = byte_width(&row[i]);
                if b > widths[i] {
                    widths.set(i, b);
                }
            }
            i = i + 1;
        }
        proof {
            let taken = rows.take(r + 1);
            assert(taken.drop_last() =~= rows.take(r as int));
            assert(taken.last() == rowv);
            assert(widths@.map_values(|x: usize| x as nat) =~= widths_spec(cols, taken));
        }
        r = r + 1;
    }
    proof {
        assert(rows.take(result.rows@.len() as int) =~= rows);
        lemma_widths_bounded(cols, rows, isize::MAX as nat);
        assert forall|i: int| 0 <= i < widths@.len() implies #[trigger] widths@[i] <= isize::MAX by {
            assert(widths@.map_values(|x: usize| x as nat)[i] == widths_spec(cols, rows)[i]);
        }
    }
    widths
}

/// The widths as natural numbers.
pub open spec fn nat_widths(w: Seq<usize>) -> Seq<nat> {
    w.map_values(|x: usize| x as nat)
}

/// The horizontal rule of a table with these column widths.
fn separator_line(widths: &Vec<usize>) -> (s: String)
    requires
        forall|i: int| 0 <= i < widths@.len() ==> #[trigger] widths@[i] <= isize::MAX,
    ensures
        s@ == separator_spec(nat_widths(widths@)),
{
    let ghost parts = nat_widths(widths@).map_values(|w: nat| repeat_spec('-', w + 2));
    let mut out = String::new();
    push_char(&mut out, '+');
    let mut i: usize = 0;
    while i < widths.len()
        invariant
            forall|i: int| 0 <= i < widths@.len() ==> #[trigger] widths@[i] <= isize::MAX,
            parts == nat_widths(widths@).map_values(|w: nat| repeat_spec('-', w + 2)),
            i <= widths@.len(),
            out@ == seq!['+'] + join_spec(parts.take(i as int), seq!['+']),
        decreases widths.len() - i,
    {
        assert(parts.take(i + 1).drop_last() =~= parts.take(i as int));
        if i > 0 {
            push_char(&mut out, '+');
        } else {
            assert(parts.take(i as int) =~= Seq::<Seq<char>>::empty());
        }
        assert(widths@[i as int] <= isize::MAX);
        push_repeat(&mut out, '-', widths[i] + 2);
        assert(parts[i as int] == repeat_spec('-', widths@[i as int] as nat + 2));
        assert(out@ =~= seq!['+'] + join_spec(parts.take(i + 1), seq!['+']));
        i = i + 1;
    }
    push_char(&mut out, '+');
    assert(parts.take(widths@.len() as int) =~= parts);
    assert(out@ =~= separator_spec(nat_widths(widths@)));
    out
}

/// One table line for `cells`, one padded cell per width; a missing cell
/// is printed empty.
fn bordered_line(cells: &Vec<String>, widths: &Vec<usize>) -> (s: String)
    ensures
        s@ == bordered_spec(string_views(cells@), nat_widths(widths@)),
{
    let ghost cv = string_views(cells@);
    let ghost w = nat_widths(widths@);
    let ghost parts = Seq::new(w.len(), |i: int| cell_spec(cell_or_empty(cv, i), w[i]));
    let mut out = String::new();
    push_char(&mut out, '|');
    let mut i: usize = 0;
    while i < widths.len()
        invariant
            cv == string_views(cells@),
            w == nat_widths(widths@),
            parts == Seq::new(w.len(), |i: int| cell_spec(cell_or_empty(cv, i), w[i])),
            i <= widths@.len(),
            out@ == seq!['|'] + join_spec(parts.take(i as int), seq!['|']),
        decreases widths.len() - i,
    {
        assert(parts.take(i + 1).drop_last() =~= parts.take(i as int));
        if i > 0 {
            push_char(&mut out, '|');
        } else {
            assert(parts.take(i as int) =~= Seq::<Seq<char>>::empty());
        }
        if i < cells.len() {
            push_cell(&mut out, cells[i].as_str(), widths[i]);
        } else {
            push_cell(&mut out, "", widths[i]);
            proof {
                reveal_strlit("");
            }
        }
        assert(out@ =~= seq!['|'] + join_spec(parts.take(i + 1), seq!['|']));
        i = i + 1;
    }
    push_char(&mut out, '|');
    assert(parts.take(widths@.len() as int) =~= parts);
    assert(out@ =~= bordered_spec(cv, w));
    out
}

/// Appends a line and its newline.
fn push_line(out: &mut String, line: &str, lines: Ghost<Seq<Seq<char>>>) -> (next: Ghost<
    Seq<Seq<char>>,
>)
    requires
        old(out)@ == lines_text(lines@),
    ensures
        next@ == lines@.push(line@),
        final(out)@ == lines_text(next@),
{
    push_str(out, line);
    push_char(out, '\n');
    assert(lines@.push(line@).drop_last() =~= lines@);
    assert(out@ =~= lines_text(lines@.push(line@)));
    Ghost(lines@.push(line@))
}

/// The table as printed: rules, header, rows and the row count.
pub fn table_text(result: &QueryResult) -> (s: String)
    requires
        result.fits(),
    ensures
        s@ == lines_text(table_lines_spec(result.column_texts(), result.row_texts())),
{
    let ghost cols = result.column_texts();
    let ghost rows = result.row_texts();
    let mut out = String::new();
    if result.columns.len() == 0 {
        assert(out@ =~= lines_text(Seq::empty()));
        return out;
    }
    let widths = column_widths(result);
    let ghost w = widths_spec(cols, rows);
    assert(nat_widths(widths@) == w);
    let sep = separator_line(&widths);
    let header = bordered_line(&result.columns, &widths);
    let mut lines: Ghost<Seq<Seq<char>>> = Ghost(Seq::empty());
    assert(out@ =~= lines_text(lines@));
    lines = push_line(&mut out, sep.as_str(), lines);
    lines = push_line(&mut out, header.as_str(), lines);
    lines = push_line(&mut out, sep.as_str(), lines);
    let ghost row_lines = rows.map_values(|r: Seq<Seq<char>>| bordered_spec(r, w));
    let ghost head = seq![separator_spec(w), bordered_spec(cols, w), separator_spec(w)];
    assert(lines@ =~= head + row_lines.take(0));
    let mut r: usize = 0;
    while r < result.rows.len()
        invariant
            rows == result.row_texts(),
            w == nat_widths(widths@),
            row_lines == rows.map_values(|r: Seq<Seq<char>>| bordered_spec(r, w)),
            r <= result.rows@.len(),
            out@ == lines_text(lines@),
            lines@ == head + row_lines.take(r as int),
        decreases result.rows.len() - r,
    {
        let line = bordered_line(&result.rows[r], &widths);
        lines = push_line(&mut out, line.as_str(), lines);
        assert(lines@ =~= head + row_lines.take(r + 1));
        r = r + 1;
    }
    lines = push_line(&mut out, sep.as_str(), lines);
    let mut count = unsigned_to_string(result.rows.len() as u128);
    push_str(&mut count, " row(s)");
    lines = push_line(&mut out, count.as_str(), lines);
    proof {
        assert(row_lines.take(rows.len() as int) =~= row_lines);
        assert(lines@ =~= table_lines_spec(cols, rows));
    }
    out
}

/// The CSV output: a header line, then one line per row.
pub fn csv_text(result: &QueryResult) -> (s: String)
    ensures
        s@ == lines_text(csv_lines_spec(result.column_texts(), result.row_texts())),
{
    let ghost cols = result.column_texts();
    let ghost rows = result.row_texts();
    let ghost row_lines = rows.map_values(|r: Seq<Seq<char>>| csv_row_spec(r));
    let mut out = String::new();
    let mut lines: Ghost<Seq<Seq<char>>> = Ghost(Seq::empty());
    assert(out@ =~= lines_text(lines@));
    let header = csv_row(result.columns.as_slice());
    lines = push_line(&mut out, header.as_str(), lines);
    assert(lines@ =~= seq![csv_row_spec(cols)] + row_lines.take(0));
    let mut r: usize = 0;
    while r < result.rows.len()
        invariant
            cols == result.column_texts(),
            rows == result.row_texts(),
            row_lines == rows.map_values(|r: Seq<Seq<char>>| csv_row_spec(r)),
            r <= result.rows@.len(),
            out@ == lines_text(lines@),
            lines@ == seq![csv_row_spec(cols)] + row_lines.take(r as int),
        decreases result.rows.len() - r,
    {
        let line = csv_row(result.rows[r].as_slice());
        lines = push_line(&mut out, line.as_str(), lines);
        assert(lines@ =~= seq![csv_row_spec(cols)] + row_lines.take(r + 1));
        r = r + 1;
    }
    assert(row_lines.take(rows.len() as int) =~= row_lines);
    assert(lines@ =~= csv_lines_spec(cols, rows));
    out
}

/// A row as a JSON object keyed by the column names.
fn json_object(columns: &Vec<String>, row: &Vec<String>) -> (s: String)
    ensures
        s@ == json_object_spec(string_views(columns@), string_views(row@)),
{
    let ghost cols = string_views(columns@);
    let ghost rv = string_views(row@);
    let ghost parts = Seq::new(
        cols.len(),
        |i: int| json_member_spec(cols[i], cell_or_empty(rv, i)),
    );
    let mut out = String::new();
    push_char(&mut out, '{');
    let mut i: usize = 0;
    while i < columns.len()
        invariant
            cols == string_views(columns@),
            rv == string_views(row@),
            parts == Seq::new(cols.len(), |i: int| json_member_spec(cols[i], cell_or_empty(rv, i))),
            i <= columns@.len(),
            out@ == seq!['{'] + join_spec(parts.take(i as int), seq![',']),
        decreases columns.len() - i,
    {
        assert(parts.take(i + 1).drop_last() =~= parts.take(i as int));
        if i > 0 {
            push_char(&mut out, ',');
        } else {
            assert(parts.take(i as int) =~= Seq::<Seq<char>>::empty());
        }
        let ghost before = out@;
        push_char(&mut out, '"');
        let name = json_escape(columns[i].as_str());
        push_str(&mut out, name.as_str());
        push_char(&mut out, '"');
        push_char(&mut out, ':');
        let value = if i < row.len() {
            json_value(row[i].as_str())
        } else {
            proof {
                reveal_strlit("");
            }
            json_value("")
        };
        push_str(&mut out, value.as_str());
        assert(out@ =~= before + parts[i as int]);
        assert(out@ =~= seq!['{'] + join_spec(parts.take(i + 1), seq![',']));
        i = i + 1;
    }
    push_char(&mut out, '}');
    assert(parts.take(columns@.len() as int) =~= parts);
    assert(out@ =~= json_object_spec(cols, rv));
    out
}

/// The JSON output: one line holding an array with an object per row.
pub fn json_text(result: &QueryResult) -> (s: String)
    ensures
        s@ == lines_text(seq![json_line_spec(result.column_texts(), result.row_texts())]),
{
    let ghost cols = result.column_texts();
    let ghost rows = result.row_texts();
    let ghost parts = rows.map_values(|r: Seq<Seq<char>>| json_object_spec(cols, r));
    let mut line = String::new();
    push_char(&mut line, '[');
    let mut r: usize = 0;
    while r < result.rows.len()
        invariant
            cols == result.column_texts(),
            rows == result.row_texts(),
            parts == rows.map_values(|r: Seq<Seq<char>>| json_object_spec(cols, r)),
            r <= result.rows@.len(),
            line@ == seq!['['] + join_spec(parts.take(r as int), seq![',']),
        decreases result.rows.len() - r,
    {
        assert(parts.take(r + 1).drop_last() =~= parts.take(r as int));
        if r > 0 {
            push_char(&mut line, ',');
        } else {
            assert(parts.take(r as int) =~= Seq::<Seq<char>>::empty());
        }
        let obj = json_object(&result.columns, &result.rows[r]);
        push_str(&mut line, obj.as_str());
        assert(line@ =~= seq!['['] + join_spec(parts.take(r + 1), seq![',']));
        r = r + 1;
    }
    push_char(&mut line, ']');
    assert(parts.take(rows.len() as int) =~= parts);
    assert(line@ =~= json_line_spec(cols, rows));
    let mut out = String::new();
    let lines: Ghost<Seq<Seq<char>>> = Ghost(Seq::empty());
    assert(out@ =~= lines_text(lines@));
    let lines = push_line(&mut out, line.as_str(), lines);
    assert(lines@ =~= seq![json_line_spec(cols, rows)]);
    out
}

/// Everything the query command prints for `result` in `format`; the
/// command itself opens the store, runs the statement and writes this text
/// to standard output.
pub fn run(result: &QueryResult, format: OutputFormat) -> (s: String)
    requires
        result.fits(),
    ensures
        s@ == output_spec(result.column_texts(), result.row_texts(), format),
{
    match format {
        OutputFormat::Table => table_text(result),
        OutputFormat::Csv => csv_text(result),
        OutputFormat::Json => json_text(result),
    }
}

// ── The table is rectangular ─────────────────────────────────────────────────

proof fn lemma_byte_len_at_least_chars(s: Seq<char>)
    ensures
        byte_len(s) >= s.len(),
    decreases s.len(),
{
    if s.len() > 0 {
        lemma_byte_len_at_least_chars(s.drop_first());
        assert(vstd::utf8::encode_scalar(s[0] as u32).len() >= 1);
    }
}

proof fn lemma_widths_cover(cols: Seq<Seq<char>>, rows: Seq<Seq<Seq<char>>>)
    ensures
        widths_spec(cols, rows).len() == cols.len(),
        forall|i: int| 0 <= i < cols.len() ==> #[trigger] widths_spec(cols, rows)[i] >= byte_len(cols[i]),
        forall|r: int, i: int|
            0 <= r < rows.len() && 0 <= i < cols.len() && i < rows[r].len() ==> widths_spec(cols, rows)[i]
                >= byte_len(#[trigger] rows[r][i]),
    decreases rows.len(),
{
    if rows.len() > 0 {
        let prev = rows.drop_last();
        lemma_widths_cover(cols, prev);
        let w = widths_spec(cols, rows);
        assert forall|r: int, i: int|
            0 <= r < rows.len() && 0 <= i < cols.len() && i < rows[r].len() implies w[i] >= byte_len(
            #[trigger] rows[r][i],
        ) by {
            if r < rows.len() - 1 {
                assert(rows[r] == prev[r]);
            }
        }
    }
}

proof fn lemma_join_len_eq(p: Seq<Seq<char>>, q: Seq<Seq<char>>, sep: Seq<char>)
    requires
        p.len() == q.len(),
        forall|i: int| 0 <= i < p.len() ==> (#[trigger] p[i]).len() == q[i].len(),
    ensures
        join_spec(p, sep).len() == join_spec(q, sep).len(),
    decreases p.len(),
{
    if p.len() > 1 {
        lemma_join_len_eq(p.drop_last(), q.drop_last(), sep);
        assert(p.last().len() == q.last().len());
    } else if p.len() == 1 {
        assert(p[0].len() == q[0].len());
    }
}

proof fn lemma_bordered_matches_rule(cells: Seq<Seq<char>>, w: Seq<nat>)
    requires
        forall|i: int| 0 <= i < w.len() ==> #[trigger] cell_or_empty(cells, i).len() <= w[i],
    ensures
        bordered_spec(cells, w).len() == separator_spec(w).len(),
{
    let p = Seq::new(w.len(), |i: int| cell_spec(cell_or_empty(cells, i), w[i]));
    let q = w.map_values(|x: nat| repeat_spec('-', x + 2));
    assert forall|i: int| 0 <= i < p.len() implies (#[trigger] p[i]).len() == q[i].len() by {
        assert(cell_or_empty(cells, i).len() <= w[i]);
    }
    lemma_join_len_eq(p, q, seq!['|']);
    assert(join_spec(q, seq!['|']).len() == join_spec(q, seq!['+']).len()) by {
        lemma_join_sep_len(q, seq!['|'], seq!['+']);
    }
}

proof fn lemma_join_sep_len(p: Seq<Seq<char>>, a: Seq<char>, b: Seq<char>)
    requires
        a.len() == b.len(),
    ensures
        join_spec(p, a).len() == join_spec(p, b).len(),
    decreases p.len(),
{
    if p.len() > 1 {
        lemma_join_sep_len(p.drop_last(), a, b);
    }
}

/// The table is rectangular: its rules, its header and every row line have
/// the same number of characters, whatever the cells hold, because each
/// column is padded to at least its widest cell.
pub proof fn table_is_rectangular(cols: Seq<Seq<char>>, rows: Seq<Seq<Seq<char>>>)
    requires
        cols.len() > 0,
    ensures
        forall|k: int|
            0 <= k < table_lines_spec(cols, rows).len() - 1 ==> (#[trigger] table_lines_spec(
                cols,
                rows,
            )[k]).len() == table_lines_spec(cols, rows)[0].len(),
{
    let w = widths_spec(cols, rows);
    lemma_widths_cover(cols, rows);
    let lines = table_lines_spec(cols, rows);
    let sep = separator_spec(w);
    assert forall|i: int| 0 <= i < w.len() implies #[trigger] cell_or_empty(cols, i).len() <= w[i] by {
        lemma_byte_len_at_least_chars(cols[i]);
    }
    lemma_bordered_matches_rule(cols, w);
    assert forall|r: int| 0 <= r < rows.len() implies (#[trigger] bordered_spec(rows[r], w)).len()
        == sep.len() by {
        assert forall|i: int| 0 <= i < w.len() implies #[trigger] cell_or_empty(rows[r], i).len()
            <= w[i] by {
            if i < rows[r].len() {
                lemma_byte_len_at_least_chars(rows[r][i]);
            }
        }
        lemma_bordered_matches_rule(rows[r], w);
    }
    assert forall|k: int| 0 <= k < lines.len() - 1 implies (#[trigger] lines[k]).len()
        == lines[0].len() by {
        if 3 <= k < 3 + rows.len() {
            assert(lines[k] == bordered_spec(rows[k - 3], w));
        }
    }
}

} // verus!
