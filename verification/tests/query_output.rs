use saan::query::{run, OutputFormat, QueryResult};
use saan::text::{csv_row, json_escape, json_value};

fn strings(v: &[&str]) -> Vec<String> {
    v.iter().map(|s| s.to_string()).collect()
}

#[test]
fn csv_row_plain_values_joined_with_comma() {
    let row = vec!["a".to_string(), "b".to_string(), "c".to_string()];
    assert_eq!(csv_row(&row), "a,b,c");
}

#[test]
fn csv_row_value_with_comma_is_quoted() {
    let row = vec!["hello, world".to_string()];
    assert_eq!(csv_row(&row), "\"hello, world\"");
}

#[test]
fn csv_row_value_with_double_quote_is_escaped_and_quoted() {
    let row = vec!["say \"hi\"".to_string()];
    assert_eq!(csv_row(&row), "\"say \"\"hi\"\"\"");
}

#[test]
fn csv_row_value_with_newline_is_quoted() {
    let row = vec!["line1\nline2".to_string()];
    let out = csv_row(&row);
    assert!(out.starts_with('"') && out.ends_with('"'));
}

#[test]
fn csv_row_value_with_carriage_return_is_quoted() {
    let row = vec!["line1\rline2".to_string()];
    let out = csv_row(&row);
    assert!(out.starts_with('"') && out.ends_with('"'));
}

#[test]
fn csv_row_empty_slice_produces_empty_string() {
    assert_eq!(csv_row(&[]), "");
}

#[test]
fn json_escape_plain_string_is_unchanged() {
    assert_eq!(json_escape("hello"), "hello");
}

#[test]
fn json_escape_backslash_is_doubled() {
    assert_eq!(json_escape("a\\b"), "a\\\\b");
}

#[test]
fn json_escape_double_quote_is_escaped() {
    assert_eq!(json_escape("say \"hi\""), "say \\\"hi\\\"");
}

#[test]
fn json_escape_newline_and_tab() {
    assert_eq!(json_escape("a\nb\tc"), "a\\nb\\tc");
}

#[test]
fn json_escape_carriage_return() {
    assert_eq!(json_escape("a\rb"), "a\\rb");
}

#[test]
fn json_escape_control_char_uses_unicode_escape() {
    let out = json_escape("\x01");
    assert_eq!(out, "\\u0001");
}

#[test]
fn json_value_wraps_in_double_quotes() {
    assert_eq!(json_value("foo"), "\"foo\"");
}

#[test]
fn json_value_escapes_inner_quotes() {
    assert_eq!(json_value("say \"hi\""), "\"say \\\"hi\\\"\"");
}

// ── Further cases ───────────────────────────────────────────────────────────

#[test]
fn json_escape_high_control_char_uses_hex_digits() {
    assert_eq!(json_escape("\x1f"), "\\u001f");
    assert_eq!(json_escape("\x1b[0m"), "\\u001b[0m");
}

#[test]
fn json_escape_keeps_non_ascii() {
    assert_eq!(json_escape("café ✓"), "café ✓");
}

#[test]
fn csv_row_mixes_quoted_and_plain_fields() {
    let row = strings(&["id", "a,b", "x\"y", ""]);
    assert_eq!(csv_row(&row), "id,\"a,b\",\"x\"\"y\",");
}

fn count_result() -> QueryResult {
    QueryResult { columns: strings(&["cnt"]), rows: vec![strings(&["2"])] }
}

#[test]
fn table_output_for_count_query() {
    let out = run(&count_result(), OutputFormat::Table);
    assert_eq!(out, "+-----+\n| cnt |\n+-----+\n| 2   |\n+-----+\n1 row(s)\n");
}

#[test]
fn table_widens_columns_to_longest_cell() {
    let r = QueryResult {
        columns: strings(&["id", "n"]),
        rows: vec![strings(&["raw.orders", "12"]), strings(&["a"])],
    };
    let out = run(&r, OutputFormat::Table);
    let expected = "+------------+----+\n\
                    | id         | n  |\n\
                    +------------+----+\n\
                    | raw.orders | 12 |\n\
                    | a          |    |\n\
                    +------------+----+\n\
                    2 row(s)\n";
    assert_eq!(out, expected);
}

#[test]
fn table_lines_have_equal_width() {
    let r = QueryResult {
        columns: strings(&["name", "x"]),
        rows: vec![strings(&["abcdefgh", "1", "extra"]), strings(&[])],
    };
    let out = run(&r, OutputFormat::Table);
    let lines: Vec<&str> = out.lines().collect();
    let width = lines[0].chars().count();
    for line in &lines[..lines.len() - 1] {
        assert_eq!(line.chars().count(), width, "line {line:?}");
    }
    assert_eq!(lines.last().unwrap(), &"2 row(s)");
}

#[test]
fn table_width_counts_bytes_of_non_ascii_cells() {
    // "é" is two bytes: the column is two characters wide.
    let r = QueryResult { columns: strings(&["c"]), rows: vec![strings(&["é"])] };
    let out = run(&r, OutputFormat::Table);
    assert_eq!(out, "+----+\n| c  |\n+----+\n| é  |\n+----+\n1 row(s)\n");
}

#[test]
fn table_without_columns_prints_nothing() {
    let r = QueryResult { columns: vec![], rows: vec![] };
    assert_eq!(run(&r, OutputFormat::Table), "");
}

#[test]
fn table_with_no_rows_shows_header_and_zero_count() {
    let r = QueryResult { columns: strings(&["id"]), rows: vec![] };
    assert_eq!(run(&r, OutputFormat::Table), "+----+\n| id |\n+----+\n+----+\n0 row(s)\n");
}

#[test]
fn csv_output_has_header_then_rows() {
    let r = QueryResult {
        columns: strings(&["id"]),
        rows: vec![strings(&["raw.orders"]), strings(&["stg.orders"])],
    };
    assert_eq!(run(&r, OutputFormat::Csv), "id\nraw.orders\nstg.orders\n");
}

#[test]
fn json_output_is_array_of_objects() {
    let r = QueryResult {
        columns: strings(&["id", "label"]),
        rows: vec![strings(&["a", "A \"x\""]), strings(&["b"])],
    };
    assert_eq!(
        run(&r, OutputFormat::Json),
        "[{\"id\":\"a\",\"label\":\"A \\\"x\\\"\"},{\"id\":\"b\",\"label\":\"\"}]\n"
    );
}

#[test]
fn json_output_of_empty_result_is_empty_array() {
    let r = QueryResult { columns: strings(&["id"]), rows: vec![] };
    assert_eq!(run(&r, OutputFormat::Json), "[]\n");
}

/// Reads one CSV line as RFC 4180 does.
fn parse_csv_line(line: &str) -> Vec<String> {
    let mut fields = Vec::new();
    let mut cur = String::new();
    let mut chars = line.chars().peekable();
    let mut quoted = false;
    let mut at_start = true;
    while let Some(c) = chars.next() {
        if quoted {
            if c == '"' {
                if chars.peek() == Some(&'"') {
                    chars.next();
                    cur.push('"');
                } else {
                    quoted = false;
                }
            } else {
                cur.push(c);
            }
        } else if c == '"' && at_start {
            quoted = true;
            at_start = false;
        } else if c == ',' {
            fields.push(std::mem::take(&mut cur));
            at_start = true;
        } else {
            cur.push(c);
            at_start = false;
        }
    }
    fields.push(cur);
    fields
}

#[test]
fn csv_rows_read_back_as_their_fields() {
    let cases = vec![
        strings(&["a", "b"]),
        strings(&[""]),
        strings(&["", ""]),
        strings(&["x,y", "say \"hi\"", "line1\nline2", "\"", ",", "plain"]),
    ];
    for fields in cases {
        assert_eq!(parse_csv_line(&csv_row(&fields)), fields);
    }
}

#[test]
fn json_escapes_read_back_as_the_text() {
    for s in ["plain", "a\\b\"c", "tab\tnl\ncr\r", "\x00\x01\x1f", "café ✓ /"] {
        let decoded: String = serde_json::from_str(&format!("\"{}\"", json_escape(s))).unwrap();
        assert_eq!(decoded, s);
        assert!(json_escape(s).chars().all(|c| c as u32 >= 0x20));
    }
}
