use std::path::PathBuf;

use saan::cell::{value_to_string, CellValue};
use saan::graph::{Edge, Node};
use saan::interlace::interlace_edges;
use saan::messages::{applied_summary, inspect_summary, interlaced_summary, staged_summary};
use saan::store::{graph_from_rows, inspect_graph, staging_rows, InspectReport};
use saan::strand::Strand;

fn strand_with(nodes: &[(&str, &str)], edges: &[(&str, &str)]) -> Strand {
    let mut s = Strand::new(PathBuf::from("test.sql"));
    for (id, label) in nodes {
        s.nodes.push(Node::new(id, label, "sql"));
    }
    for (from, to) in edges {
        s.edges.push(Edge::new(from, to));
    }
    s
}

fn edges(pairs: &[(&str, &str)]) -> Vec<Edge> {
    pairs.iter().map(|(a, b)| Edge::new(a, b)).collect()
}

fn report_for(nodes: &[(&str, &str)], es: &[(&str, &str)]) -> InspectReport {
    let g = graph_from_rows(
        nodes.iter().map(|(id, label)| Node::new(id, label, "sql")).collect(),
        edges(es),
    );
    inspect_graph(&g)
}

#[test]
fn inspect_detects_orphan_node() {
    let report = report_for(&[("orphan", "Orphan")], &[]);
    assert!(report.orphan_nodes.contains(&"orphan".to_string()));
    assert!(!report.cycle_detected);
    assert!(report.external_refs.is_empty());
}

#[test]
fn inspect_reports_external_ref() {
    let report = report_for(&[("stg.orders", "Staged")], &[("raw.orders", "stg.orders")]);
    assert!(report.external_refs.contains(&"raw.orders".to_string()));
}

#[test]
fn inspect_clean_graph_has_no_issues() {
    let report = report_for(
        &[("raw.orders", "Raw"), ("stg.orders", "Staged")],
        &[("raw.orders", "stg.orders")],
    );
    assert!(report.orphan_nodes.is_empty());
    assert!(report.external_refs.is_empty());
    assert!(!report.cycle_detected);
    assert_eq!(report.total_nodes, 2);
    assert_eq!(report.total_edges, 1);
}

#[test]
fn interlace_adds_transitive_edge() {
    let staged = edges(&[("a", "b"), ("b", "c")]);
    let added = interlace_edges(&staged);
    assert_eq!(added.len(), 1);
    assert_eq!(added[0], Edge::new("a", "c"));
    let mut all = staged.clone();
    all.extend(added);
    assert_eq!(all.len(), 3);
}

#[test]
fn interlace_single_hop_adds_nothing() {
    assert_eq!(interlace_edges(&edges(&[("a", "b")])).len(), 0);
}

#[test]
fn interlace_empty_staging_is_noop() {
    assert_eq!(interlace_edges(&[]).len(), 0);
}

#[test]
fn interlace_is_idempotent() {
    let mut staged = edges(&[("a", "b"), ("b", "c")]);
    let first = interlace_edges(&staged);
    staged.extend(first.iter().cloned());
    let second = interlace_edges(&staged);
    assert_eq!(first.len(), 1);
    assert_eq!(second.len(), 0, "second call must not add duplicate edges");
}

// ── Further cases ───────────────────────────────────────────────────────────

#[test]
fn interlace_long_chain_and_cycle() {
    let added = interlace_edges(&edges(&[("a", "b"), ("b", "c"), ("c", "d"), ("d", "b")]));
    let mut pairs: Vec<(String, String)> =
        added.iter().map(|e| (e.from.clone(), e.to.clone())).collect();
    pairs.sort();
    let expect: Vec<(String, String)> = [("a", "c"), ("a", "d"), ("b", "d"), ("c", "b"), ("d", "c")]
        .iter()
        .map(|(a, b)| (a.to_string(), b.to_string()))
        .collect();
    assert_eq!(pairs, expect);
}

#[test]
fn inspect_lists_are_sorted_and_distinct() {
    let report = report_for(
        &[("z", "Z"), ("m", "M"), ("b", "B"), ("x", "X")],
        &[("x", "q"), ("p", "x"), ("x", "q"), ("a", "q")],
    );
    assert_eq!(report.orphan_nodes, vec!["b", "m", "z"]);
    assert_eq!(report.external_refs, vec!["a", "p", "q"]);
}

#[test]
fn inspect_reports_cycle() {
    let report = report_for(&[("a", "A"), ("b", "B")], &[("a", "b"), ("b", "a")]);
    assert!(report.cycle_detected);
}

#[test]
fn inspect_summary_text() {
    let report = report_for(&[("o", "O"), ("s", "S")], &[("r", "s"), ("s", "s")]);
    assert_eq!(
        inspect_summary(&report),
        "=== saan inspect ===\nNodes:  2\nEdges:  2\n\nWARNING: cycle detected in graph\n\
         Orphan nodes  (1): o\nExternal refs (1): r\n"
    );
    let clean = report_for(&[("a", "A"), ("b", "B")], &[("a", "b")]);
    assert_eq!(
        inspect_summary(&clean),
        "=== saan inspect ===\nNodes:  2\nEdges:  1\n\nOrphan nodes  (0): none\nExternal refs (0): none\n"
    );
}

#[test]
fn staging_rows_flatten_strands() {
    let s1 = strand_with(&[("raw.orders", "Raw Orders"), ("stg.orders", "Staged Orders")], &[("raw.orders", "stg.orders")]);
    let mut s2 = strand_with(&[("c", "C")], &[("a", "c"), ("b", "c")]);
    s2.source_path = PathBuf::from("models/other.sql");
    let (nodes, es) = staging_rows(&[s1, s2]);
    assert_eq!(nodes.len(), 3);
    assert_eq!(nodes[1].id, "stg.orders");
    assert_eq!(nodes[1].label, "Staged Orders");
    assert_eq!(nodes[1].source_type, "sql");
    assert_eq!(nodes[1].source_path, "test.sql");
    assert_eq!(nodes[2].source_path, "models/other.sql");
    assert_eq!(es.len(), 3);
    assert_eq!((es[2].from_id.as_str(), es[2].to_id.as_str()), ("b", "c"));
    assert_eq!(es[2].source_path, "models/other.sql");
}

#[test]
fn command_summaries() {
    let strands = vec![
        strand_with(&[("a", "a"), ("b", "b")], &[("a", "b")]),
        strand_with(&[("c", "c")], &[]),
    ];
    assert_eq!(staged_summary(&strands), "Staged: 2 file(s), 3 node(s), 1 edge(s)");
    assert_eq!(staged_summary(&[]), "Staged: 0 file(s), 0 node(s), 0 edge(s)");
    let g = graph_from_rows(vec![Node::new("a", "a", "sql"), Node::new("b", "b", "sql")], edges(&[("a", "b")]));
    assert_eq!(applied_summary(&g), "Applied staging: 2 node(s), 1 edge(s) in graph");
    assert_eq!(interlaced_summary(1), "Interlaced: 1 computed edge(s) added to staging.");
}

#[test]
fn cell_values_render_as_text() {
    assert_eq!(value_to_string(&CellValue::Null), "NULL");
    assert_eq!(value_to_string(&CellValue::Boolean(true)), "true");
    assert_eq!(value_to_string(&CellValue::Int(-42)), "-42");
    assert_eq!(value_to_string(&CellValue::Int(i128::MIN)), i128::MIN.to_string());
    assert_eq!(value_to_string(&CellValue::UInt(u128::MAX)), u128::MAX.to_string());
    assert_eq!(value_to_string(&CellValue::Text("x y".to_string())), "x y");
    assert_eq!(value_to_string(&CellValue::Blob(3)), "<blob 3 bytes>");
    assert_eq!(
        value_to_string(&CellValue::Interval { months: 1, days: -2, nanos: 30 }),
        "1mo -2d 30ns"
    );
    assert_eq!(
        value_to_string(&CellValue::List(vec![CellValue::Int(1), CellValue::Null])),
        "[1, NULL]"
    );
    assert_eq!(value_to_string(&CellValue::List(vec![])), "[]");
    assert_eq!(
        value_to_string(&CellValue::Struct(vec![
            ("a".to_string(), CellValue::UInt(1)),
            ("b".to_string(), CellValue::Text("t".to_string())),
        ])),
        "{a: 1, b: t}"
    );
    assert_eq!(
        value_to_string(&CellValue::Pairs(vec![(CellValue::Text("k".to_string()), CellValue::Boolean(false))])),
        "{k: false}"
    );
    assert_eq!(value_to_string(&CellValue::Rendered("1.5".to_string())), "1.5");
}
