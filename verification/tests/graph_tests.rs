use saan::graph::{Edge, Graph, Node};
use saan::store::{graph_from_rows, link_count};

#[test]
fn node_stores_fields() {
    let node = Node::new("raw.orders", "Orders", "sql");
    assert_eq!(node.id, "raw.orders");
    assert_eq!(node.label, "Orders");
    assert_eq!(node.source_type, "sql");
}

#[test]
fn node_equality() {
    let a = Node::new("raw.orders", "Orders", "sql");
    let b = Node::new("raw.orders", "Orders", "sql");
    assert_eq!(a, b);
}

#[test]
fn edge_stores_fields() {
    let edge = Edge::new("raw.orders", "marts.order_summary");
    assert_eq!(edge.from, "raw.orders");
    assert_eq!(edge.to, "marts.order_summary");
}

#[test]
fn graph_add_node_returns_index() {
    let mut g = Graph::new();
    let idx = g.add_node(Node::new("raw.orders", "Orders", "sql"));
    assert_eq!(idx, 0);
    let idx2 = g.add_node(Node::new("marts.summary", "Summary", "sql"));
    assert_eq!(idx2, 1);
}

#[test]
fn graph_add_edge_increases_edge_count() {
    let mut g = Graph::new();
    g.add_node(Node::new("raw.orders", "Orders", "sql"));
    g.add_node(Node::new("marts.summary", "Summary", "sql"));
    g.add_edge(Edge::new("raw.orders", "marts.summary"));
    assert_eq!(g.node_count(), 2);
    assert_eq!(g.edge_count(), 1);
}

#[test]
fn graph_no_cycle_for_simple_dag() {
    let mut g = Graph::new();
    g.add_node(Node::new("raw.orders", "Orders", "sql"));
    g.add_node(Node::new("stg.orders", "Staged Orders", "sql"));
    g.add_node(Node::new("marts.summary", "Summary", "sql"));
    g.add_edge(Edge::new("raw.orders", "stg.orders"));
    g.add_edge(Edge::new("stg.orders", "marts.summary"));
    assert!(!g.has_cycle());
}

#[test]
fn graph_detects_direct_cycle() {
    let mut g = Graph::new();
    g.add_node(Node::new("a", "A", "sql"));
    g.add_node(Node::new("b", "B", "sql"));
    g.add_edge(Edge::new("a", "b"));
    g.add_edge(Edge::new("b", "a"));
    assert!(g.has_cycle());
}

#[test]
fn graph_detects_indirect_cycle() {
    let mut g = Graph::new();
    g.add_node(Node::new("a", "A", "sql"));
    g.add_node(Node::new("b", "B", "sql"));
    g.add_node(Node::new("c", "C", "sql"));
    g.add_edge(Edge::new("a", "b"));
    g.add_edge(Edge::new("b", "c"));
    g.add_edge(Edge::new("c", "a"));
    assert!(g.has_cycle());
}

#[test]
fn empty_graph_has_no_cycle() {
    let g = Graph::new();
    assert!(!g.has_cycle());
}

fn prepare_sample_graph() -> Graph {
    let mut g = Graph::new();
    g.add_node(Node::new("raw.orders", "Raw Orders", "sql"));
    g.add_node(Node::new("raw.customers", "Raw Customers", "sql"));
    g.add_node(Node::new("stg.orders", "Staged Orders", "sql"));
    g.add_node(Node::new("marts.order_summary", "Order Summary", "sql"));
    g
}

fn interlace(g: &mut Graph) {
    g.add_edge(Edge::new("raw.orders", "stg.orders"));
    g.add_edge(Edge::new("raw.customers", "stg.orders"));
    g.add_edge(Edge::new("stg.orders", "marts.order_summary"));
}

#[test]
fn prepare_produces_correct_node_count() {
    let g = prepare_sample_graph();
    assert_eq!(g.node_count(), 4);
}

#[test]
fn interlace_produces_correct_edge_count() {
    let mut g = prepare_sample_graph();
    interlace(&mut g);
    assert_eq!(g.edge_count(), 3);
}

#[test]
fn full_pipeline_graph_is_acyclic() {
    let mut g = prepare_sample_graph();
    interlace(&mut g);
    assert!(!g.has_cycle(), "lineage graph must not contain cycles");
}

#[test]
fn introducing_circular_lineage_is_detected() {
    let mut g = prepare_sample_graph();
    interlace(&mut g);
    g.add_edge(Edge::new("marts.order_summary", "raw.orders"));
    assert!(g.has_cycle(), "circular lineage must be detected by inspect");
}

// ── Further cases ───────────────────────────────────────────────────────────

#[test]
fn self_edge_is_a_cycle() {
    let mut g = Graph::new();
    g.add_node(Node::new("a", "A", "sql"));
    g.add_edge(Edge::new("a", "a"));
    assert!(g.has_cycle());
}

#[test]
fn edge_to_missing_node_is_kept_but_not_a_link() {
    let mut g = Graph::new();
    g.add_node(Node::new("a", "A", "sql"));
    g.add_edge(Edge::new("a", "ghost"));
    g.add_edge(Edge::new("ghost", "a"));
    assert_eq!(g.edge_count(), 2);
    assert!(!g.has_cycle());
}

#[test]
fn edge_added_before_its_nodes_is_not_a_link() {
    let mut g = Graph::new();
    g.add_edge(Edge::new("a", "b"));
    g.add_node(Node::new("a", "A", "sql"));
    g.add_node(Node::new("b", "B", "sql"));
    g.add_edge(Edge::new("b", "a"));
    assert!(!g.has_cycle());
}

#[test]
fn nodes_and_edges_come_back_in_order() {
    let mut g = Graph::default();
    g.add_node(Node::new("x", "X", "sql"));
    g.add_node(Node::new("y", "Y", "dbt"));
    g.add_edge(Edge::new("x", "y"));
    assert_eq!(g.nodes().len(), 2);
    assert_eq!(g.nodes()[1].source_type, "dbt");
    assert_eq!(g.edges()[0].to, "y");
}

#[test]
fn graph_from_rows_keeps_rows_and_detects_cycles() {
    let nodes = vec![Node::new("a", "A", "sql"), Node::new("b", "B", "sql")];
    let edges = vec![Edge::new("a", "b"), Edge::new("b", "a"), Edge::new("b", "z")];
    let g = graph_from_rows(nodes, edges);
    assert_eq!(g.node_count(), 2);
    assert_eq!(g.edge_count(), 3);
    assert_eq!(g.nodes()[0].id, "a");
    assert_eq!(g.edges()[2].to, "z");
    assert!(g.has_cycle());
}

#[test]
fn graph_from_rows_of_nothing_is_empty() {
    let g = graph_from_rows(vec![], vec![]);
    assert_eq!(g.node_count(), 0);
    assert_eq!(g.edge_count(), 0);
    assert!(!g.has_cycle());
}

#[test]
fn link_count_counts_edges_between_nodes() {
    let nodes = vec![Node::new("a", "A", "sql"), Node::new("b", "B", "sql")];
    let edges = vec![Edge::new("a", "b"), Edge::new("a", "z"), Edge::new("b", "b")];
    assert_eq!(link_count(&nodes, &edges), 2);
}

#[test]
fn a_cycle_through_an_unknown_id_is_no_cycle() {
    let nodes = vec![Node::new("a", "a", "sql"), Node::new("b", "b", "sql")];
    let open = vec![Edge::new("a", "b"), Edge::new("b", "z"), Edge::new("z", "a")];
    assert!(!graph_from_rows(nodes.clone(), open).has_cycle());
    let closed = vec![Edge::new("a", "b"), Edge::new("b", "z"), Edge::new("b", "a")];
    assert!(graph_from_rows(nodes, closed).has_cycle());
}
