use saan::graph::{Edge, Graph, Node};
use saan::html::wrap_svg_in_html;
use saan::render::{drawn_endpoints, edge_endpoints, Layout, Placement, Segment, SvgConfig, SvgRenderer};
use saan::text::{escape_markup, sanitize_css_color};

fn place(cx: &str, cy: &str) -> Placement {
    Placement { cx: cx.to_string(), cy: cy.to_string() }
}

/// Placements for `n` nodes at made-up, distinct spots, and no edges.
fn layout_for(n: usize) -> Layout {
    Layout {
        nodes: (0..n).map(|i| place(&format!("{}.0", 100 * i), "50.0")).collect(),
        segments: vec![],
        center: place("640.0", "360.0"),
    }
}

#[test]
fn wrap_contains_doctype() {
    let html = wrap_svg_in_html("<svg/>", "Test");
    assert!(html.starts_with("<!DOCTYPE html>"));
}

#[test]
fn wrap_contains_svg_and_title() {
    let html = wrap_svg_in_html("<svg id=\"test\"/>", "My Graph");
    assert!(html.contains("<svg id=\"test\"/>"));
    assert!(html.contains("My Graph"));
}

#[test]
fn wrap_contains_pan_zoom_script() {
    let html = wrap_svg_in_html("<svg/>", "T");
    assert!(html.contains("<script>"));
    assert!(html.contains("viewport"));
}

#[test]
fn wrap_escapes_title() {
    let html = wrap_svg_in_html("<svg/>", "a <b> & \"c\"");
    assert!(html.contains("<title>a &lt;b&gt; &amp; &quot;c&quot;</title>"));
    assert!(html.ends_with("</script>\n</body>\n</html>"));
    assert!(html.contains("<body>\n<svg/>\n<script>\n"));
}

#[test]
fn empty_graph_produces_valid_svg() {
    let g = Graph::new();
    let svg = SvgRenderer::render(&g, &SvgConfig::default(), &layout_for(0));
    assert!(svg.starts_with("<svg"), "must start with <svg");
    assert!(svg.ends_with("</svg>"), "must end with </svg>");
    assert!(svg.contains("Empty graph"));
}

#[test]
fn single_node_graph_produces_circle() {
    let mut g = Graph::new();
    g.add_node(Node::new("a", "A", "sql"));
    let svg = SvgRenderer::render(&g, &SvgConfig::default(), &layout_for(1));
    assert!(svg.contains("<circle"), "must contain circle element");
    assert!(svg.contains(">A<"), "must contain node label");
    assert!(!svg.contains("Empty graph"));
}

#[test]
fn edge_produces_line() {
    let mut g = Graph::new();
    g.add_node(Node::new("a", "A", "sql"));
    g.add_node(Node::new("b", "B", "sql"));
    g.add_edge(Edge::new("a", "b"));
    let ids: Vec<String> = g.nodes().iter().map(|n| n.id.clone()).collect();
    assert_eq!(edge_endpoints(&ids, g.edges()), vec![Some((0, 1))]);
    assert_eq!(drawn_endpoints(&edge_endpoints(&ids, g.edges())), vec![(0, 1)]);
    let mut layout = layout_for(2);
    layout.segments.push(Segment {
        x1: "24.0".to_string(),
        y1: "50.0".to_string(),
        x2: "76.0".to_string(),
        y2: "50.0".to_string(),
    });
    let svg = SvgRenderer::render(&g, &SvgConfig::default(), &layout);
    assert!(svg.contains("<line"), "must contain line element");
    assert!(svg.contains(
        "<line x1=\"24.0\" y1=\"50.0\" x2=\"76.0\" y2=\"50.0\" stroke=\"#888\" stroke-width=\"1.5\" marker-end=\"url(#arrow)\"/>"
    ));
}

#[test]
fn xml_special_chars_in_labels_are_escaped() {
    let mut g = Graph::new();
    g.add_node(Node::new("a", "A & <B>", "sql"));
    let svg = SvgRenderer::render(&g, &SvgConfig::default(), &layout_for(1));
    assert!(svg.contains("A &amp; &lt;B&gt;"));
    assert!(!svg.contains("A & <B>"));
}

#[test]
fn svg_contains_viewport_group_for_pan_zoom() {
    let mut g = Graph::new();
    g.add_node(Node::new("a", "A", "sql"));
    let svg = SvgRenderer::render(&g, &SvgConfig::default(), &layout_for(1));
    assert!(svg.contains("<g id=\"viewport\">"), "must have viewport group for pan/zoom");
}

#[test]
fn custom_dimensions_appear_in_svg() {
    let cfg = SvgConfig { width: 800, height: 600, background: "#000000".to_string() };
    let g = Graph::new();
    let svg = SvgRenderer::render(&g, &cfg, &layout_for(0));
    assert!(svg.contains("width=\"800\""), "custom width must appear");
    assert!(svg.contains("height=\"600\""), "custom height must appear");
}

#[test]
fn custom_background_appears_in_svg() {
    let cfg = SvgConfig { width: 1280, height: 720, background: "#ff0000".to_string() };
    let g = Graph::new();
    let svg = SvgRenderer::render(&g, &cfg, &layout_for(0));
    assert!(svg.contains("#ff0000"), "custom background must appear in SVG");
}

#[test]
fn multiple_nodes_produce_distinct_positions() {
    let mut g = Graph::new();
    for i in 0..4 {
        g.add_node(Node::new(&format!("n{i}"), &format!("N{i}"), "sql"));
    }
    let svg = SvgRenderer::render(&g, &SvgConfig::default(), &layout_for(4));
    assert_eq!(svg.matches("<circle").count(), 4);
}

#[test]
fn sanitize_css_color_accepts_valid_hex() {
    assert_eq!(sanitize_css_color("#1a1a2e"), Some("#1a1a2e"));
    assert_eq!(sanitize_css_color("#fff"), Some("#fff"));
}

#[test]
fn sanitize_css_color_rejects_injection() {
    assert!(sanitize_css_color("red\"></svg><script>alert(1)</script>").is_none());
    assert!(sanitize_css_color("rgb(0,0,0)").is_none());
}

#[test]
fn malicious_background_falls_back_to_default() {
    let cfg = SvgConfig {
        width: 100,
        height: 100,
        background: "red\"></svg><script>alert(1)</script>".to_string(),
    };
    let g = Graph::new();
    let svg = SvgRenderer::render(&g, &cfg, &layout_for(0));
    assert!(!svg.contains("<script>"), "injected script must not appear");
    assert!(svg.contains("background:#1a1a2e"), "must fall back to default");
}

// ── Further cases ───────────────────────────────────────────────────────────

#[test]
fn default_config_is_dark_hd_canvas() {
    let cfg = SvgConfig::default();
    assert_eq!((cfg.width, cfg.height), (1280, 720));
    assert_eq!(cfg.background, "#1a1a2e");
}

#[test]
fn padded_background_is_trimmed() {
    let cfg = SvgConfig { width: 10, height: 20, background: "  #abcdef \n".to_string() };
    let svg = SvgRenderer::render(&Graph::new(), &cfg, &layout_for(0));
    assert!(svg.starts_with(
        "<svg xmlns=\"http://www.w3.org/2000/svg\" width=\"10\" height=\"20\" style=\"background:#abcdef;\">"
    ));
}

#[test]
fn sanitize_css_color_length_limits() {
    assert!(sanitize_css_color("#ab").is_none());
    assert_eq!(sanitize_css_color("#abcdef12"), Some("#abcdef12"));
    assert!(sanitize_css_color("#abcdef123").is_none());
    assert_eq!(sanitize_css_color(" #ABC "), Some("#ABC"));
}

#[test]
fn empty_drawing_is_exact() {
    let svg = SvgRenderer::render(&Graph::new(), &SvgConfig::default(), &layout_for(0));
    let expected = "<svg xmlns=\"http://www.w3.org/2000/svg\" width=\"1280\" height=\"720\" style=\"background:#1a1a2e;\">\
        <defs><marker id=\"arrow\" markerWidth=\"8\" markerHeight=\"6\" refX=\"8\" refY=\"3\" orient=\"auto\">\
        <path d=\"M0,0 L8,3 L0,6 z\" fill=\"#888\"/></marker></defs>\
        <g id=\"viewport\"><g id=\"edges\"></g><g id=\"nodes\"></g></g>\
        <text x=\"640.0\" y=\"360.0\" fill=\"#888\" font-size=\"16\" font-family=\"sans-serif\" text-anchor=\"middle\">Empty graph</text>\
        </svg>";
    assert_eq!(svg, expected);
}

#[test]
fn node_markup_is_exact() {
    let mut g = Graph::new();
    g.add_node(Node::new("a", "A", "sql"));
    let layout = Layout { nodes: vec![place("500.0", "250.0")], segments: vec![], center: place("500.0", "250.0") };
    let svg = SvgRenderer::render(&g, &SvgConfig::default(), &layout);
    assert!(svg.contains(
        "<circle cx=\"500.0\" cy=\"250.0\" r=\"24\" fill=\"#3a86ff\" stroke=\"#fff\" stroke-width=\"1.5\"/>\
         <text x=\"500.0\" y=\"250.0\" fill=\"#fff\" font-size=\"11\" font-family=\"monospace\" text-anchor=\"middle\" dy=\".35em\">A</text>"
    ));
}

#[test]
fn edge_endpoints_use_last_node_with_id() {
    let ids: Vec<String> = vec!["a".into(), "b".into(), "a".into()];
    let edges = vec![Edge::new("a", "b"), Edge::new("b", "z"), Edge::new("b", "a")];
    assert_eq!(edge_endpoints(&ids, &edges), vec![Some((2, 1)), None, Some((1, 2))]);
}

#[test]
fn escape_markup_replaces_specials() {
    assert_eq!(escape_markup("a&b<c>d\"e'f"), "a&amp;b&lt;c&gt;d&quot;e'f");
}

#[test]
fn escape_markup_keeps_plain_text() {
    assert_eq!(escape_markup("raw.orders it's fine"), "raw.orders it's fine");
    assert_eq!(escape_markup(""), "");
}

#[test]
fn labels_cannot_open_a_script() {
    let mut g = Graph::new();
    g.add_node(Node::new("x", "<script>alert(1)</script>", "sql"));
    g.add_node(Node::new("y", "<SCRIPT src=x>", "sql"));
    let svg = SvgRenderer::render(&g, &SvgConfig::default(), &layout_for(2));
    assert!(!svg.to_lowercase().contains("<sc"));
}

#[test]
fn self_loops_and_dangling_edges_get_no_line() {
    let ids = vec!["a".to_string(), "b".to_string()];
    let edges = vec![Edge::new("a", "a"), Edge::new("a", "z"), Edge::new("b", "a")];
    let ends = edge_endpoints(&ids, &edges);
    assert_eq!(drawn_endpoints(&ends), vec![(1, 0)]);
}
