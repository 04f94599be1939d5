use saan::mesh::{data_endpoints, svg_from_data, ConfigData, EdgeData, NodeData, RenderConfig};
use saan::render::{drawn_endpoints, Layout, Placement, Segment};
use saan::text::sanitize_css_color;

fn place(cx: &str, cy: &str) -> Placement {
    Placement { cx: cx.to_string(), cy: cy.to_string() }
}

fn node(id: &str, label: &str) -> NodeData {
    NodeData { id: id.to_string(), label: label.to_string() }
}

fn edge(from: &str, to: &str) -> EdgeData {
    EdgeData { from_id: from.to_string(), to_id: to.to_string() }
}

fn layout_for(n: usize) -> Layout {
    Layout {
        nodes: (0..n).map(|i| place(&format!("{}.0", 10 * i), "5.0")).collect(),
        segments: vec![],
        center: place("640.0", "360.0"),
    }
}

fn config_with(f: impl FnOnce(&mut ConfigData)) -> RenderConfig {
    let mut d = ConfigData::empty();
    f(&mut d);
    d.into_config()
}

#[test]
fn default_config_has_expected_dimensions() {
    let cfg = RenderConfig::default();
    assert_eq!(cfg.width, 1280);
    assert_eq!(cfg.height, 720);
}

#[test]
fn default_config_shows_labels() {
    let cfg = RenderConfig::default();
    assert!(cfg.show_labels);
}

#[test]
fn default_config_has_dark_background() {
    let cfg = RenderConfig::default();
    assert_eq!(cfg.background_color, "#1a1a2e");
}

#[test]
fn custom_config_stores_values() {
    let cfg = RenderConfig::new(1920, 1080, false, "#ffffff");
    assert_eq!(cfg.width, 1920);
    assert_eq!(cfg.height, 1080);
    assert!(!cfg.show_labels);
    assert_eq!(cfg.background_color, "#ffffff");
}

#[test]
fn config_equality() {
    let a = RenderConfig::default();
    let b = RenderConfig::default();
    assert_eq!(a, b);
}

#[test]
fn configs_with_different_dimensions_are_not_equal() {
    let a = RenderConfig::default();
    let b = RenderConfig::new(800, 600, true, "#1a1a2e");
    assert_ne!(a, b);
}

#[test]
fn render_graph_empty_input_returns_svg() {
    let svg = svg_from_data(&[], &RenderConfig::default(), &layout_for(0));
    assert!(svg.starts_with("<svg"));
    assert!(svg.ends_with("</svg>"));
    assert!(svg.contains("Empty graph"));
}

#[test]
fn render_graph_single_node_returns_circle() {
    let svg = svg_from_data(&[node("a", "A")], &RenderConfig::default(), &layout_for(1));
    assert!(svg.contains("<circle"));
    assert!(svg.contains(">A<"));
}

#[test]
fn render_graph_edge_returns_line() {
    let nodes = [node("a", "A"), node("b", "B")];
    let ends = data_endpoints(&nodes, &[edge("a", "b")]);
    assert_eq!(ends, vec![Some((0, 1))]);
    assert_eq!(drawn_endpoints(&ends), vec![(0, 1)]);
    let mut layout = layout_for(2);
    layout.segments.push(Segment {
        x1: "1.0".to_string(),
        y1: "2.0".to_string(),
        x2: "3.0".to_string(),
        y2: "4.0".to_string(),
    });
    let svg = svg_from_data(&nodes, &RenderConfig::default(), &layout);
    assert!(svg.contains("<line"));
}

#[test]
fn render_graph_show_labels_false_omits_text_elements() {
    let cfg = config_with(|d| d.show_labels = Some(false));
    let svg = svg_from_data(&[node("a", "Alpha")], &cfg, &layout_for(1));
    assert!(svg.contains("<circle"), "circle must still be present");
    assert!(!svg.contains(">Alpha</text>"), "label text must be absent when show_labels is false");
}

#[test]
fn render_graph_show_labels_true_includes_text_elements() {
    let cfg = config_with(|d| d.show_labels = Some(true));
    let svg = svg_from_data(&[node("a", "Alpha")], &cfg, &layout_for(1));
    assert!(svg.contains(">Alpha</text>"), "label text must appear");
}

#[test]
fn parse_config_partial_json_uses_defaults_for_missing_fields() {
    let cfg = config_with(|d| d.width = Some(800));
    assert_eq!(cfg.width, 800, "overridden field must be applied");
    assert_eq!(cfg.height, RenderConfig::default().height, "missing height must use default");
    assert_eq!(
        cfg.show_labels,
        RenderConfig::default().show_labels,
        "missing show_labels must use default"
    );
}

#[test]
fn parse_config_empty_string_returns_defaults() {
    let cfg = ConfigData::empty().into_config();
    assert_eq!(cfg, RenderConfig::default());
}

#[test]
fn render_graph_edge_with_unknown_node_id_is_skipped() {
    let ends = data_endpoints(&[node("a", "A")], &[edge("a", "z")]);
    assert_eq!(ends, vec![None]);
    assert!(drawn_endpoints(&ends).is_empty());
}

#[test]
fn render_graph_custom_background_color_appears_in_svg() {
    let cfg = config_with(|d| d.background_color = Some("#ff0000".to_string()));
    let svg = svg_from_data(&[], &cfg, &layout_for(0));
    assert!(svg.contains("#ff0000"), "custom background must appear in SVG");
}

#[test]
fn render_graph_custom_dimensions_appear_in_svg() {
    let cfg = config_with(|d| {
        d.width = Some(400);
        d.height = Some(300);
    });
    let svg = svg_from_data(&[], &cfg, &layout_for(0));
    assert!(svg.contains("width=\"400\""), "custom width must appear");
    assert!(svg.contains("height=\"300\""), "custom height must appear");
}

#[test]
fn sanitize_css_color_accepts_three_digit_hex() {
    assert_eq!(sanitize_css_color("#abc"), Some("#abc"));
}

#[test]
fn sanitize_css_color_accepts_six_digit_hex() {
    assert_eq!(sanitize_css_color("#1a2b3c"), Some("#1a2b3c"));
}

#[test]
fn sanitize_css_color_rejects_injection_attempt() {
    let malicious = "red\"></svg><script>alert(1)</script>";
    assert!(sanitize_css_color(malicious).is_none());
}

#[test]
fn sanitize_css_color_rejects_css_without_hash() {
    assert!(sanitize_css_color("red").is_none());
    assert!(sanitize_css_color("rgb(255,0,0)").is_none());
}

#[test]
fn parse_config_malicious_background_color_falls_back_to_default() {
    let cfg = config_with(|d| {
        d.background_color = Some("red\"><script>alert(1)</script>".to_string())
    });
    assert_eq!(cfg.background_color, RenderConfig::default().background_color);
    assert!(!cfg.background_color.contains('<'));
}

#[test]
fn render_graph_malicious_background_color_not_in_output() {
    let cfg = config_with(|d| {
        d.background_color = Some("red\"></svg><script>alert(1)</script>".to_string())
    });
    let svg = svg_from_data(&[], &cfg, &layout_for(0));
    assert!(!svg.contains("<script>"), "injected script must not appear");
    assert!(svg.contains("background:#1a1a2e"), "must fall back to default color");
}

// ── Further cases ───────────────────────────────────────────────────────────

#[test]
fn config_background_is_trimmed() {
    let cfg = config_with(|d| d.background_color = Some(" #0A0B0C ".to_string()));
    assert_eq!(cfg.background_color, "#0A0B0C");
}

#[test]
fn labels_are_escaped_in_mesh_drawing() {
    let svg = svg_from_data(&[node("a", "<b>&")], &RenderConfig::default(), &layout_for(1));
    assert!(svg.contains(">&lt;b&gt;&amp;</text>"));
}

#[test]
fn endpoints_pick_last_duplicate_node() {
    let nodes = [node("a", "1"), node("b", "2"), node("a", "3")];
    let ends = data_endpoints(&nodes, &[edge("b", "a"), edge("z", "a")]);
    assert_eq!(ends, vec![Some((1, 2)), None]);
}
