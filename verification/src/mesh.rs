//! The browser visualiser: render settings and the drawing of graph data
//! handed over by a web page.
use vstd::prelude::*;
use vstd::string::*;

use crate::graph::Edge;
use crate::render::{
    default_background, drawing_opens_no_script, endpoints_spec, edge_endpoints, markup_safe,
    placement_plain, segment_plain, svg_markup, svg_spec, Layout,
};
use crate::text::{
    is_ascii_hex, is_css_hex_color, is_markup_special, sanitize_css_color, sanitized_color_is_inert,
    sanitized_color_is_stable, string_of,
    string_views, trim_spec,
};

verus! {

/// How the lineage mesh is drawn in the browser.
#[derive(Debug, Clone)]
pub struct RenderConfig {
    /// Canvas width in pixels.
    pub width: u32,
    /// Canvas height in pixels.
    pub height: u32,
    /// Whether node labels are drawn.
    pub show_labels: bool,
    /// Background colour as a CSS hex string (e.g. "#1a1a2e").
    pub background_color: String,
}

impl RenderConfig {
    pub fn new(width: u32, height: u32, show_labels: bool, background_color: &str) -> (r: Self)
        ensures
            r.width == width,
            r.height == height,
            r.show_labels == show_labels,
            r.background_color@ == background_color@,
    {
        RenderConfig { width, height, show_labels, background_color: string_of(background_color) }
    }

    /// The settings as plain values.
    pub open spec fn view_parts(&self) -> (u32, u32, bool, Seq<char>) {
        (self.width, self.height, self.show_labels, self.background_color@)
    }
}

impl Default for RenderConfig {
    /// 1280 by 720, labels shown, dark background.
    fn default() -> (r: Self)
        ensures
            r.width == 1280,
            r.height == 720,
            r.show_labels,
            r.background_color@ == default_background(),
    {
        RenderConfig {
            width: 1280,
            height: 720,
            show_labels: true,
            background_color: string_of("#1a1a2e"),
        }
    }
}

impl PartialEq for RenderConfig {
    fn eq(&self, other: &Self) -> (r: bool) {
        self.width == other.width && self.height == other.height && self.show_labels
            == other.show_labels && self.background_color == other.background_color
    }
}

impl vstd::std_specs::cmp::PartialEqSpecImpl for RenderConfig {
    open spec fn obeys_eq_spec() -> bool {
        true
    }

    open spec fn eq_spec(&self, other: &Self) -> bool {
        self.view_parts() == other.view_parts()
    }
}

/// Settings as a page sends them: each one may be missing.
pub struct ConfigData {
    pub width: Option<u32>,
    pub height: Option<u32>,
    pub show_labels: Option<bool>,
    pub background_color: Option<String>,
}

/// The background a page's setting yields: the trimmed colour when it is a
/// hexadecimal colour, the default when it is missing or anything else.
pub open spec fn configured_background(given: Option<String>) -> Seq<char> {
    match given {
        Some(s) => if is_css_hex_color(trim_spec(s@)) {
            trim_spec(s@)
        } else {
            default_background()
        },
        None => default_background(),
    }
}

impl ConfigData {
    /// Nothing set.
    pub fn empty() -> (r: Self)
        ensures
            r.width is None,
            r.height is None,
            r.show_labels is None,
            r.background_color is None,
    {
        ConfigData { width: None, height: None, show_labels: None, background_color: None }
    }

    /// The settings a page asked for, with the default for each one it left
    /// out and for a background that is not a hexadecimal colour.
    pub fn into_config(self) -> (r: RenderConfig)
        ensures
            r.width == (match self.width {
                Some(w) => w,
                None => 1280,
            }),
            r.height == (match self.height {
                Some(h) => h,
                None => 720,
            }),
            r.show_labels == (match self.show_labels {
                Some(b) => b,
                None => true,
            }),
            r.background_color@ == configured_background(self.background_color),
    {
        let defaults = RenderConfig::default();
        let width = match self.width {
            Some(w) => w,
            None => defaults.width,
        };
        let height = match self.height {
            Some(h) => h,
            None => defaults.height,
        };
        let show_labels = match self.show_labels {
            Some(b) => b,
            None => defaults.show_labels,
        };
        let background_color = match &self.background_color {
            Some(s) => match sanitize_css_color(s.as_str()) {
                Some(t) => string_of(t),
                None => defaults.background_color,
            },
            None => defaults.background_color,
        };
        RenderConfig { width, height, show_labels, background_color }
    }
}

/// A node as a page sends it.
pub struct NodeData {
    pub id: String,
    pub label: String,
}

/// An edge as a page sends it.
pub struct EdgeData {
    pub from_id: String,
    pub to_id: String,
}

/// The ids of the nodes, in order.
pub open spec fn data_ids(nodes: Seq<NodeData>) -> Seq<Seq<char>> {
    nodes.map_values(|n: NodeData| n.id@)
}

/// The labels of the nodes, in order.
pub open spec fn data_labels(nodes: Seq<NodeData>) -> Seq<Seq<char>> {
    nodes.map_values(|n: NodeData| n.label@)
}

/// An edge from a page as a lineage edge.
pub open spec fn data_edge(e: EdgeData) -> Edge {
    Edge { from: e.from_id, to: e.to_id }
}

/// For each edge, the positions of its endpoints among the nodes, or `None`
/// when either is not a node (such an edge is not drawn).
pub fn data_endpoints(nodes: &[NodeData], edges: &[EdgeData]) -> (r: Vec<Option<(usize, usize)>>)
    ensures
        r@.len() == edges@.len(),
        forall|i: int|
            0 <= i < edges@.len() ==> match #[trigger] r@[i] {
                Some((a, b)) => endpoints_spec(data_ids(nodes@), data_edge(edges@[i])) == Some(
                    (a as nat, b as nat),
                ),
                None => endpoints_spec(data_ids(nodes@), data_edge(edges@[i])) is None,
            },
        forall|i: int|
            0 <= i < edges@.len() ==> (#[trigger] r@[i] matches Some((a, b)) ==> a < nodes@.len()
                && b < nodes@.len()),
{
    let mut ids: Vec<String> = Vec::new();
    let mut i: usize = 0;
    while i < nodes.len()
        invariant
            i <= nodes@.len(),
            string_views(ids@) == data_ids(nodes@.take(i as int)),
        decreases nodes.len() - i,
    {
        let ghost before = ids@;
        let id = nodes[i].id.clone();
        ids.push(id);
        assert(string_views(ids@) =~= string_views(before).push(id@));
        assert(nodes@.take(i + 1) =~= nodes@.take(i as int).push(nodes@[i as int]));
        assert(data_ids(nodes@.take(i + 1)) =~= data_ids(nodes@.take(i as int)).push(
            nodes@[i as int].id@,
        ));
        i = i + 1;
    }
    assert(nodes@.take(nodes@.len() as int) =~= nodes@);
    let mut es: Vec<Edge> = Vec::new();
    let mut j: usize = 0;
    while j < edges.len()
        invariant
            j <= edges@.len(),
            es@.len() == j,
            forall|k: int|
                0 <= k < j ==> (#[trigger] es@[k]).from@ == edges@[k].from_id@ && es@[k].to@
                    == edges@[k].to_id@,
        decreases edges.len() - j,
    {
        let e = Edge { from: edges[j].from_id.clone(), to: edges[j].to_id.clone() };
        es.push(e);
        j = j + 1;
    }
    let r = edge_endpoints(&ids, es.as_slice());
    assert forall|k: int| 0 <= k < edges@.len() implies endpoints_spec(
        data_ids(nodes@),
        #[trigger] data_edge(edges@[k]),
    ) == endpoints_spec(data_ids(nodes@), es@[k]) by {}
    r
}

/// The labels of the nodes.
fn labels_of(nodes: &[NodeData]) -> (r: Vec<String>)
    ensures
        string_views(r@) == data_labels(nodes@),
{
    let mut labels: Vec<String> = Vec::new();
    let mut i: usize = 0;
    while i < nodes.len()
        invariant
            i <= nodes@.len(),
            string_views(labels@) == data_labels(nodes@.take(i as int)),
        decreases nodes.len() - i,
    {
        let ghost before = labels@;
        let l = nodes[i].label.clone();
        labels.push(l);
        assert(string_views(labels@) =~= string_views(before).push(l@));
        assert(nodes@.take(i + 1) =~= nodes@.take(i as int).push(nodes@[i as int]));
        assert(data_labels(nodes@.take(i + 1)) =~= data_labels(nodes@.take(i as int)).push(
            nodes@[i as int].label@,
        ));
        i = i + 1;
    }
    assert(nodes@.take(nodes@.len() as int) =~= nodes@);
    labels
}

/// The SVG drawing of graph data from a page, on the configured canvas and
/// background, with labels only when the settings ask for them.
pub fn svg_from_data(nodes: &[NodeData], config: &RenderConfig, layout: &Layout) -> (r: String)
    requires
        layout.nodes@.len() == nodes@.len(),
    ensures
        r@ == svg_spec(
            config.width,
            config.height,
            config.background_color@,
            data_labels(nodes@),
            config.show_labels,
            *layout,
        ),
{
    let labels = labels_of(nodes);
    svg_markup(
        config.width,
        config.height,
        config.background_color.as_str(),
        &labels,
        config.show_labels,
        layout,
    )
}

/// Whatever background a page sends, the one kept cannot end the style
/// attribute or open a tag: it holds no `<`, `>`, `"`, `&` or `;`.
pub proof fn configured_background_is_inert(given: Option<String>)
    ensures
        forall|i: int|
            0 <= i < configured_background(given).len() ==> !is_markup_special(
                #[trigger] configured_background(given)[i],
            ) && configured_background(given)[i] != '&' && configured_background(given)[i] != ';',
{
    match given {
        Some(s) => {
            if is_css_hex_color(trim_spec(s@)) {
                sanitized_color_is_inert(trim_spec(s@));
            } else {
                reveal_strlit("#1a1a2e");
            }
        },
        None => {
            reveal_strlit("#1a1a2e");
        },
    }
}

/// The background a page's setting yields is one that `sanitize_css_color`
/// accepts and hands back unchanged, the default included.
pub proof fn configured_background_is_accepted(given: Option<String>)
    ensures
        is_css_hex_color(configured_background(given)),
        trim_spec(configured_background(given)) == configured_background(given),
{
    reveal_strlit("#1a1a2e");
    let b = configured_background(given);
    if b == default_background() {
        assert(is_ascii_hex(b[1]) && is_ascii_hex(b[2]) && is_ascii_hex(b[3]));
        assert(is_ascii_hex(b[4]) && is_ascii_hex(b[5]) && is_ascii_hex(b[6]));
        assert(is_css_hex_color(b));
    }
    sanitized_color_is_stable(b);
}

/// A drawing made with the background a page asked for opens no script
/// element, whatever that background and the labels hold, as long as the
/// layout's coordinate texts hold no `<`.
pub proof fn page_drawing_opens_no_script(
    width: u32,
    height: u32,
    given: Option<String>,
    labels: Seq<Seq<char>>,
    show_labels: bool,
    layout: Layout,
)
    requires
        forall|i: int| 0 <= i < layout.nodes@.len() ==> placement_plain(#[trigger] layout.nodes@[i]),
        forall|i: int|
            0 <= i < layout.segments@.len() ==> segment_plain(#[trigger] layout.segments@[i]),
        placement_plain(layout.center),
    ensures
        markup_safe(
            svg_spec(width, height, configured_background(given), labels, show_labels, layout),
        ),
{
    configured_background_is_inert(given);
    let b = configured_background(given);
    assert forall|i: int| 0 <= i < b.len() implies #[trigger] b[i] != '<' by {
        assert(!is_markup_special(b[i]));
    }
    drawing_opens_no_script(width, height, b, labels, show_labels, layout);
}

} // verus!
