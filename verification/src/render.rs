//! The SVG drawing of a lineage graph. Node positions are computed in
//! floating point by the caller and handed over already formatted; this
//! module decides what is drawn and writes the markup.
use vstd::prelude::*;
use vstd::string::*;

use crate::graph::{Edge, Graph, Node};
use crate::text::{
    decimal_spec, digit_char, escaped_markup_has_no_specials, escape_markup, escape_markup_spec, is_css_hex_color, is_markup_special, push_str,
    sanitize_css_color, sanitized_color_is_inert, string_of, string_views, trim_spec,
    unsigned_to_string,
};

verus! {

/// Canvas size and background of a rendered graph.
pub struct SvgConfig {
    pub width: u32,
    pub height: u32,
    pub background: String,
}

impl Default for SvgConfig {
    /// A 1280 by 720 canvas on the dark default background.
    fn default() -> (r: Self)
        ensures
            r.width == 1280,
            r.height == 720,
            r.background@ == default_background(),
    {
        SvgConfig { width: 1280, height: 720, background: string_of("#1a1a2e") }
    }
}

/// The background used when none (or an unsafe one) is given.
pub open spec fn default_background() -> Seq<char> {
    "#1a1a2e"@
}

/// Where a node is drawn: the centre of its circle, each coordinate written
/// with one decimal.
pub struct Placement {
    pub cx: String,
    pub cy: String,
}

/// A drawn edge: from the rim of one circle to the rim of the other, each
/// coordinate written with one decimal.
pub struct Segment {
    pub x1: String,
    pub y1: String,
    pub x2: String,
    pub y2: String,
}

/// The geometry of a drawing: a placement per node, the edges to draw in
/// order, and the centre of the canvas.
pub struct Layout {
    pub nodes: Vec<Placement>,
    pub segments: Vec<Segment>,
    pub center: Placement,
}

// ── Markup ───────────────────────────────────────────────────────────────────

/// The opening `svg` tag.
pub open spec fn svg_open_spec(width: u32, height: u32, background: Seq<char>) -> Seq<char> {
    "<svg xmlns=\"http://www.w3.org/2000/svg\" width=\""@ + decimal_spec(width as nat)
        + "\" height=\""@ + decimal_spec(height as nat) + "\" style=\"background:"@ + background
        + ";\">"@
}

/// The arrow-head marker shared by all edges.
pub open spec fn svg_defs_spec() -> Seq<char> {
    "<defs><marker id=\"arrow\" markerWidth=\"8\" markerHeight=\"6\" refX=\"8\" refY=\"3\" orient=\"auto\"><path d=\"M0,0 L8,3 L0,6 z\" fill=\"#888\"/></marker></defs>"@
}

/// One edge line with its arrow head.
pub open spec fn line_spec(s: Segment) -> Seq<char> {
    "<line x1=\""@ + s.x1@ + "\" y1=\""@ + s.y1@ + "\" x2=\""@ + s.x2@ + "\" y2=\""@ + s.y2@
        + "\" stroke=\"#888\" stroke-width=\"1.5\" marker-end=\"url(#arrow)\"/>"@
}

/// The circle of one node.
pub open spec fn circle_spec(p: Placement) -> Seq<char> {
    "<circle cx=\""@ + p.cx@ + "\" cy=\""@ + p.cy@
        + "\" r=\"24\" fill=\"#3a86ff\" stroke=\"#fff\" stroke-width=\"1.5\"/>"@
}

/// The label of one node, centred on it; the text is escaped.
pub open spec fn label_spec(p: Placement, label: Seq<char>) -> Seq<char> {
    "<text x=\""@ + p.cx@ + "\" y=\""@ + p.cy@
        + "\" fill=\"#fff\" font-size=\"11\" font-family=\"monospace\" text-anchor=\"middle\" dy=\".35em\">"@
        + escape_markup_spec(label) + "</text>"@
}

/// The note shown in the middle of an empty drawing.
pub open spec fn empty_note_spec(p: Placement) -> Seq<char> {
    "<text x=\""@ + p.cx@ + "\" y=\""@ + p.cy@
        + "\" fill=\"#888\" font-size=\"16\" font-family=\"sans-serif\" text-anchor=\"middle\">Empty graph</text>"@
}

/// The lines of the given segments, in order.
pub open spec fn lines_spec(segs: Seq<Segment>) -> Seq<char>
    decreases segs.len(),
{
    if segs.len() == 0 {
        Seq::empty()
    } else {
        lines_spec(segs.drop_last()) + line_spec(segs.last())
    }
}

/// Node `i`: its circle, then its label when labels are shown.
pub open spec fn node_markup_spec(p: Placement, label: Seq<char>, show_labels: bool) -> Seq<char> {
    circle_spec(p) + if show_labels {
        label_spec(p, label)
    } else {
        Seq::empty()
    }
}

/// The nodes, in order.
pub open spec fn nodes_spec(ps: Seq<Placement>, labels: Seq<Seq<char>>, show_labels: bool) -> Seq<
    char,
>
    decreases ps.len(),
{
    if ps.len() == 0 {
        Seq::empty()
    } else {
        nodes_spec(ps.drop_last(), labels, show_labels) + node_markup_spec(
            ps.last(),
            labels[ps.len() - 1],
            show_labels,
        )
    }
}

/// The whole drawing: edges under nodes inside a pannable viewport group,
/// and a note when there are no nodes.
pub open spec fn svg_spec(
    width: u32,
    height: u32,
    background: Seq<char>,
    labels: Seq<Seq<char>>,
    show_labels: bool,
    layout: Layout,
) -> Seq<char> {
    svg_open_spec(width, height, background) + svg_defs_spec() + "<g id=\"viewport\">"@
        + "<g id=\"edges\">"@ + lines_spec(layout.segments@) + "</g>"@ + "<g id=\"nodes\">"@
        + nodes_spec(layout.nodes@, labels, show_labels) + "</g>"@ + "</g>"@ + (if labels.len()
        == 0 {
        empty_note_spec(layout.center)
    } else {
        Seq::empty()
    }) + "</svg>"@
}

// ── Building the markup ──────────────────────────────────────────────────────

fn push_line(out: &mut String, s: &Segment)
    ensures
        final(out)@ == old(out)@ + line_spec(*s),
{
    push_str(out, "<line x1=\"");
    push_str(out, s.x1.as_str());
    push_str(out, "\" y1=\"");
    push_str(out, s.y1.as_str());
    push_str(out, "\" x2=\"");
    push_str(out, s.x2.as_str());
    push_str(out, "\" y2=\"");
    push_str(out, s.y2.as_str());
    push_str(out, "\" stroke=\"#888\" stroke-width=\"1.5\" marker-end=\"url(#arrow)\"/>");
    assert(out@ =~= old(out)@ + line_spec(*s));
}

fn push_node(out: &mut String, p: &Placement, label: &str, show_labels: bool)
    ensures
        final(out)@ == old(out)@ + node_markup_spec(*p, label@, show_labels),
{
    push_str(out, "<circle cx=\"");
    push_str(out, p.cx.as_str());
    push_str(out, "\" cy=\"");
    push_str(out, p.cy.as_str());
    push_str(out, "\" r=\"24\" fill=\"#3a86ff\" stroke=\"#fff\" stroke-width=\"1.5\"/>");
    if show_labels {
        let escaped = escape_markup(label);
        push_str(out, "<text x=\"");
        push_str(out, p.cx.as_str());
        push_str(out, "\" y=\"");
        push_str(out, p.cy.as_str());
        push_str(
            out,
            "\" fill=\"#fff\" font-size=\"11\" font-family=\"monospace\" text-anchor=\"middle\" dy=\".35em\">",
        );
        push_str(out, escaped.as_str());
        push_str(out, "</text>");
    }
    assert(out@ =~= old(out)@ + node_markup_spec(*p, label@, show_labels));
}

/// The drawing for nodes with the given labels, placed and connected as the
/// layout says. `background` is written as given.
pub fn svg_markup(
    width: u32,
    height: u32,
    background: &str,
    labels: &Vec<String>,
    show_labels: bool,
    layout: &Layout,
) -> (r: String)
    requires
        layout.nodes@.len() == labels@.len(),
    ensures
        r@ == svg_spec(width, height, background@, string_views(labels@), show_labels, *layout),
{
    let ghost lv = string_views(labels@);
    let mut out = String::new();
    push_str(&mut out, "<svg xmlns=\"http://www.w3.org/2000/svg\" width=\"");
    let w = unsigned_to_string(width as u128);
    push_str(&mut out, w.as_str());
    push_str(&mut out, "\" height=\"");
    let h = unsigned_to_string(height as u128);
    push_str(&mut out, h.as_str());
    push_str(&mut out, "\" style=\"background:");
    push_str(&mut out, background);
    push_str(&mut out, ";\">");
    push_str(
        &mut out,
        "<defs><marker id=\"arrow\" markerWidth=\"8\" markerHeight=\"6\" refX=\"8\" refY=\"3\" orient=\"auto\"><path d=\"M0,0 L8,3 L0,6 z\" fill=\"#888\"/></marker></defs>",
    );
    push_str(&mut out, "<g id=\"viewport\">");
    push_str(&mut out, "<g id=\"edges\">");
    let ghost head = out@;
    assert(head =~= svg_open_spec(width, height, background@) + svg_defs_spec()
        + "<g id=\"viewport\">"@ + "<g id=\"edges\">"@);
    let mut i: usize = 0;
    while i < layout.segments.len()
        invariant
            i <= layout.segments@.len(),
            out@ == head + lines_spec(layout.segments@.take(i as int)),
        decreases layout.segments.len() - i,
    {
        push_line(&mut out, &layout.segments[i]);
        assert(layout.segments@.take(i + 1).drop_last() =~= layout.segments@.take(i as int));
        i = i + 1;
    }
    assert(layout.segments@.take(layout.segments@.len() as int) =~= layout.segments@);
    push_str(&mut out, "</g>");
    push_str(&mut out, "<g id=\"nodes\">");
    let ghost mid = out@;
    let mut j: usize = 0;
    while j < layout.nodes.len()
        invariant
            layout.nodes@.len() == labels@.len(),
            lv == string_views(labels@),
            j <= layout.nodes@.len(),
            out@ == mid + nodes_spec(layout.nodes@.take(j as int), lv, show_labels),
        decreases layout.nodes.len() - j,
    {
        push_node(&mut out, &layout.nodes[j], labels[j].as_str(), show_labels);
        assert(layout.nodes@.take(j + 1).drop_last() =~= layout.nodes@.take(j as int));
        j = j + 1;
    }
    assert(layout.nodes@.take(layout.nodes@.len() as int) =~= layout.nodes@);
    push_str(&mut out, "</g>");
    push_str(&mut out, "</g>");
    if labels.len() == 0 {
        push_str(&mut out, "<text x=\"");
        push_str(&mut out, layout.center.cx.as_str());
        push_str(&mut out, "\" y=\"");
        push_str(&mut out, layout.center.cy.as_str());
        push_str(
            &mut out,
            "\" fill=\"#888\" font-size=\"16\" font-family=\"sans-serif\" text-anchor=\"middle\">Empty graph</text>",
        );
    }
    push_str(&mut out, "</svg>");
    assert(out@ =~= svg_spec(width, height, background@, lv, show_labels, *layout));
    out
}

// ── Which edges can be drawn ─────────────────────────────────────────────────

/// The position of the last node with this id; a later node with the same
/// id takes the place of an earlier one.
pub open spec fn last_position(ids: Seq<Seq<char>>, id: Seq<char>) -> Option<nat>
    decreases ids.len(),
{
    if ids.len() == 0 {
        None
    } else if ids.last() == id {
        Some((ids.len() - 1) as nat)
    } else {
        last_position(ids.drop_last(), id)
    }
}

/// The positions of an edge's two endpoints among the nodes, when both are
/// nodes.
pub open spec fn endpoints_spec(ids: Seq<Seq<char>>, e: Edge) -> Option<(nat, nat)> {
    match (last_position(ids, e.from@), last_position(ids, e.to@)) {
        (Some(a), Some(b)) => Some((a, b)),
        _ => None,
    }
}

proof fn lemma_last_position(ids: Seq<Seq<char>>, id: Seq<char>)
    ensures
        last_position(ids, id) matches Some(i) ==> i < ids.len() && ids[i as int] == id,
    decreases ids.len(),
{
    if ids.len() > 0 {
        lemma_last_position(ids.drop_last(), id);
    }
}

/// The position of the last id equal to `id`.
fn find_last(ids: &Vec<String>, id: &String) -> (r: Option<usize>)
    ensures
        r matches Some(i) ==> last_position(string_views(ids@), id@) == Some(i as nat),
        r is None ==> last_position(string_views(ids@), id@) is None,
{
    let ghost v = string_views(ids@);
    let mut i = ids.len();
    assert(v.take(i as int) =~= v);
    while i > 0
        invariant
            v == string_views(ids@),
            i <= ids@.len(),
            last_position(v, id@) == last_position(v.take(i as int), id@),
        decreases i,
    {
        assert(v.take(i as int).drop_last() =~= v.take(i - 1));
        if ids[i - 1] == *id {
            return Some(i - 1);
        }
        i = i - 1;
    }
    None
}

/// The endpoint positions that can get a line, in edge order: those of the
/// edges whose ends are both nodes and two different ones. An edge from a
/// node to itself has no length to draw.
pub open spec fn distinct_ends(ends: Seq<Option<(usize, usize)>>) -> Seq<(usize, usize)>
    decreases ends.len(),
{
    if ends.len() == 0 {
        Seq::empty()
    } else {
        let rest = distinct_ends(ends.drop_last());
        match ends.last() {
            Some((a, b)) => if a != b {
                rest.push((a, b))
            } else {
                rest
            },
            None => rest,
        }
    }
}

/// The edge's ends are both nodes, and different ones.
pub open spec fn two_nodes(e: Option<(usize, usize)>) -> bool {
    match e {
        Some((a, b)) => a != b,
        None => false,
    }
}

/// Every edge whose ends are two different nodes gets a line, in edge
/// order, and nothing else does: the kept positions are exactly those of
/// `ends` that are present with different ends.
pub proof fn every_edge_between_distinct_nodes_is_drawn(ends: Seq<Option<(usize, usize)>>)
    ensures
        distinct_ends(ends) == ends.filter_map(
            |e: Option<(usize, usize)>| match e {
                Some((a, b)) => if a != b {
                    Some((a, b))
                } else {
                    None
                },
                None => None,
            },
        ),
        forall|i: int|
            0 <= i < ends.len() && two_nodes(#[trigger] ends[i])
                ==> distinct_ends(ends).contains(ends[i]->0),
        forall|k: int|
            0 <= k < distinct_ends(ends).len() ==> (#[trigger] distinct_ends(ends)[k]).0
                != distinct_ends(ends)[k].1 && ends.contains(Some(distinct_ends(ends)[k])),
    decreases ends.len(),
{
    if ends.len() > 0 {
        let prev = ends.drop_last();
        every_edge_between_distinct_nodes_is_drawn(prev);
        let rest = distinct_ends(prev);
        assert forall|i: int|
            0 <= i < ends.len() && two_nodes(#[trigger] ends[i])
                implies distinct_ends(ends).contains(ends[i]->0) by {
            let (a, b) = ends[i]->0;
            assert(a != b);
            if i < ends.len() - 1 {
                assert(prev[i] == ends[i]);
                let k = choose|k: int| 0 <= k < rest.len() && rest[k] == (a, b);
                assert(distinct_ends(ends)[k] == (a, b));
            } else {
                assert(distinct_ends(ends) == rest.push((a, b)));
                assert(distinct_ends(ends)[rest.len() as int] == (a, b));
            }
        }
        assert forall|k: int| 0 <= k < distinct_ends(ends).len() implies (#[trigger] distinct_ends(
            ends,
        )[k]).0 != distinct_ends(ends)[k].1 && ends.contains(Some(distinct_ends(ends)[k])) by {
            if k < rest.len() {
                assert(distinct_ends(ends)[k] == rest[k]);
                let j = choose|j: int| 0 <= j < prev.len() && prev[j] == Some(rest[k]);
                assert(ends[j] == prev[j]);
            } else {
                assert(ends[ends.len() - 1] == ends.last());
            }
        }
    }
}

/// Keeps the endpoint positions of the edges that can get a line: both
/// ends are nodes, and different ones.
pub fn drawn_endpoints(ends: &Vec<Option<(usize, usize)>>) -> (r: Vec<(usize, usize)>)
    ensures
        r@ == distinct_ends(ends@),
{
    let mut out: Vec<(usize, usize)> = Vec::new();
    let mut i: usize = 0;
    while i < ends.len()
        invariant
            i <= ends@.len(),
            out@ == distinct_ends(ends@.take(i as int)),
        decreases ends.len() - i,
    {
        assert(ends@.take(i + 1).drop_last() =~= ends@.take(i as int));
        assert(ends@.take(i + 1).last() == ends@[i as int]);
        match ends[i] {
            Some((a, b)) => {
                if a != b {
                    out.push((a, b));
                }
            },
            None => {},
        }
        i = i + 1;
    }
    assert(ends@.take(ends@.len() as int) =~= ends@);
    out
}

/// For each edge, the positions of its endpoints among the nodes with the
/// given ids, or `None` when either endpoint is not a node; only edges with
/// both endpoints are drawn.
pub fn edge_endpoints(ids: &Vec<String>, edges: &[Edge]) -> (r: Vec<Option<(usize, usize)>>)
    ensures
        r@.len() == edges@.len(),
        forall|i: int|
            0 <= i < edges@.len() ==> match #[trigger] r@[i] {
                Some((a, b)) => endpoints_spec(string_views(ids@), edges@[i]) == Some(
                    (a as nat, b as nat),
                ),
                None => endpoints_spec(string_views(ids@), edges@[i]) is None,
            },
        forall|i: int|
            0 <= i < edges@.len() ==> (#[trigger] r@[i] matches Some((a, b)) ==> a < ids@.len()
                && b < ids@.len()),
{
    let mut out: Vec<Option<(usize, usize)>> = Vec::new();
    let mut i: usize = 0;
    while i < edges.len()
        invariant
            i <= edges@.len(),
            out@.len() == i,
            forall|k: int|
                0 <= k < i ==> match #[trigger] out@[k] {
                    Some((a, b)) => endpoints_spec(string_views(ids@), edges@[k]) == Some(
                        (a as nat, b as nat),
                    ),
                    None => endpoints_spec(string_views(ids@), edges@[k]) is None,
                },
            forall|k: int|
                0 <= k < i ==> (#[trigger] out@[k] matches Some((a, b)) ==> a < ids@.len() && b
                    < ids@.len()),
        decreases edges.len() - i,
    {
        let from = find_last(ids, &edges[i].from);
        let to = find_last(ids, &edges[i].to);
        proof {
            lemma_last_position(string_views(ids@), edges@[i as int].from@);
            lemma_last_position(string_views(ids@), edges@[i as int].to@);
        }
        match (from, to) {
            (Some(a), Some(b)) => out.push(Some((a, b))),
            _ => out.push(None),
        }
        i = i + 1;
    }
    out
}

// ── Rendering a graph ────────────────────────────────────────────────────────

/// The background actually drawn: the configured colour when it is a
/// hexadecimal colour (trimmed), the default otherwise.
pub open spec fn background_spec(configured: Seq<char>) -> Seq<char> {
    if is_css_hex_color(trim_spec(configured)) {
        trim_spec(configured)
    } else {
        default_background()
    }
}

/// The labels of the nodes, in order.
pub open spec fn node_labels(nodes: Seq<Node>) -> Seq<Seq<char>> {
    nodes.map_values(|n: Node| n.label@)
}

/// Renders lineage graphs as standalone SVG.
pub struct SvgRenderer;

impl SvgRenderer {
    /// The SVG drawing of `graph`: every node as a labelled circle at its
    /// placement, the given edge segments as arrows, on the configured
    /// canvas. A background that is not a hexadecimal colour is replaced by
    /// the default, so nothing can be injected through it.
    pub fn render(graph: &Graph, config: &SvgConfig, layout: &Layout) -> (r: String)
        requires
            layout.nodes@.len() == graph.node_seq().len(),
        ensures
            r@ == svg_spec(
                config.width,
                config.height,
                background_spec(config.background@),
                node_labels(graph.node_seq()),
                true,
                *layout,
            ),
    {
        let nodes = graph.nodes();
        let mut labels: Vec<String> = Vec::new();
        let mut i: usize = 0;
        while i < nodes.len()
            invariant
                nodes@ == graph.node_seq(),
                i <= nodes@.len(),
                string_views(labels@) == node_labels(nodes@.take(i as int)),
            decreases nodes.len() - i,
        {
            let l = nodes[i].label.clone();
            let ghost before = labels@;
            labels.push(l);
            assert(labels@ =~= before.push(l));
            assert(string_views(labels@) =~= string_views(before).push(l@));
            assert(nodes@.take(i + 1) =~= nodes@.take(i as int).push(nodes@[i as int]));
            assert(node_labels(nodes@.take(i + 1)) =~= node_labels(nodes@.take(i as int)).push(
                nodes@[i as int].label@,
            ));
            i = i + 1;
        }
        assert(nodes@.take(nodes@.len() as int) =~= nodes@);
        let background = match sanitize_css_color(config.background.as_str()) {
            Some(t) => t,
            None => "#1a1a2e",
        };
        proof {
            reveal_strlit("#1a1a2e");
        }
        svg_markup(config.width, config.height, background, &labels, true, layout)
    }
}

/// Whatever background is configured, the one drawn cannot end the style
/// attribute or open a tag: it holds no `<`, `>`, `"`, `&` or `;`.
pub proof fn drawn_background_is_inert(configured: Seq<char>)
    ensures
        forall|i: int|
            0 <= i < background_spec(configured).len() ==> !is_markup_special(
                #[trigger] background_spec(configured)[i],
            ) && background_spec(configured)[i] != '&' && background_spec(configured)[i] != ';',
{
    if is_css_hex_color(trim_spec(configured)) {
        sanitized_color_is_inert(trim_spec(configured));
    } else {
        reveal_strlit("#1a1a2e");
    }
}

// ── No script in a drawing ───────────────────────────────────────────────────

/// At `i`, `t` opens a script element: `<`, then `s` and `c` in either case.
pub open spec fn opens_script(t: Seq<char>, i: int) -> bool {
    &&& 0 <= i
    &&& i + 2 < t.len()
    &&& t[i] == '<'
    &&& (t[i + 1] == 's' || t[i + 1] == 'S')
    &&& (t[i + 2] == 'c' || t[i + 2] == 'C')
}

/// `t` opens no script element, and no `<` in its last two characters
/// could start one together with what follows it.
pub open spec fn markup_safe(t: Seq<char>) -> bool {
    &&& forall|i: int| !#[trigger] opens_script(t, i)
    &&& forall|i: int| 0 <= i < t.len() && i + 2 >= t.len() ==> #[trigger] t[i] != '<'
}

/// `t` holds no `<`.
pub open spec fn no_lt(t: Seq<char>) -> bool {
    forall|i: int| 0 <= i < t.len() ==> #[trigger] t[i] != '<'
}

proof fn lemma_no_lt_safe(t: Seq<char>)
    requires
        no_lt(t),
    ensures
        markup_safe(t),
{
    assert forall|i: int| !#[trigger] opens_script(t, i) by {
        if 0 <= i < t.len() {
            assert(t[i] != '<');
        }
    }
}

proof fn lemma_safe_concat(a: Seq<char>, b: Seq<char>)
    requires
        markup_safe(a),
        markup_safe(b),
    ensures
        markup_safe(a + b),
{
    let t = a + b;
    assert forall|i: int| !#[trigger] opens_script(t, i) by {
        if opens_script(t, i) {
            if i < a.len() {
                assert(t[i] == a[i]);
                if i + 2 < a.len() {
                    assert(t[i + 1] == a[i + 1] && t[i + 2] == a[i + 2]);
                    assert(opens_script(a, i));
                }
            } else {
                let j = i - a.len();
                assert(t[i] == b[j] && t[i + 1] == b[j + 1] && t[i + 2] == b[j + 2]);
                assert(opens_script(b, j));
            }
        }
    }
    assert forall|i: int| 0 <= i < t.len() && i + 2 >= t.len() implies #[trigger] t[i] != '<' by {
        if i < a.len() {
            assert(t[i] == a[i]);
        } else {
            assert(t[i] == b[i - a.len()]);
        }
    }
}

proof fn lemma_literals_safe()
    ensures
        markup_safe("<svg xmlns=\"http://www.w3.org/2000/svg\" width=\""@),
        markup_safe("\" height=\""@),
        markup_safe("\" style=\"background:"@),
        markup_safe(";\">"@),
        markup_safe("<g id=\"viewport\">"@),
        markup_safe("<g id=\"edges\">"@),
        markup_safe("</g>"@),
        markup_safe("<g id=\"nodes\">"@),
        markup_safe("</svg>"@),
        markup_safe("<line x1=\""@),
        markup_safe("\" y1=\""@),
        markup_safe("\" x2=\""@),
        markup_safe("\" y2=\""@),
        markup_safe("\" stroke=\"#888\" stroke-width=\"1.5\" marker-end=\"url(#arrow)\"/>"@),
        markup_safe("<circle cx=\""@),
        markup_safe("\" cy=\""@),
        markup_safe("\" r=\"24\" fill=\"#3a86ff\" stroke=\"#fff\" stroke-width=\"1.5\"/>"@),
        markup_safe("<text x=\""@),
        markup_safe("\" y=\""@),
        markup_safe("\" fill=\"#fff\" font-size=\"11\" font-family=\"monospace\" text-anchor=\"middle\" dy=\".35em\">"@),
        markup_safe("</text>"@),
        markup_safe("\" fill=\"#888\" font-size=\"16\" font-family=\"sans-serif\" text-anchor=\"middle\">Empty graph</text>"@),
        markup_safe("<defs><marker id=\"arrow\" markerWidth=\"8\" markerHeight=\"6\" refX=\"8\" refY=\"3\" orient=\"auto\"><path d=\"M0,0 L8,3 L0,6 z\" fill=\"#888\"/></marker></defs>"@),
{
    reveal_strlit("<svg xmlns=\"http://www.w3.org/2000/svg\" width=\"");
    reveal_strlit("\" height=\"");
    reveal_strlit("\" style=\"background:");
    reveal_strlit(";\">");
    reveal_strlit("<g id=\"viewport\">");
    reveal_strlit("<g id=\"edges\">");
    reveal_strlit("</g>");
    reveal_strlit("<g id=\"nodes\">");
    reveal_strlit("</svg>");
    reveal_strlit("<line x1=\"");
    reveal_strlit("\" y1=\"");
    reveal_strlit("\" x2=\"");
    reveal_strlit("\" y2=\"");
    reveal_strlit("\" stroke=\"#888\" stroke-width=\"1.5\" marker-end=\"url(#arrow)\"/>");
    reveal_strlit("<circle cx=\"");
    reveal_strlit("\" cy=\"");
    reveal_strlit("\" r=\"24\" fill=\"#3a86ff\" stroke=\"#fff\" stroke-width=\"1.5\"/>");
    reveal_strlit("<text x=\"");
    reveal_strlit("\" y=\"");
    reveal_strlit("\" fill=\"#fff\" font-size=\"11\" font-family=\"monospace\" text-anchor=\"middle\" dy=\".35em\">");
    reveal_strlit("</text>");
    reveal_strlit("\" fill=\"#888\" font-size=\"16\" font-family=\"sans-serif\" text-anchor=\"middle\">Empty graph</text>");
    reveal_strlit("<defs><marker id=\"arrow\" markerWidth=\"8\" markerHeight=\"6\" refX=\"8\" refY=\"3\" orient=\"auto\"><path d=\"M0,0 L8,3 L0,6 z\" fill=\"#888\"/></marker></defs>");
}

proof fn lemma_decimal_no_lt(n: nat)
    ensures
        no_lt(decimal_spec(n)),
    decreases n,
{
    if n >= 10 {
        lemma_decimal_no_lt(n / 10);
        let d = decimal_spec(n / 10).push(digit_char((n % 10) as int));
        assert forall|i: int| 0 <= i < d.len() implies #[trigger] d[i] != '<' by {
            if i < d.len() - 1 {
                assert(d[i] == decimal_spec(n / 10)[i]);
            }
        }
    }
}

proof fn lemma_escaped_safe(label: Seq<char>)
    ensures
        markup_safe(escape_markup_spec(label)),
{
    escaped_markup_has_no_specials(label);
    let e = escape_markup_spec(label);
    assert forall|i: int| 0 <= i < e.len() implies #[trigger] e[i] != '<' by {
        assert(!is_markup_special(e[i]));
    }
    lemma_no_lt_safe(e);
}

/// The coordinate texts of a placement hold no `<`.
pub open spec fn placement_plain(p: Placement) -> bool {
    no_lt(p.cx@) && no_lt(p.cy@)
}

/// The coordinate texts of a segment hold no `<`.
pub open spec fn segment_plain(s: Segment) -> bool {
    no_lt(s.x1@) && no_lt(s.y1@) && no_lt(s.x2@) && no_lt(s.y2@)
}

proof fn lemma_line_safe(s: Segment)
    requires
        segment_plain(s),
    ensures
        markup_safe(line_spec(s)),
{
    lemma_literals_safe();
    lemma_no_lt_safe(s.x1@);
    lemma_no_lt_safe(s.y1@);
    lemma_no_lt_safe(s.x2@);
    lemma_no_lt_safe(s.y2@);
    lemma_safe_concat("<line x1=\""@, s.x1@);
    lemma_safe_concat("<line x1=\""@ + s.x1@, "\" y1=\""@);
    lemma_safe_concat("<line x1=\""@ + s.x1@ + "\" y1=\""@, s.y1@);
    lemma_safe_concat("<line x1=\""@ + s.x1@ + "\" y1=\""@ + s.y1@, "\" x2=\""@);
    lemma_safe_concat("<line x1=\""@ + s.x1@ + "\" y1=\""@ + s.y1@ + "\" x2=\""@, s.x2@);
    lemma_safe_concat("<line x1=\""@ + s.x1@ + "\" y1=\""@ + s.y1@ + "\" x2=\""@ + s.x2@, "\" y2=\""@);
    lemma_safe_concat("<line x1=\""@ + s.x1@ + "\" y1=\""@ + s.y1@ + "\" x2=\""@ + s.x2@ + "\" y2=\""@, s.y2@);
    lemma_safe_concat("<line x1=\""@ + s.x1@ + "\" y1=\""@ + s.y1@ + "\" x2=\""@ + s.x2@ + "\" y2=\""@ + s.y2@, "\" stroke=\"#888\" stroke-width=\"1.5\" marker-end=\"url(#arrow)\"/>"@);
}

proof fn lemma_lines_safe(segs: Seq<Segment>)
    requires
        forall|i: int| 0 <= i < segs.len() ==> segment_plain(#[trigger] segs[i]),
    ensures
        markup_safe(lines_spec(segs)),
    decreases segs.len(),
{
    if segs.len() == 0 {
        lemma_no_lt_safe(Seq::<char>::empty());
    } else {
        lemma_lines_safe(segs.drop_last());
        assert(segment_plain(segs[segs.len() - 1]));
        lemma_line_safe(segs.last());
        lemma_safe_concat(lines_spec(segs.drop_last()), line_spec(segs.last()));
    }
}

proof fn lemma_node_safe(p: Placement, label: Seq<char>, show_labels: bool)
    requires
        placement_plain(p),
    ensures
        markup_safe(node_markup_spec(p, label, show_labels)),
{
    lemma_literals_safe();
    lemma_no_lt_safe(p.cx@);
    lemma_no_lt_safe(p.cy@);
    lemma_safe_concat("<circle cx=\""@, p.cx@);
    lemma_safe_concat("<circle cx=\""@ + p.cx@, "\" cy=\""@);
    lemma_safe_concat("<circle cx=\""@ + p.cx@ + "\" cy=\""@, p.cy@);
    lemma_safe_concat("<circle cx=\""@ + p.cx@ + "\" cy=\""@ + p.cy@, "\" r=\"24\" fill=\"#3a86ff\" stroke=\"#fff\" stroke-width=\"1.5\"/>"@);
    let circle = circle_spec(p);
    if show_labels {
        lemma_escaped_safe(label);
        lemma_safe_concat("<text x=\""@, p.cx@);
        lemma_safe_concat("<text x=\""@ + p.cx@, "\" y=\""@);
        lemma_safe_concat("<text x=\""@ + p.cx@ + "\" y=\""@, p.cy@);
        lemma_safe_concat("<text x=\""@ + p.cx@ + "\" y=\""@ + p.cy@, "\" fill=\"#fff\" font-size=\"11\" font-family=\"monospace\" text-anchor=\"middle\" dy=\".35em\">"@);
        lemma_safe_concat("<text x=\""@ + p.cx@ + "\" y=\""@ + p.cy@ + "\" fill=\"#fff\" font-size=\"11\" font-family=\"monospace\" text-anchor=\"middle\" dy=\".35em\">"@, escape_markup_spec(label));
        lemma_safe_concat("<text x=\""@ + p.cx@ + "\" y=\""@ + p.cy@ + "\" fill=\"#fff\" font-size=\"11\" font-family=\"monospace\" text-anchor=\"middle\" dy=\".35em\">"@ + escape_markup_spec(label), "</text>"@);
        lemma_safe_concat(circle, label_spec(p, label));
    } else {
        lemma_no_lt_safe(Seq::<char>::empty());
        lemma_safe_concat(circle, Seq::<char>::empty());
    }
}

proof fn lemma_nodes_safe(ps: Seq<Placement>, labels: Seq<Seq<char>>, show_labels: bool)
    requires
        forall|i: int| 0 <= i < ps.len() ==> placement_plain(#[trigger] ps[i]),
    ensures
        markup_safe(nodes_spec(ps, labels, show_labels)),
    decreases ps.len(),
{
    if ps.len() == 0 {
        lemma_no_lt_safe(Seq::<char>::empty());
    } else {
        lemma_nodes_safe(ps.drop_last(), labels, show_labels);
        assert(placement_plain(ps[ps.len() - 1]));
        lemma_node_safe(ps.last(), labels[ps.len() - 1], show_labels);
        lemma_safe_concat(
            nodes_spec(ps.drop_last(), labels, show_labels),
            node_markup_spec(ps.last(), labels[ps.len() - 1], show_labels),
        );
    }
}

/// A drawing never opens a script element: labels are escaped, and as
/// long as the background and the layout's coordinate texts hold no `<`,
/// no `<` in the whole drawing is followed by `sc` (in any case).
pub proof fn drawing_opens_no_script(
    width: u32,
    height: u32,
    background: Seq<char>,
    labels: Seq<Seq<char>>,
    show_labels: bool,
    layout: Layout,
)
    requires
        no_lt(background),
        forall|i: int| 0 <= i < layout.nodes@.len() ==> placement_plain(#[trigger] layout.nodes@[i]),
        forall|i: int|
            0 <= i < layout.segments@.len() ==> segment_plain(#[trigger] layout.segments@[i]),
        placement_plain(layout.center),
    ensures
        markup_safe(svg_spec(width, height, background, labels, show_labels, layout)),
{
    lemma_literals_safe();
    lemma_decimal_no_lt(width as nat);
    lemma_decimal_no_lt(height as nat);
    lemma_no_lt_safe(decimal_spec(width as nat));
    lemma_no_lt_safe(decimal_spec(height as nat));
    lemma_no_lt_safe(background);
    lemma_lines_safe(layout.segments@);
    lemma_nodes_safe(layout.nodes@, labels, show_labels);
    lemma_safe_concat("<svg xmlns=\"http://www.w3.org/2000/svg\" width=\""@, decimal_spec(width as nat));
    lemma_safe_concat("<svg xmlns=\"http://www.w3.org/2000/svg\" width=\""@ + decimal_spec(width as nat), "\" height=\""@);
    lemma_safe_concat("<svg xmlns=\"http://www.w3.org/2000/svg\" width=\""@ + decimal_spec(width as nat) + "\" height=\""@, decimal_spec(height as nat));
    lemma_safe_concat("<svg xmlns=\"http://www.w3.org/2000/svg\" width=\""@ + decimal_spec(width as nat) + "\" height=\""@ + decimal_spec(height as nat), "\" style=\"background:"@);
    lemma_safe_concat("<svg xmlns=\"http://www.w3.org/2000/svg\" width=\""@ + decimal_spec(width as nat) + "\" height=\""@ + decimal_spec(height as nat) + "\" style=\"background:"@, background);
    lemma_safe_concat("<svg xmlns=\"http://www.w3.org/2000/svg\" width=\""@ + decimal_spec(width as nat) + "\" height=\""@ + decimal_spec(height as nat) + "\" style=\"background:"@ + background, ";\">"@);
    let head = svg_open_spec(width, height, background);
    let note = if labels.len() == 0 {
        empty_note_spec(layout.center)
    } else {
        Seq::<char>::empty()
    };
    if labels.len() == 0 {
        lemma_no_lt_safe(layout.center.cx@);
        lemma_no_lt_safe(layout.center.cy@);
        lemma_safe_concat("<text x=\""@, layout.center.cx@);
        lemma_safe_concat("<text x=\""@ + layout.center.cx@, "\" y=\""@);
        lemma_safe_concat("<text x=\""@ + layout.center.cx@ + "\" y=\""@, layout.center.cy@);
        lemma_safe_concat("<text x=\""@ + layout.center.cx@ + "\" y=\""@ + layout.center.cy@, "\" fill=\"#888\" font-size=\"16\" font-family=\"sans-serif\" text-anchor=\"middle\">Empty graph</text>"@);
    } else {
        lemma_no_lt_safe(Seq::<char>::empty());
    }
    lemma_safe_concat(head, svg_defs_spec());
    lemma_safe_concat(head + svg_defs_spec(), "<g id=\"viewport\">"@);
    lemma_safe_concat(head + svg_defs_spec() + "<g id=\"viewport\">"@, "<g id=\"edges\">"@);
    lemma_safe_concat(head + svg_defs_spec() + "<g id=\"viewport\">"@ + "<g id=\"edges\">"@, lines_spec(layout.segments@));
    lemma_safe_concat(head + svg_defs_spec() + "<g id=\"viewport\">"@ + "<g id=\"edges\">"@ + lines_spec(layout.segments@), "</g>"@);
    lemma_safe_concat(head + svg_defs_spec() + "<g id=\"viewport\">"@ + "<g id=\"edges\">"@ + lines_spec(layout.segments@) + "</g>"@, "<g id=\"nodes\">"@);
    lemma_safe_concat(head + svg_defs_spec() + "<g id=\"viewport\">"@ + "<g id=\"edges\">"@ + lines_spec(layout.segments@) + "</g>"@ + "<g id=\"nodes\">"@, nodes_spec(layout.nodes@, labels, show_labels));
    lemma_safe_concat(head + svg_defs_spec() + "<g id=\"viewport\">"@ + "<g id=\"edges\">"@ + lines_spec(layout.segments@) + "</g>"@ + "<g id=\"nodes\">"@ + nodes_spec(layout.nodes@, labels, show_labels), "</g>"@);
    lemma_safe_concat(head + svg_defs_spec() + "<g id=\"viewport\">"@ + "<g id=\"edges\">"@ + lines_spec(layout.segments@) + "</g>"@ + "<g id=\"nodes\">"@ + nodes_spec(layout.nodes@, labels, show_labels) + "</g>"@, "</g>"@);
    lemma_safe_concat(head + svg_defs_spec() + "<g id=\"viewport\">"@ + "<g id=\"edges\">"@ + lines_spec(layout.segments@) + "</g>"@ + "<g id=\"nodes\">"@ + nodes_spec(layout.nodes@, labels, show_labels) + "</g>"@ + "</g>"@, note);
    lemma_safe_concat(head + svg_defs_spec() + "<g id=\"viewport\">"@ + "<g id=\"edges\">"@ + lines_spec(layout.segments@) + "</g>"@ + "<g id=\"nodes\">"@ + nodes_spec(layout.nodes@, labels, show_labels) + "</g>"@ + "</g>"@ + note, "</svg>"@);
}

/// What `SvgRenderer::render` draws opens no script element when the
/// layout's coordinate texts hold no `<`, whatever the configured
/// background and the node labels hold.
pub proof fn rendered_graph_opens_no_script(
    width: u32,
    height: u32,
    configured: Seq<char>,
    labels: Seq<Seq<char>>,
    layout: Layout,
)
    requires
        forall|i: int| 0 <= i < layout.nodes@.len() ==> placement_plain(#[trigger] layout.nodes@[i]),
        forall|i: int|
            0 <= i < layout.segments@.len() ==> segment_plain(#[trigger] layout.segments@[i]),
        placement_plain(layout.center),
    ensures
        markup_safe(svg_spec(width, height, background_spec(configured), labels, true, layout)),
{
    drawn_background_is_inert(configured);
    let b = background_spec(configured);
    assert forall|i: int| 0 <= i < b.len() implies #[trigger] b[i] != '<' by {
        assert(!is_markup_special(b[i]));
    }
    drawing_opens_no_script(width, height, b, labels, true, layout);
}

} // verus!
