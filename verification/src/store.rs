//! The logic of the metadata store: rebuilding the graph from its tables,
//! the structural report, and the rows written to the staging tables. The
//! database itself is driven by the application.
use std::path::PathBuf;
use vstd::prelude::*;

use crate::graph::{
    has_directed_cycle, is_walk, last_index_of, last_node_index, lemma_last_index_bound, link_for,
    node_ids, Edge, Graph, Node,
};
use crate::strand::Strand;
use crate::text::{insert_sorted, str_eq, string_views, strictly_sorted};

verus! {

/// The links that adding `edges`, in order, to a graph holding `nodes` records.
pub open spec fn links_of(nodes: Seq<Node>, edges: Seq<Edge>) -> Seq<(nat, nat)>
    decreases edges.len(),
{
    if edges.len() == 0 {
        Seq::empty()
    } else {
        let before = links_of(nodes, edges.drop_last());
        match link_for(nodes, edges.last()) {
            Some(l) => before.push(l),
            None => before,
        }
    }
}

/// `id` is the id of one of the nodes.
pub open spec fn names_node(nodes: Seq<Node>, id: Seq<char>) -> bool {
    node_ids(nodes).contains(id)
}

/// Some edge runs from `a` to `b`, and both name nodes.
pub open spec fn joined(nodes: Seq<Node>, edges: Seq<Edge>, a: Seq<char>, b: Seq<char>) -> bool {
    &&& names_node(nodes, a)
    &&& names_node(nodes, b)
    &&& exists|j: int| 0 <= j < edges.len() && edges[j].from@ == a && edges[j].to@ == b
}

/// The edges hold a directed cycle among the nodes: a walk of ids, each
/// step an edge whose endpoints both name nodes, that ends where it starts
/// (an edge from a node to itself counts).
pub open spec fn has_edge_cycle(nodes: Seq<Node>, edges: Seq<Edge>) -> bool {
    exists|w: Seq<Seq<char>>|
        w.len() >= 2 && w[0] == w.last() && forall|i: int|
            0 <= i < w.len() - 1 ==> joined(nodes, edges, #[trigger] w[i], w[i + 1])
}

proof fn lemma_names_node(nodes: Seq<Node>, id: Seq<char>)
    ensures
        names_node(nodes, id) <==> last_index_of(nodes, id) is Some,
{
    lemma_last_index_bound(nodes, id);
    if names_node(nodes, id) {
        let k = choose|k: int| 0 <= k < node_ids(nodes).len() && node_ids(nodes)[k] == id;
        assert(nodes[k].id@ == id);
    }
    if last_index_of(nodes, id) is Some {
        let i = last_index_of(nodes, id)->0;
        assert(node_ids(nodes)[i as int] == id);
    }
}

proof fn lemma_links_of_source(nodes: Seq<Node>, edges: Seq<Edge>, l: (nat, nat))
    requires
        links_of(nodes, edges).contains(l),
    ensures
        exists|j: int| 0 <= j < edges.len() && link_for(nodes, #[trigger] edges[j]) == Some(l),
    decreases edges.len(),
{
    let before = links_of(nodes, edges.drop_last());
    let k = choose|k: int| 0 <= k < links_of(nodes, edges).len() && links_of(nodes, edges)[k] == l;
    if edges.len() > 0 {
        if k < before.len() {
            assert(before[k] == l);
            lemma_links_of_source(nodes, edges.drop_last(), l);
            let j = choose|j: int| 0 <= j < edges.drop_last().len() && link_for(nodes, #[trigger] edges.drop_last()[j]) == Some(l);
            assert(edges[j] == edges.drop_last()[j]);
        } else {
            assert(link_for(nodes, edges[edges.len() - 1]) == Some(l));
        }
    }
}

proof fn lemma_links_of_has(nodes: Seq<Node>, edges: Seq<Edge>, j: int)
    requires
        0 <= j < edges.len(),
        link_for(nodes, edges[j]) is Some,
    ensures
        links_of(nodes, edges).contains(link_for(nodes, edges[j])->0),
    decreases edges.len(),
{
    let l = link_for(nodes, edges[j])->0;
    let before = links_of(nodes, edges.drop_last());
    if j == edges.len() - 1 {
        assert(links_of(nodes, edges) == before.push(l));
        assert(links_of(nodes, edges)[before.len() as int] == l);
    } else {
        assert(edges.drop_last()[j] == edges[j]);
        lemma_links_of_has(nodes, edges.drop_last(), j);
        let k = choose|k: int| 0 <= k < before.len() && before[k] == l;
        assert(links_of(nodes, edges)[k] == l);
    }
}

/// Cycle detection in terms of the edges: the links recorded for `edges`
/// on a graph holding `nodes` (the graph that `graph_from_rows` builds)
/// hold a directed cycle exactly when the edges do among the nodes. Edges
/// with an endpoint that names no node take part in no cycle.
pub proof fn cycle_in_terms_of_edges(nodes: Seq<Node>, edges: Seq<Edge>)
    ensures
        has_directed_cycle(links_of(nodes, edges)) <==> has_edge_cycle(nodes, edges),
{
    let links = links_of(nodes, edges);
    if has_directed_cycle(links) {
        let w = choose|w: Seq<nat>| is_walk(links, w) && w[0] == w.last();
        let v = w.map_values(|p: nat| nodes[p as int].id@);
        assert forall|i: int| 0 <= i < v.len() - 1 implies joined(nodes, edges, #[trigger] v[i], v[i + 1]) by {
            assert(links.contains((w[i], w[i + 1])));
            lemma_links_of_source(nodes, edges, (w[i], w[i + 1]));
            let j = choose|j: int| 0 <= j < edges.len() && link_for(nodes, #[trigger] edges[j]) == Some((w[i], w[i + 1]));
            lemma_last_index_bound(nodes, edges[j].from@);
            lemma_last_index_bound(nodes, edges[j].to@);
            assert(node_ids(nodes)[w[i] as int] == v[i]);
            assert(node_ids(nodes)[w[i + 1] as int] == v[i + 1]);
        }
        assert(v[0] == v.last());
    }
    if has_edge_cycle(nodes, edges) {
        let v = choose|v: Seq<Seq<char>>|
            v.len() >= 2 && v[0] == v.last() && forall|i: int|
                0 <= i < v.len() - 1 ==> joined(nodes, edges, #[trigger] v[i], v[i + 1]);
        let w = v.map_values(|id: Seq<char>| match last_index_of(nodes, id) {
            Some(p) => p,
            None => 0nat,
        });
        assert forall|i: int| 0 <= i < w.len() - 1 implies links.contains((#[trigger] w[i], w[i + 1])) by {
            assert(joined(nodes, edges, v[i], v[i + 1]));
            lemma_names_node(nodes, v[i]);
            lemma_names_node(nodes, v[i + 1]);
            let j = choose|j: int| 0 <= j < edges.len() && edges[j].from@ == v[i] && edges[j].to@ == v[i + 1];
            assert(link_for(nodes, edges[j]) == Some((w[i], w[i + 1])));
            lemma_links_of_has(nodes, edges, j);
        }
        assert(is_walk(links, w));
        assert(w[0] == w.last());
    }
}

proof fn lemma_links_prefix(nodes: Seq<Node>, edges: Seq<Edge>, k: int)
    requires
        0 <= k <= edges.len(),
    ensures
        links_of(nodes, edges.take(k)).len() <= links_of(nodes, edges).len(),
    decreases edges.len(),
{
    if k < edges.len() {
        assert(edges.drop_last().take(k) =~= edges.take(k));
        lemma_links_prefix(nodes, edges.drop_last(), k);
    } else {
        assert(edges.take(k) =~= edges);
    }
}

/// The number of links that adding `edges` to a graph of `nodes` records:
/// the edges whose two endpoints are nodes.
pub fn link_count(nodes: &[Node], edges: &[Edge]) -> (n: usize)
    ensures
        n == links_of(nodes@, edges@).len(),
{
    let mut n: usize = 0;
    let mut i: usize = 0;
    while i < edges.len()
        invariant
            i <= edges@.len(),
            n == links_of(nodes@, edges@.take(i as int)).len(),
            n <= i,
        decreases edges.len() - i,
    {
        let from = last_node_index(nodes, &edges[i].from);
        let to = last_node_index(nodes, &edges[i].to);
        assert(edges@.take(i + 1).drop_last() =~= edges@.take(i as int));
        assert(edges@.take(i + 1).last() == edges@[i as int]);
        if from.is_some() && to.is_some() {
            n = n + 1;
        }
        i = i + 1;
    }
    assert(edges@.take(edges@.len() as int) =~= edges@);
    n
}

/// Moves the items of `v` into a vector in reverse order.
fn reversed<T>(v: Vec<T>) -> (r: Vec<T>)
    ensures
        r@ == v@.reverse(),
{
    let mut rest = v;
    let mut out: Vec<T> = Vec::new();
    let ghost orig = rest@;
    while rest.len() > 0
        invariant
            orig.len() == rest@.len() + out@.len(),
            rest@ == orig.take(rest@.len() as int),
            out@ == orig.skip(rest@.len() as int).reverse(),
        decreases rest.len(),
    {
        let ghost n = rest@.len();
        let x = rest.pop().unwrap();
        out.push(x);
        assert(rest@ =~= orig.take(n - 1));
        assert(out@ =~= orig.skip(n - 1).reverse());
    }
    assert(out@ =~= orig.reverse());
    out
}

/// The graph held by the store: every node row, then every edge row, added
/// in the order read.
pub fn graph_from_rows(nodes: Vec<Node>, edges: Vec<Edge>) -> (g: Graph)
    requires
        nodes@.len() <= u32::MAX,
        links_of(nodes@, edges@).len() <= u32::MAX,
    ensures
        g.wf(),
        g.node_seq() == nodes@,
        g.edge_seq() == edges@,
        g.links() == links_of(nodes@, edges@),
{
    let ghost ns = nodes@;
    let ghost es = edges@;
    let mut g = Graph::new();
    let mut pending = reversed(nodes);
    while pending.len() > 0
        invariant
            g.wf(),
            g.node_seq().len() + pending@.len() == ns.len(),
            ns.len() <= u32::MAX,
            g.node_seq() == ns.take(g.node_seq().len() as int),
            pending@ == ns.skip(g.node_seq().len() as int).reverse(),
            g.edge_seq() == Seq::<Edge>::empty(),
            g.links() == Seq::<(nat, nat)>::empty(),
        decreases pending.len(),
    {
        let ghost k = g.node_seq().len() as int;
        let n = pending.pop().unwrap();
        assert(n == ns[k]);
        g.add_node(n);
        assert(g.node_seq() =~= ns.take(k + 1));
        assert(pending@ =~= ns.skip(k + 1).reverse());
    }
    assert(g.node_seq() =~= ns);
    let mut pending = reversed(edges);
    while pending.len() > 0
        invariant
            g.wf(),
            g.node_seq() == ns,
            g.edge_seq().len() + pending@.len() == es.len(),
            links_of(ns, es).len() <= u32::MAX,
            g.edge_seq() == es.take(g.edge_seq().len() as int),
            pending@ == es.skip(g.edge_seq().len() as int).reverse(),
            g.links() == links_of(ns, g.edge_seq()),
        decreases pending.len(),
    {
        let ghost k = g.edge_seq().len() as int;
        let e = pending.pop().unwrap();
        assert(e == es[k]);
        proof {
            lemma_links_prefix(ns, es, k + 1);
            assert(es.take(k + 1).drop_last() =~= es.take(k));
            assert(es.take(k + 1).last() == e);
        }
        g.add_edge(e);
        assert(g.edge_seq() =~= es.take(k + 1));
        assert(g.edge_seq().drop_last() =~= es.take(k));
        assert(pending@ =~= es.skip(k + 1).reverse());
    }
    assert(g.edge_seq() =~= es);
    g
}

// ── Structural report ────────────────────────────────────────────────────────

/// Some edge starts or ends at `id`.
pub open spec fn is_endpoint(edges: Seq<Edge>, id: Seq<char>) -> bool {
    exists|i: int| 0 <= i < edges.len() && ((#[trigger] edges[i]).from@ == id || edges[i].to@ == id)
}

/// Some node has the id `id`.
pub open spec fn is_node_id(nodes: Seq<Node>, id: Seq<char>) -> bool {
    exists|i: int| 0 <= i < nodes.len() && (#[trigger] nodes[i]).id@ == id
}

/// A node that no edge touches.
pub open spec fn is_orphan(nodes: Seq<Node>, edges: Seq<Edge>, id: Seq<char>) -> bool {
    is_node_id(nodes, id) && !is_endpoint(edges, id)
}

/// An edge endpoint that is not a node of the graph: lineage into a system
/// not yet ingested.
pub open spec fn is_external(nodes: Seq<Node>, edges: Seq<Edge>, id: Seq<char>) -> bool {
    is_endpoint(edges, id) && !is_node_id(nodes, id)
}

/// The health of the graph: its size, the nodes no edge touches, the
/// endpoints that are not nodes (both sorted, without repeats), and
/// whether it has a cycle.
#[derive(Debug, Clone, PartialEq)]
pub struct InspectReport {
    pub total_nodes: usize,
    pub total_edges: usize,
    pub orphan_nodes: Vec<String>,
    pub cycle_detected: bool,
    pub external_refs: Vec<String>,
}

fn touches(edges: &[Edge], id: &String) -> (r: bool)
    ensures
        r == is_endpoint(edges@, id@),
{
    let mut i: usize = 0;
    while i < edges.len()
        invariant
            i <= edges@.len(),
            forall|j: int| 0 <= j < i ==> !((#[trigger] edges@[j]).from@ == id@ || edges@[j].to@ == id@),
        decreases edges.len() - i,
    {
        if str_eq(edges[i].from.as_str(), id.as_str()) || str_eq(edges[i].to.as_str(), id.as_str()) {
            return true;
        }
        i = i + 1;
    }
    false
}

fn has_node(nodes: &[Node], id: &String) -> (r: bool)
    ensures
        r == is_node_id(nodes@, id@),
{
    let mut i: usize = 0;
    while i < nodes.len()
        invariant
            i <= nodes@.len(),
            forall|j: int| 0 <= j < i ==> (#[trigger] nodes@[j]).id@ != id@,
        decreases nodes.len() - i,
    {
        if str_eq(nodes[i].id.as_str(), id.as_str()) {
            return true;
        }
        i = i + 1;
    }
    false
}

/// The ids of the nodes that no edge touches, sorted, each once.
pub fn orphan_ids(nodes: &[Node], edges: &[Edge]) -> (r: Vec<String>)
    ensures
        strictly_sorted(string_views(r@)),
        forall|x: Seq<char>| #[trigger] string_views(r@).contains(x) <==> is_orphan(nodes@, edges@, x),
{
    let mut out: Vec<String> = Vec::new();
    let mut i: usize = 0;
    while i < nodes.len()
        invariant
            i <= nodes@.len(),
            strictly_sorted(string_views(out@)),
            forall|x: Seq<char>|
                #[trigger] string_views(out@).contains(x) <==> (is_node_id(nodes@.take(i as int), x)
                    && !is_endpoint(edges@, x)),
        decreases nodes.len() - i,
    {
        let ghost before = string_views(out@);
        if !touches(edges, &nodes[i].id) {
            insert_sorted(&mut out, nodes[i].id.clone());
        }
        proof {
            let taken = nodes@.take(i + 1);
            assert forall|x: Seq<char>| #[trigger] string_views(out@).contains(x) <==> (is_node_id(
                taken,
                x,
            ) && !is_endpoint(edges@, x)) by {
                if is_node_id(taken, x) {
                    let j = choose|j: int| 0 <= j < taken.len() && (#[trigger] taken[j]).id@ == x;
                    if j < i {
                        assert(nodes@.take(i as int)[j].id@ == x);
                    }
                }
                if is_node_id(nodes@.take(i as int), x) {
                    let j = choose|j: int| 0 <= j < i && (#[trigger] nodes@.take(i as int)[j]).id@ == x;
                    assert(taken[j].id@ == x);
                }
                assert(taken[i as int].id@ == nodes@[i as int].id@);
            }
        }
        i = i + 1;
    }
    assert(nodes@.take(nodes@.len() as int) =~= nodes@);
    out
}

/// Adds `id` to the sorted list when it is not a node.
fn note_external(out: &mut Vec<String>, nodes: &[Node], id: &String)
    requires
        strictly_sorted(string_views(old(out)@)),
    ensures
        strictly_sorted(string_views(final(out)@)),
        forall|x: Seq<char>|
            #[trigger] string_views(final(out)@).contains(x) <==> (string_views(old(out)@).contains(x)
                || (x == id@ && !is_node_id(nodes@, x))),
{
    if !has_node(nodes, id) {
        insert_sorted(out, id.clone());
    }
}

/// The edge endpoints that are not nodes, sorted, each once.
pub fn external_ids(nodes: &[Node], edges: &[Edge]) -> (r: Vec<String>)
    ensures
        strictly_sorted(string_views(r@)),
        forall|x: Seq<char>|
            #[trigger] string_views(r@).contains(x) <==> is_external(nodes@, edges@, x),
{
    let mut out: Vec<String> = Vec::new();
    let mut i: usize = 0;
    while i < edges.len()
        invariant
            i <= edges@.len(),
            strictly_sorted(string_views(out@)),
            forall|x: Seq<char>|
                #[trigger] string_views(out@).contains(x) <==> (is_endpoint(edges@.take(i as int), x)
                    && !is_node_id(nodes@, x)),
        decreases edges.len() - i,
    {
        note_external(&mut out, nodes, &edges[i].from);
        note_external(&mut out, nodes, &edges[i].to);
        proof {
            let taken = edges@.take(i + 1);
            let prev = edges@.take(i as int);
            assert forall|x: Seq<char>| #[trigger] string_views(out@).contains(x) <==> (is_endpoint(
                taken,
                x,
            ) && !is_node_id(nodes@, x)) by {
                if is_endpoint(taken, x) {
                    let j = choose|j: int|
                        0 <= j < taken.len() && ((#[trigger] taken[j]).from@ == x || taken[j].to@ == x);
                    if j < i {
                        assert(prev[j] == taken[j]);
                    }
                }
                if is_endpoint(prev, x) {
                    let j = choose|j: int|
                        0 <= j < prev.len() && ((#[trigger] prev[j]).from@ == x || prev[j].to@ == x);
                    assert(taken[j] == prev[j]);
                }
                assert(taken[i as int] == edges@[i as int]);
            }
        }
        i = i + 1;
    }
    assert(edges@.take(edges@.len() as int) =~= edges@);
    out
}

/// The structural report of a graph.
pub fn inspect_graph(graph: &Graph) -> (r: InspectReport)
    requires
        graph.wf(),
    ensures
        r.total_nodes == graph.node_seq().len(),
        r.total_edges == graph.edge_seq().len(),
        r.cycle_detected == has_directed_cycle(graph.links()),
        strictly_sorted(string_views(r.orphan_nodes@)),
        forall|x: Seq<char>|
            #[trigger] string_views(r.orphan_nodes@).contains(x) <==> is_orphan(
                graph.node_seq(),
                graph.edge_seq(),
                x,
            ),
        strictly_sorted(string_views(r.external_refs@)),
        forall|x: Seq<char>|
            #[trigger] string_views(r.external_refs@).contains(x) <==> is_external(
                graph.node_seq(),
                graph.edge_seq(),
                x,
            ),
{
    let nodes = graph.nodes();
    let edges = graph.edges();
    InspectReport {
        total_nodes: graph.node_count(),
        total_edges: graph.edge_count(),
        orphan_nodes: orphan_ids(nodes, edges),
        cycle_detected: graph.has_cycle(),
        external_refs: external_ids(nodes, edges),
    }
}

// ── Staging rows ─────────────────────────────────────────────────────────────

/// The text of a path as the staging tables record it: `to_string_lossy`,
/// which replaces bytes that are not UTF-8.
pub uninterp spec fn lossy_path_text(p: PathBuf) -> Seq<char>;

/// `Path::to_string_lossy`, owned. Its result depends on the path alone.
#[verifier::external_body]
fn path_text(p: &PathBuf) -> (r: String)
    ensures
        r@ == lossy_path_text(*p),
{
    p.to_string_lossy().into_owned()
}

/// A node row for the staging table.
pub struct StagedNode {
    pub id: String,
    pub label: String,
    pub source_type: String,
    pub source_path: String,
}

/// An edge row for the staging table.
pub struct StagedEdge {
    pub from_id: String,
    pub to_id: String,
    pub source_path: String,
}

/// The node rows of the strands, in order: each node with the path of its
/// strand.
pub open spec fn staged_nodes_spec(strands: Seq<Strand>) -> Seq<
    (Seq<char>, Seq<char>, Seq<char>, Seq<char>),
>
    decreases strands.len(),
{
    if strands.len() == 0 {
        Seq::empty()
    } else {
        let s = strands.last();
        staged_nodes_spec(strands.drop_last()) + s.nodes@.map_values(
            |n: Node| (n.id@, n.label@, n.source_type@, lossy_path_text(s.source_path)),
        )
    }
}

/// The edge rows of the strands, in order: each edge with the path of its
/// strand.
pub open spec fn staged_edges_spec(strands: Seq<Strand>) -> Seq<(Seq<char>, Seq<char>, Seq<char>)>
    decreases strands.len(),
{
    if strands.len() == 0 {
        Seq::empty()
    } else {
        let s = strands.last();
        staged_edges_spec(strands.drop_last()) + s.edges@.map_values(
            |e: Edge| (e.from@, e.to@, lossy_path_text(s.source_path)),
        )
    }
}

pub open spec fn node_row_view(r: StagedNode) -> (Seq<char>, Seq<char>, Seq<char>, Seq<char>) {
    (r.id@, r.label@, r.source_type@, r.source_path@)
}

pub open spec fn edge_row_view(r: StagedEdge) -> (Seq<char>, Seq<char>, Seq<char>) {
    (r.from_id@, r.to_id@, r.source_path@)
}

/// The rows that staging the strands writes: every node and every edge of
/// every strand, in order, each with its strand's path.
pub fn staging_rows(strands: &[Strand]) -> (r: (Vec<StagedNode>, Vec<StagedEdge>))
    ensures
        r.0@.map_values(|x: StagedNode| node_row_view(x)) == staged_nodes_spec(strands@),
        r.1@.map_values(|x: StagedEdge| edge_row_view(x)) == staged_edges_spec(strands@),
{
    let mut nodes: Vec<StagedNode> = Vec::new();
    let mut edges: Vec<StagedEdge> = Vec::new();
    let mut k: usize = 0;
    while k < strands.len()
        invariant
            k <= strands@.len(),
            nodes@.map_values(|x: StagedNode| node_row_view(x)) == staged_nodes_spec(
                strands@.take(k as int),
            ),
            edges@.map_values(|x: StagedEdge| edge_row_view(x)) == staged_edges_spec(
                strands@.take(k as int),
            ),
        decreases strands.len() - k,
    {
        let strand = &strands[k];
        let path = path_text(&strand.source_path);
        let ghost nv0 = nodes@.map_values(|x: StagedNode| node_row_view(x));
        let ghost ev0 = edges@.map_values(|x: StagedEdge| edge_row_view(x));
        let ghost nrows = strand.nodes@.map_values(
            |n: Node| (n.id@, n.label@, n.source_type@, lossy_path_text(strand.source_path)),
        );
        let ghost erows = strand.edges@.map_values(
            |e: Edge| (e.from@, e.to@, lossy_path_text(strand.source_path)),
        );
        let mut i: usize = 0;
        while i < strand.nodes.len()
            invariant
                i <= strand.nodes@.len(),
                path@ == lossy_path_text(strand.source_path),
                nrows == strand.nodes@.map_values(
                    |n: Node| (n.id@, n.label@, n.source_type@, lossy_path_text(strand.source_path)),
                ),
                nodes@.map_values(|x: StagedNode| node_row_view(x)) == nv0 + nrows.take(i as int),
            decreases strand.nodes.len() - i,
        {
            let n = &strand.nodes[i];
            let row = StagedNode {
                id: n.id.clone(),
                label: n.label.clone(),
                source_type: n.source_type.clone(),
                source_path: path.clone(),
            };
            let ghost before = nodes@;
            nodes.push(row);
            assert(nodes@.map_values(|x: StagedNode| node_row_view(x)) =~= before.map_values(
                |x: StagedNode| node_row_view(x),
            ).push(node_row_view(row)));
            assert(nrows.take(i + 1) =~= nrows.take(i as int).push(nrows[i as int]));
            assert(nodes@.map_values(|x: StagedNode| node_row_view(x)) =~= nv0 + nrows.take(i + 1));
            i = i + 1;
        }
        let mut j: usize = 0;
        while j < strand.edges.len()
            invariant
                j <= strand.edges@.len(),
                path@ == lossy_path_text(strand.source_path),
                erows == strand.edges@.map_values(
                    |e: Edge| (e.from@, e.to@, lossy_path_text(strand.source_path)),
                ),
                edges@.map_values(|x: StagedEdge| edge_row_view(x)) == ev0 + erows.take(j as int),
            decreases strand.edges.len() - j,
        {
            let e = &strand.edges[j];
            let row = StagedEdge {
                from_id: e.from.clone(),
                to_id: e.to.clone(),
                source_path: path.clone(),
            };
            let ghost before = edges@;
            edges.push(row);
            assert(edges@.map_values(|x: StagedEdge| edge_row_view(x)) =~= before.map_values(
                |x: StagedEdge| edge_row_view(x),
            ).push(edge_row_view(row)));
            assert(erows.take(j + 1) =~= erows.take(j as int).push(erows[j as int]));
            assert(edges@.map_values(|x: StagedEdge| edge_row_view(x)) =~= ev0 + erows.take(j + 1));
            j = j + 1;
        }
        proof {
            let taken = strands@.take(k + 1);
            assert(taken.drop_last() =~= strands@.take(k as int));
            assert(taken.last() == strands@[k as int]);
            assert(nrows.take(strand.nodes@.len() as int) =~= nrows);
            assert(erows.take(strand.edges@.len() as int) =~= erows);
        }
        k = k + 1;
    }
    assert(strands@.take(strands@.len() as int) =~= strands@);
    (nodes, edges)
}

} // verus!
