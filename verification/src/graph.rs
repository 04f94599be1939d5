//! Lineage graph: nodes, edges and the directed graph that cycle detection
//! runs on.
use petgraph::stable_graph::StableGraph;
use petgraph::Directed;
use vstd::prelude::*;

use crate::text::string_of;

verus! {

#[verifier::external_type_specification]
#[verifier::external_body]
#[verifier::reject_recursive_types(N)]
#[verifier::reject_recursive_types(E)]
#[verifier::reject_recursive_types(Ty)]
#[verifier::reject_recursive_types(Ix)]
pub struct ExStableGraph<N, E, Ty, Ix>(StableGraph<N, E, Ty, Ix>);

#[verifier::external_type_specification]
#[verifier::external_body]
pub struct ExDirected(Directed);

/// The node weights of a petgraph `StableGraph`, in index order, over its
/// occupied slots.
pub uninterp spec fn digraph_weights(g: StableGraph<String, (), Directed, u32>) -> Seq<Seq<char>>;

/// The `StableGraph` has no vacant node slot: no node was ever removed, so
/// its node indices are `0..node_count`.
pub uninterp spec fn digraph_dense(g: StableGraph<String, (), Directed, u32>) -> bool;

/// The directed links of a petgraph `StableGraph`, in insertion order, as
/// pairs of node indices.
pub uninterp spec fn digraph_links(g: StableGraph<String, (), Directed, u32>) -> Seq<(nat, nat)>;

/// A walk: at least two nodes, each consecutive pair joined by a link.
pub open spec fn is_walk(links: Seq<(nat, nat)>, w: Seq<nat>) -> bool {
    &&& w.len() >= 2
    &&& forall|i: int| 0 <= i < w.len() - 1 ==> links.contains((#[trigger] w[i], w[i + 1]))
}

/// The links hold a directed cycle: a walk that ends where it starts
/// (a self-loop counts).
pub open spec fn has_directed_cycle(links: Seq<(nat, nat)>) -> bool {
    exists|w: Seq<nat>| is_walk(links, w) && w[0] == w.last()
}

/// `StableGraph::new`: an empty graph, with no vacant slot.
#[verifier::external_body]
fn digraph_new() -> (g: StableGraph<String, (), Directed, u32>)
    ensures
        digraph_dense(g),
        digraph_weights(g) == Seq::<Seq<char>>::empty(),
        digraph_links(g) == Seq::<(nat, nat)>::empty(),
{
    StableGraph::new()
}

/// `StableGraph::add_node` on a graph with no vacant slot: the new node
/// takes the next index and the graph stays without vacant slots. It panics once the `u32` index space is
/// exhausted, which `requires` rules out.
#[verifier::external_body]
fn digraph_add_node(g: &mut StableGraph<String, (), Directed, u32>, weight: String) -> (ix: usize)
    requires
        digraph_dense(*old(g)),
        digraph_weights(*old(g)).len() < u32::MAX,
    ensures
        digraph_dense(*final(g)),
        ix == digraph_weights(*old(g)).len(),
        digraph_weights(*final(g)) == digraph_weights(*old(g)).push(weight@),
        digraph_links(*final(g)) == digraph_links(*old(g)),
{
    g.add_node(weight).index()
}

/// `StableGraph::add_edge` between two existing nodes of a graph with no
/// vacant slot: records the link; no slot becomes vacant.
/// It panics on an index that is not a node and once the `u32` edge index
/// space is exhausted, which `requires` rules out.
#[verifier::external_body]
fn digraph_add_edge(g: &mut StableGraph<String, (), Directed, u32>, a: usize, b: usize)
    requires
        digraph_dense(*old(g)),
        a < digraph_weights(*old(g)).len(),
        b < digraph_weights(*old(g)).len(),
        digraph_links(*old(g)).len() < u32::MAX,
    ensures
        digraph_dense(*final(g)),
        digraph_weights(*final(g)) == digraph_weights(*old(g)),
        digraph_links(*final(g)) == digraph_links(*old(g)).push((a as nat, b as nat)),
{
    g.add_edge(petgraph::graph::NodeIndex::new(a), petgraph::graph::NodeIndex::new(b), ());
}

/// `petgraph::algo::is_cyclic_directed`: true exactly when the graph holds a
/// directed cycle, self-loops included. Its depth-first search is recursive,
/// so a very deep graph may exhaust the stack; no clause speaks of that.
#[verifier::external_body]
fn digraph_is_cyclic(g: &StableGraph<String, (), Directed, u32>) -> (r: bool)
    ensures
        r == has_directed_cycle(digraph_links(*g)),
{
    petgraph::algo::is_cyclic_directed(g)
}

/// A data asset: a table, view or other node of the lineage graph.
#[derive(Debug, Clone)]
pub struct Node {
    pub id: String,
    pub label: String,
    pub source_type: String,
}

impl Node {
    pub fn new(id: &str, label: &str, source_type: &str) -> (r: Self)
        ensures
            r.id@ == id@,
            r.label@ == label@,
            r.source_type@ == source_type@,
    {
        Node { id: string_of(id), label: string_of(label), source_type: string_of(source_type) }
    }

    /// A field-by-field copy.
    pub fn duplicate(&self) -> (r: Self)
        ensures
            r.id@ == self.id@,
            r.label@ == self.label@,
            r.source_type@ == self.source_type@,
    {
        Node { id: self.id.clone(), label: self.label.clone(), source_type: self.source_type.clone() }
    }
}

impl PartialEq for Node {
    fn eq(&self, other: &Self) -> (r: bool) {
        self.id == other.id && self.label == other.label && self.source_type == other.source_type
    }
}

impl vstd::std_specs::cmp::PartialEqSpecImpl for Node {
    open spec fn obeys_eq_spec() -> bool {
        true
    }

    open spec fn eq_spec(&self, other: &Self) -> bool {
        self.id@ == other.id@ && self.label@ == other.label@ && self.source_type@ == other.source_type@
    }
}

/// A lineage link: data flows from `from` into `to`.
#[derive(Debug, Clone)]
pub struct Edge {
    pub from: String,
    pub to: String,
}

impl Edge {
    pub fn new(from: &str, to: &str) -> (r: Self)
        ensures
            r.from@ == from@,
            r.to@ == to@,
    {
        Edge { from: string_of(from), to: string_of(to) }
    }

    /// A field-by-field copy.
    pub fn duplicate(&self) -> (r: Self)
        ensures
            r.from@ == self.from@,
            r.to@ == self.to@,
    {
        Edge { from: self.from.clone(), to: self.to.clone() }
    }
}

impl PartialEq for Edge {
    fn eq(&self, other: &Self) -> (r: bool) {
        self.from == other.from && self.to == other.to
    }
}

impl vstd::std_specs::cmp::PartialEqSpecImpl for Edge {
    open spec fn obeys_eq_spec() -> bool {
        true
    }

    open spec fn eq_spec(&self, other: &Self) -> bool {
        self.from@ == other.from@ && self.to@ == other.to@
    }
}

/// The ids of the nodes, in order.
pub open spec fn node_ids(nodes: Seq<Node>) -> Seq<Seq<char>> {
    nodes.map_values(|n: Node| n.id@)
}

/// The position of the last node with this id: later nodes with the same id
/// shadow earlier ones.
pub open spec fn last_index_of(nodes: Seq<Node>, id: Seq<char>) -> Option<nat>
    decreases nodes.len(),
{
    if nodes.len() == 0 {
        None
    } else if nodes.last().id@ == id {
        Some((nodes.len() - 1) as nat)
    } else {
        last_index_of(nodes.drop_last(), id)
    }
}

/// The link that adding `e` to a graph with `nodes` records, if both of its
/// endpoints are already nodes.
pub open spec fn link_for(nodes: Seq<Node>, e: Edge) -> Option<(nat, nat)> {
    match (last_index_of(nodes, e.from@), last_index_of(nodes, e.to@)) {
        (Some(a), Some(b)) => Some((a, b)),
        _ => None,
    }
}

/// The position of the last node with this id.
pub(crate) fn last_node_index(nodes: &[Node], id: &String) -> (r: Option<usize>)
    ensures
        r matches Some(i) ==> last_index_of(nodes@, id@) == Some(i as nat),
        r is None ==> last_index_of(nodes@, id@) is None,
{
    let mut i = nodes.len();
    assert(nodes@.take(i as int) =~= nodes@);
    while i > 0
        invariant
            i <= nodes@.len(),
            last_index_of(nodes@, id@) == last_index_of(nodes@.take(i as int), id@),
        decreases i,
    {
        let ghost pre = nodes@.take(i as int);
        assert(pre.drop_last() =~= nodes@.take(i - 1));
        if nodes[i - 1].id == *id {
            return Some(i - 1);
        }
        i = i - 1;
    }
    None
}

pub(crate) proof fn lemma_last_index_bound(nodes: Seq<Node>, id: Seq<char>)
    ensures
        last_index_of(nodes, id) matches Some(i) ==> i < nodes.len() && nodes[i as int].id@ == id,
        last_index_of(nodes, id) is None ==> forall|j: int| 0 <= j < nodes.len() ==> nodes[j].id@ != id,
    decreases nodes.len(),
{
    if nodes.len() > 0 {
        lemma_last_index_bound(nodes.drop_last(), id);
        if nodes.last().id@ != id {
            assert forall|j: int| 0 <= j < nodes.len() - 1 implies nodes[j] == nodes.drop_last()[j] by {}
        }
    }
}

/// The lineage graph: its nodes and edges as added, plus the directed graph
/// (petgraph) that holds a link for every edge whose endpoints were nodes
/// when it was added.
pub struct Graph {
    nodes: Vec<Node>,
    edges: Vec<Edge>,
    inner: StableGraph<String, (), Directed, u32>,
}

impl Graph {
    /// The nodes, in the order they were added.
    pub closed spec fn node_seq(&self) -> Seq<Node> {
        self.nodes@
    }

    /// The edges, in the order they were added.
    pub closed spec fn edge_seq(&self) -> Seq<Edge> {
        self.edges@
    }

    /// The links that cycle detection sees, as pairs of node positions.
    pub closed spec fn links(&self) -> Seq<(nat, nat)> {
        digraph_links(self.inner)
    }

    /// The graph's internal invariant.
    pub closed spec fn wf(&self) -> bool {
        &&& digraph_dense(self.inner)
        &&& digraph_weights(self.inner) == node_ids(self.nodes@)
        &&& digraph_links(self.inner).len() <= self.edges@.len()
        &&& forall|i: int|
            0 <= i < digraph_links(self.inner).len() ==> (#[trigger] digraph_links(self.inner)[i]).0
                < self.nodes@.len() && digraph_links(self.inner)[i].1 < self.nodes@.len()
    }

    /// Every link that cycle detection sees joins two nodes of the graph,
    /// and there is at most one link per edge.
    pub proof fn links_join_nodes(&self)
        requires
            self.wf(),
        ensures
            forall|i: int|
                0 <= i < self.links().len() ==> (#[trigger] self.links()[i]).0 < self.node_seq().len()
                    && self.links()[i].1 < self.node_seq().len(),
            self.links().len() <= self.edge_seq().len(),
    {
    }

    pub fn new() -> (g: Self)
        ensures
            g.wf(),
            g.node_seq() == Seq::<Node>::empty(),
            g.edge_seq() == Seq::<Edge>::empty(),
            g.links() == Seq::<(nat, nat)>::empty(),
    {
        let g = Graph { nodes: Vec::new(), edges: Vec::new(), inner: digraph_new() };
        assert(node_ids(g.nodes@) =~= Seq::<Seq<char>>::empty());
        g
    }

    /// Adds a node and returns its position. Cycles are unaffected.
    pub fn add_node(&mut self, node: Node) -> (ix: usize)
        requires
            old(self).wf(),
            old(self).node_seq().len() < u32::MAX,
        ensures
            final(self).wf(),
            ix == old(self).node_seq().len(),
            final(self).node_seq() == old(self).node_seq().push(node),
            final(self).edge_seq() == old(self).edge_seq(),
            final(self).links() == old(self).links(),
    {
        let weight = node.id.clone();
        digraph_add_node(&mut self.inner, weight);
        self.nodes.push(node);
        assert(node_ids(self.nodes@) =~= node_ids(old(self).nodes@).push(node.id@));
        self.nodes.len() - 1
    }

    /// Adds an edge. When both endpoints are already nodes (the last node of
    /// each id), the link between them becomes visible to cycle detection.
    pub fn add_edge(&mut self, edge: Edge)
        requires
            old(self).wf(),
            link_for(old(self).node_seq(), edge) is Some ==> old(self).links().len() < u32::MAX,
        ensures
            final(self).wf(),
            final(self).node_seq() == old(self).node_seq(),
            final(self).edge_seq() == old(self).edge_seq().push(edge),
            final(self).links() == (match link_for(old(self).node_seq(), edge) {
                Some(l) => old(self).links().push(l),
                None => old(self).links(),
            }),
    {
        let from = last_node_index(self.nodes.as_slice(), &edge.from);
        let to = last_node_index(self.nodes.as_slice(), &edge.to);
        proof {
            lemma_last_index_bound(self.nodes@, edge.from@);
            lemma_last_index_bound(self.nodes@, edge.to@);
        }
        match (from, to) {
            (Some(a), Some(b)) => {
                digraph_add_edge(&mut self.inner, a, b);
            },
            _ => {},
        }
        self.edges.push(edge);
    }

    /// True exactly when the links hold a directed cycle.
    pub fn has_cycle(&self) -> (r: bool)
        requires
            self.wf(),
        ensures
            r == has_directed_cycle(self.links()),
    {
        digraph_is_cyclic(&self.inner)
    }

    pub fn node_count(&self) -> (n: usize)
        ensures
            n == self.node_seq().len(),
    {
        self.nodes.len()
    }

    pub fn edge_count(&self) -> (n: usize)
        ensures
            n == self.edge_seq().len(),
    {
        self.edges.len()
    }

    pub fn nodes(&self) -> (r: &[Node])
        ensures
            r@ == self.node_seq(),
    {
        self.nodes.as_slice()
    }

    pub fn edges(&self) -> (r: &[Edge])
        ensures
            r@ == self.edge_seq(),
    {
        self.edges.as_slice()
    }
}

impl Default for Graph {
    fn default() -> (g: Self)
        ensures
            g.wf(),
            g.node_seq() == Seq::<Node>::empty(),
            g.edge_seq() == Seq::<Edge>::empty(),
            g.links() == Seq::<(nat, nat)>::empty(),
    {
        Graph::new()
    }
}

// ── Laws of cycle detection ──────────────────────────────────────────────────

/// A graph without links has no cycle.
pub proof fn no_links_no_cycle(links: Seq<(nat, nat)>)
    requires
        links.len() == 0,
    ensures
        !has_directed_cycle(links),
{
    if has_directed_cycle(links) {
        let w = choose|w: Seq<nat>| is_walk(links, w) && w[0] == w.last();
        assert(links.contains((w[0], w[1])));
    }
}

/// Adding a link never removes a cycle.
pub proof fn cycle_survives_added_link(links: Seq<(nat, nat)>, extra: (nat, nat))
    requires
        has_directed_cycle(links),
    ensures
        has_directed_cycle(links.push(extra)),
{
    let w = choose|w: Seq<nat>| is_walk(links, w) && w[0] == w.last();
    let longer = links.push(extra);
    assert forall|i: int| 0 <= i < w.len() - 1 implies longer.contains((#[trigger] w[i], w[i + 1])) by {
        lemma_push_keeps_contains(links, extra, (w[i], w[i + 1]));
    }
    assert(is_walk(longer, w));
}

proof fn lemma_push_keeps_contains<T>(s: Seq<T>, extra: T, x: T)
    requires
        s.contains(x),
    ensures
        s.push(extra).contains(x),
{
    let k = choose|k: int| 0 <= k < s.len() && s[k] == x;
    assert(s.push(extra)[k] == x);
}

/// A link from a node to itself is a cycle.
pub proof fn self_link_is_cycle(links: Seq<(nat, nat)>, v: nat)
    requires
        links.contains((v, v)),
    ensures
        has_directed_cycle(links),
{
    let w = seq![v, v];
    assert(w[0] == v && w[1] == v);
    assert(is_walk(links, w));
    assert(w[0] == w.last());
}

proof fn lemma_forward_walk_increases(links: Seq<(nat, nat)>, w: Seq<nat>, k: int)
    requires
        forall|i: int| 0 <= i < links.len() ==> (#[trigger] links[i]).0 < links[i].1,
        is_walk(links, w),
        1 <= k < w.len(),
    ensures
        w[0] < w[k],
    decreases k,
{
    assert(links.contains((w[k - 1], w[k])));
    let j = choose|j: int| 0 <= j < links.len() && links[j] == (w[k - 1], w[k]);
    assert(links[j].0 < links[j].1);
    if k > 1 {
        lemma_forward_walk_increases(links, w, k - 1);
    }
}

/// When every link points from an earlier node to a later one, as in a
/// pipeline whose stages are added in order, there is no cycle.
pub proof fn forward_links_are_acyclic(links: Seq<(nat, nat)>)
    requires
        forall|i: int| 0 <= i < links.len() ==> (#[trigger] links[i]).0 < links[i].1,
    ensures
        !has_directed_cycle(links),
{
    if has_directed_cycle(links) {
        let w = choose|w: Seq<nat>| is_walk(links, w) && w[0] == w.last();
        lemma_forward_walk_increases(links, w, w.len() - 1);
    }
}

} // verus!
