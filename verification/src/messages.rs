//! What the commands tell the user once the store has done its work.
use vstd::prelude::*;
use vstd::string::*;

use crate::graph::Graph;
use crate::query::lines_text;
use crate::store::InspectReport;
use crate::strand::Strand;
use crate::text::{decimal_spec, join_spec, join_strings, push_str, string_views, unsigned_to_string};

verus! {

/// A list of ids as the report prints it: joined by commas, or `none`.
pub open spec fn id_list_spec(ids: Seq<Seq<char>>) -> Seq<char> {
    if ids.len() == 0 {
        "none"@
    } else {
        join_spec(ids, ", "@)
    }
}

/// The printed list of one id is that id; adding an id to a non-empty list
/// appends `, ` and the id: so the list names every id, in order, joined by
/// commas.
pub proof fn id_list_joins_every_id(ids: Seq<Seq<char>>, x: Seq<char>)
    ensures
        id_list_spec(seq![x]) == x,
        ids.len() > 0 ==> id_list_spec(ids.push(x)) == id_list_spec(ids) + ", "@ + x,
{
    assert(seq![x][0] == x);
    if ids.len() > 0 {
        assert(ids.push(x).drop_last() =~= ids);
    }
}

/// `needle` stands in `hay` at position `p`.
pub open spec fn occurs_at(hay: Seq<char>, needle: Seq<char>, p: int) -> bool {
    0 <= p && p + needle.len() <= hay.len() && hay.subrange(p, p + needle.len()) == needle
}

/// Each of `ids` stands somewhere in `text`.
pub open spec fn names_every_id(text: Seq<char>, ids: Seq<Seq<char>>) -> bool {
    forall|k: int| 0 <= k < ids.len() ==> #[trigger] id_listed(text, ids, k)
}

/// The `k`-th of `ids` stands somewhere in `text`.
pub open spec fn id_listed(text: Seq<char>, ids: Seq<Seq<char>>, k: int) -> bool {
    exists|p: int| #[trigger] occurs_at(text, ids[k], p)
}

/// Every id of a non-empty list appears in the printed list.
pub proof fn id_list_names_every_id(ids: Seq<Seq<char>>)
    requires
        ids.len() > 0,
    ensures
        names_every_id(id_list_spec(ids), ids),
    decreases ids.len(),
{
    if ids.len() == 1 {
        assert forall|k: int| 0 <= k < ids.len() implies #[trigger] id_listed(id_list_spec(ids), ids, k) by {
            assert(k == 0);
            assert(id_list_spec(ids) == ids[0]);
            assert(id_list_spec(ids).subrange(0, ids[k].len() as int) =~= ids[k]);
            assert(occurs_at(id_list_spec(ids), ids[k], 0));
        }
        assert(names_every_id(id_list_spec(ids), ids));
    } else {
        let prev = ids.drop_last();
        id_list_names_every_id(prev);
        let head = id_list_spec(prev);
        assert(names_every_id(head, prev));
        assert(id_list_spec(ids) == head + ", "@ + ids.last());
        assert(", "@.len() == 2) by {
            reveal_strlit(", ");
        }
        assert forall|k: int| 0 <= k < ids.len() implies #[trigger] id_listed(id_list_spec(ids), ids, k) by {
            if k < ids.len() - 1 {
                assert(prev[k] == ids[k]);
                assert(id_listed(head, prev, k));
                let p = choose|p: int| #[trigger] occurs_at(head, prev[k], p);
                assert(id_list_spec(ids).subrange(p, p + ids[k].len()) =~= head.subrange(
                    p,
                    p + prev[k].len(),
                ));
                assert(occurs_at(id_list_spec(ids), ids[k], p));
            } else {
                let p: int = head.len() as int + 2;
                assert(id_list_spec(ids).subrange(p, p + ids[k].len()) =~= ids.last());
                assert(occurs_at(id_list_spec(ids), ids[k], p));
            }
        }
        assert(names_every_id(id_list_spec(ids), ids));
    }
}

/// The lines of the inspect report: the counts, a warning when there is a
/// cycle, then the orphan nodes and the external references.
pub open spec fn inspect_lines_spec(r: InspectReport) -> Seq<Seq<char>> {
    seq!["=== saan inspect ==="@, "Nodes:  "@ + decimal_spec(r.total_nodes as nat), "Edges:  "@
        + decimal_spec(r.total_edges as nat), Seq::empty()] + (if r.cycle_detected {
        seq!["WARNING: cycle detected in graph"@]
    } else {
        Seq::empty()
    }) + seq![
        "Orphan nodes  ("@ + decimal_spec(r.orphan_nodes@.len()) + "): "@ + id_list_spec(
            string_views(r.orphan_nodes@),
        ),
        "External refs ("@ + decimal_spec(r.external_refs@.len()) + "): "@ + id_list_spec(
            string_views(r.external_refs@),
        ),
    ]
}

fn id_list(ids: &Vec<String>) -> (r: String)
    ensures
        r@ == id_list_spec(string_views(ids@)),
{
    if ids.len() == 0 {
        let mut out = String::new();
        push_str(&mut out, "none");
        assert(out@ =~= "none"@);
        out
    } else {
        join_strings(ids.as_slice(), ", ")
    }
}

fn push_line(out: &mut String, line: &str, lines: Ghost<Seq<Seq<char>>>) -> (next: Ghost<
    Seq<Seq<char>>,
>)
    requires
        old(out)@ == lines_text(lines@),
    ensures
        next@ == lines@.push(line@),
        final(out)@ == lines_text(next@),
{
    push_str(out, line);
    push_str(out, "\n");
    proof {
        reveal_strlit("\n");
    }
    assert(lines@.push(line@).drop_last() =~= lines@);
    assert(out@ =~= lines_text(lines@.push(line@)));
    Ghost(lines@.push(line@))
}

fn labelled_count(label: &str, n: usize) -> (r: String)
    ensures
        r@ == label@ + decimal_spec(n as nat),
{
    let mut out = String::new();
    push_str(&mut out, label);
    let d = unsigned_to_string(n as u128);
    push_str(&mut out, d.as_str());
    assert(out@ =~= label@ + decimal_spec(n as nat));
    out
}

fn id_list_line(label: &str, ids: &Vec<String>) -> (r: String)
    ensures
        r@ == label@ + decimal_spec(ids@.len()) + "): "@ + id_list_spec(string_views(ids@)),
{
    let mut out = labelled_count(label, ids.len());
    push_str(&mut out, "): ");
    let list = id_list(ids);
    push_str(&mut out, list.as_str());
    out
}

/// The text the inspect command prints for a report.
pub fn inspect_summary(report: &InspectReport) -> (r: String)
    ensures
        r@ == lines_text(inspect_lines_spec(*report)),
{
    let mut out = String::new();
    let mut lines: Ghost<Seq<Seq<char>>> = Ghost(Seq::empty());
    assert(out@ =~= lines_text(lines@));
    lines = push_line(&mut out, "=== saan inspect ===", lines);
    let nodes = labelled_count("Nodes:  ", report.total_nodes);
    lines = push_line(&mut out, nodes.as_str(), lines);
    let edges = labelled_count("Edges:  ", report.total_edges);
    lines = push_line(&mut out, edges.as_str(), lines);
    lines = push_line(&mut out, "", lines);
    proof {
        reveal_strlit("");
        assert(""@ =~= Seq::<char>::empty());
    }
    let ghost head = seq!["=== saan inspect ==="@, "Nodes:  "@ + decimal_spec(report.total_nodes as nat), "Edges:  "@
        + decimal_spec(report.total_edges as nat), Seq::<char>::empty()];
    assert(lines@ =~= head);
    let ghost warn: Seq<Seq<char>> = if report.cycle_detected {
        seq!["WARNING: cycle detected in graph"@]
    } else {
        Seq::empty()
    };
    if report.cycle_detected {
        lines = push_line(&mut out, "WARNING: cycle detected in graph", lines);
    }
    assert(lines@ =~= head + warn);
    let orphans = id_list_line("Orphan nodes  (", &report.orphan_nodes);
    lines = push_line(&mut out, orphans.as_str(), lines);
    let externals = id_list_line("External refs (", &report.external_refs);
    lines = push_line(&mut out, externals.as_str(), lines);
    assert(lines@ =~= inspect_lines_spec(*report));
    out
}

/// The number of nodes in the strands.
pub open spec fn total_nodes_spec(strands: Seq<Strand>) -> nat
    decreases strands.len(),
{
    if strands.len() == 0 {
        0
    } else {
        total_nodes_spec(strands.drop_last()) + strands.last().nodes@.len()
    }
}

/// The number of edges in the strands.
pub open spec fn total_edges_spec(strands: Seq<Strand>) -> nat
    decreases strands.len(),
{
    if strands.len() == 0 {
        0
    } else {
        total_edges_spec(strands.drop_last()) + strands.last().edges@.len()
    }
}

/// The counts add up over files: the strands of two batches together hold
/// the nodes and edges of both, and one strand holds its own.
pub proof fn staged_counts_add_up(a: Seq<Strand>, b: Seq<Strand>, t: Strand)
    ensures
        total_nodes_spec(seq![t]) == t.nodes@.len(),
        total_edges_spec(seq![t]) == t.edges@.len(),
        total_nodes_spec(a + b) == total_nodes_spec(a) + total_nodes_spec(b),
        total_edges_spec(a + b) == total_edges_spec(a) + total_edges_spec(b),
    decreases b.len(),
{
    assert(seq![t].drop_last() =~= Seq::<Strand>::empty());
    assert(seq![t].last() == t);
    assert(total_nodes_spec(Seq::<Strand>::empty()) == 0);
    assert(total_edges_spec(Seq::<Strand>::empty()) == 0);
    if b.len() == 0 {
        assert(a + b =~= a);
    } else {
        staged_counts_add_up(a, b.drop_last(), t);
        assert((a + b).drop_last() =~= a + b.drop_last());
        assert((a + b).last() == b.last());
    }
}

/// The line the prepare command prints: how many files, nodes and edges
/// were staged.
pub fn staged_summary(strands: &[Strand]) -> (r: String)
    ensures
        r@ == "Staged: "@ + decimal_spec(strands@.len()) + " file(s), "@ + decimal_spec(
            total_nodes_spec(strands@),
        ) + " node(s), "@ + decimal_spec(total_edges_spec(strands@)) + " edge(s)"@,
{
    let mut nodes: u128 = 0;
    let mut edges: u128 = 0;
    let mut i: usize = 0;
    while i < strands.len()
        invariant
            i <= strands@.len(),
            nodes == total_nodes_spec(strands@.take(i as int)),
            edges == total_edges_spec(strands@.take(i as int)),
            nodes <= i * (usize::MAX as nat),
            edges <= i * (usize::MAX as nat),
        decreases strands.len() - i,
    {
        let n = strands[i].nodes.len();
        let m = strands[i].edges.len();
        proof {
            assert(strands@.take(i + 1).drop_last() =~= strands@.take(i as int));
            assert(i * (usize::MAX as nat) + usize::MAX as nat == (i + 1) * (usize::MAX as nat))
                by (nonlinear_arith);
            assert((i + 1) * (usize::MAX as nat) <= (usize::MAX as nat) * (usize::MAX as nat))
                by (nonlinear_arith)
                requires
                    i + 1 <= usize::MAX,
            ;
            assert((usize::MAX as nat) * (usize::MAX as nat) < u128::MAX) by (nonlinear_arith)
                requires
                    usize::MAX <= u64::MAX,
            ;
        }
        nodes = nodes + n as u128;
        edges = edges + m as u128;
        i = i + 1;
    }
    assert(strands@.take(strands@.len() as int) =~= strands@);
    let mut out = String::new();
    push_str(&mut out, "Staged: ");
    let f = unsigned_to_string(strands.len() as u128);
    push_str(&mut out, f.as_str());
    push_str(&mut out, " file(s), ");
    let n = unsigned_to_string(nodes);
    push_str(&mut out, n.as_str());
    push_str(&mut out, " node(s), ");
    let e = unsigned_to_string(edges);
    push_str(&mut out, e.as_str());
    push_str(&mut out, " edge(s)");
    out
}

/// The line the apply command prints about the graph now in the store.
pub fn applied_summary(graph: &Graph) -> (r: String)
    ensures
        r@ == "Applied staging: "@ + decimal_spec(graph.node_seq().len()) + " node(s), "@
            + decimal_spec(graph.edge_seq().len()) + " edge(s) in graph"@,
{
    let mut out = labelled_count("Applied staging: ", graph.node_count());
    push_str(&mut out, " node(s), ");
    let e = unsigned_to_string(graph.edge_count() as u128);
    push_str(&mut out, e.as_str());
    push_str(&mut out, " edge(s) in graph");
    out
}

/// The line the interlace command prints.
pub fn interlaced_summary(added: usize) -> (r: String)
    ensures
        r@ == "Interlaced: "@ + decimal_spec(added as nat) + " computed edge(s) added to staging."@,
{
    let mut out = labelled_count("Interlaced: ", added);
    push_str(&mut out, " computed edge(s) added to staging.");
    out
}

} // verus!
