//! Interlacing: the transitive links implied by the staged edges.
use vstd::prelude::*;

use crate::graph::Edge;

verus! {

/// The edges as pairs of ids.
pub open spec fn edge_pairs(edges: Seq<Edge>) -> Seq<(Seq<char>, Seq<char>)> {
    edges.map_values(|e: Edge| (e.from@, e.to@))
}

/// `(a, b)` is one of the edges.
pub open spec fn has_edge(pairs: Seq<(Seq<char>, Seq<char>)>, a: Seq<char>, b: Seq<char>) -> bool {
    pairs.contains((a, b))
}

/// A path: at least two ids, each consecutive pair an edge.
pub open spec fn is_path(pairs: Seq<(Seq<char>, Seq<char>)>, p: Seq<Seq<char>>) -> bool {
    &&& p.len() >= 2
    &&& forall|i: int| 0 <= i < p.len() - 1 ==> #[trigger] has_edge(pairs, p[i], p[i + 1])
}

/// `t` can be reached from `s` by following one or more edges.
pub open spec fn reaches(pairs: Seq<(Seq<char>, Seq<char>)>, s: Seq<char>, t: Seq<char>) -> bool {
    exists|p: Seq<Seq<char>>| #[trigger] is_path(pairs, p) && p[0] == s && p.last() == t
}

/// An edge that interlacing adds: `t` is reachable from `s`, it is not `s`
/// itself, and the edge is not already staged.
pub open spec fn transitive_gap(pairs: Seq<(Seq<char>, Seq<char>)>, s: Seq<char>, t: Seq<char>) -> bool {
    &&& reaches(pairs, s, t)
    &&& s != t
    &&& !pairs.contains((s, t))
}

/// Every pair `(s, t)` with `t` reachable from `s`, `t` not `s`, and no
/// edge `s -> t` among `pairs`.
pub open spec fn transitive_gaps(pairs: Seq<(Seq<char>, Seq<char>)>) -> Set<(Seq<char>, Seq<char>)> {
    Set::new(|p: (Seq<char>, Seq<char>)| transitive_gap(pairs, p.0, p.1))
}

/// The number of `true` entries.
pub open spec fn count_true(s: Seq<bool>) -> nat
    decreases s.len(),
{
    if s.len() == 0 {
        0
    } else {
        count_true(s.drop_last()) + (if s.last() {
            1nat
        } else {
            0nat
        })
    }
}

proof fn lemma_count_le_len(s: Seq<bool>)
    ensures
        count_true(s) <= s.len(),
    decreases s.len(),
{
    if s.len() > 0 {
        lemma_count_le_len(s.drop_last());
    }
}

proof fn lemma_count_push(s: Seq<bool>, b: bool)
    ensures
        count_true(s.push(b)) == count_true(s) + (if b {
            1nat
        } else {
            0nat
        }),
{
    assert(s.push(b).drop_last() =~= s);
}

proof fn lemma_count_set(s: Seq<bool>, k: int)
    requires
        0 <= k < s.len(),
        !s[k],
    ensures
        count_true(s.update(k, true)) == count_true(s) + 1,
    decreases s.len(),
{
    if k < s.len() - 1 {
        assert(s.update(k, true).drop_last() =~= s.drop_last().update(k, true));
        lemma_count_set(s.drop_last(), k);
    } else {
        assert(s.update(k, true).drop_last() =~= s.drop_last());
    }
}

proof fn lemma_has_edge_at(pairs: Seq<(Seq<char>, Seq<char>)>, k: int)
    requires
        0 <= k < pairs.len(),
    ensures
        has_edge(pairs, pairs[k].0, pairs[k].1),
{
    assert(pairs[k] == (pairs[k].0, pairs[k].1));
}

proof fn lemma_reach_edge(pairs: Seq<(Seq<char>, Seq<char>)>, k: int)
    requires
        0 <= k < pairs.len(),
    ensures
        reaches(pairs, pairs[k].0, pairs[k].1),
{
    let p = seq![pairs[k].0, pairs[k].1];
    lemma_has_edge_at(pairs, k);
    assert(has_edge(pairs, p[0], p[1]));
    assert(is_path(pairs, p));
    assert(p.last() == pairs[k].1);
}

proof fn lemma_path_push(pairs: Seq<(Seq<char>, Seq<char>)>, p: Seq<Seq<char>>, t: Seq<char>)
    requires
        is_path(pairs, p),
        has_edge(pairs, p.last(), t),
    ensures
        is_path(pairs, p.push(t)),
{
    let q = p.push(t);
    assert forall|i: int| 0 <= i < q.len() - 1 implies #[trigger] has_edge(pairs, q[i], q[i + 1]) by {
        if i < p.len() - 1 {
            assert(q[i] == p[i] && q[i + 1] == p[i + 1]);
            assert(has_edge(pairs, p[i], p[i + 1]));
        } else {
            assert(q[i] == p.last() && q[i + 1] == t);
        }
    }
}

proof fn lemma_reach_extend(pairs: Seq<(Seq<char>, Seq<char>)>, s: Seq<char>, k: int)
    requires
        0 <= k < pairs.len(),
        reaches(pairs, s, pairs[k].0),
    ensures
        reaches(pairs, s, pairs[k].1),
{
    let p = choose|p: Seq<Seq<char>>| #[trigger] is_path(pairs, p) && p[0] == s && p.last() == pairs[k].0;
    lemma_has_edge_at(pairs, k);
    lemma_path_push(pairs, p, pairs[k].1);
    let q = p.push(pairs[k].1);
    assert(q[0] == s && q.last() == pairs[k].1);
}

proof fn lemma_path_prefix(pairs: Seq<(Seq<char>, Seq<char>)>, p: Seq<Seq<char>>, i: int)
    requires
        is_path(pairs, p),
        2 <= i <= p.len(),
    ensures
        is_path(pairs, p.take(i)),
{
    let t = p.take(i);
    assert forall|j: int| 0 <= j < t.len() - 1 implies #[trigger] has_edge(pairs, t[j], t[j + 1]) by {
        assert(t[j] == p[j] && t[j + 1] == p[j + 1]);
        assert(has_edge(pairs, p[j], p[j + 1]));
    }
}

/// The marks computed for a start id: an edge is marked when it leaves the
/// start, or leaves an id reachable from the start.
pub open spec fn mark_spec(pairs: Seq<(Seq<char>, Seq<char>)>, s: Seq<char>, k: int) -> bool {
    pairs[k].0 == s || reaches(pairs, s, pairs[k].0)
}

/// Edge `b` starts where edge `a` ends.
pub open spec fn follows(pairs: Seq<(Seq<char>, Seq<char>)>, a: int, b: int) -> bool {
    pairs[b].0 == pairs[a].1
}

/// If marks contain every edge leaving `s` and are closed under following a
/// marked edge, then the last edge of any path from `s` is marked.
proof fn lemma_marks_complete(
    pairs: Seq<(Seq<char>, Seq<char>)>,
    marked: Seq<bool>,
    s: Seq<char>,
    p: Seq<Seq<char>>,
) -> (k: int)
    requires
        marked.len() == pairs.len(),
        forall|j: int| 0 <= j < pairs.len() && pairs[j].0 == s ==> #[trigger] marked[j],
        forall|a: int, b: int|
            0 <= a < pairs.len() && 0 <= b < pairs.len() && marked[a] && #[trigger] follows(
                pairs,
                a,
                b,
            ) ==> marked[b],
        is_path(pairs, p),
        p[0] == s,
    ensures
        0 <= k < pairs.len(),
        marked[k],
        pairs[k] == (p[p.len() - 2], p.last()),
    decreases p.len(),
{
    let last = p.len() - 2;
    assert(has_edge(pairs, p[last], p[last + 1]));
    let k = choose|k: int| 0 <= k < pairs.len() && pairs[k] == (p[p.len() - 2], p[p.len() - 1]);
    if p.len() == 2 {
        assert(marked[k]);
    } else {
        let pre = p.take(p.len() - 1);
        lemma_path_prefix(pairs, p, p.len() - 1);
        let k2 = lemma_marks_complete(pairs, marked, s, pre);
        assert(follows(pairs, k2, k));
    }
    k
}

/// The queue holds exactly the marked edges, each once; `pos` says where.
spec fn queue_tracks(marked: Seq<bool>, queue: Seq<usize>, pos: Seq<int>) -> bool {
    &&& pos.len() == marked.len()
    &&& queue.len() == count_true(marked)
    &&& forall|w: int|
        0 <= w < queue.len() ==> (#[trigger] queue[w] as int) < marked.len() && marked[queue[w] as int]
    &&& forall|j: int|
        0 <= j < marked.len() && #[trigger] marked[j] ==> 0 <= pos[j] < queue.len() && queue[pos[j]]
            == j
}

proof fn lemma_track_push(marked: Seq<bool>, queue: Seq<usize>, pos: Seq<int>, b: bool)
    requires
        queue_tracks(marked, queue, pos),
        marked.len() < usize::MAX,
    ensures
        queue_tracks(
            marked.push(b),
            if b {
                queue.push(marked.len() as usize)
            } else {
                queue
            },
            pos.push(queue.len() as int),
        ),
{
    lemma_count_push(marked, b);
    let m2 = marked.push(b);
    let q2 = if b {
        queue.push(marked.len() as usize)
    } else {
        queue
    };
    let p2 = pos.push(queue.len() as int);
    assert forall|w: int| 0 <= w < q2.len() implies (#[trigger] q2[w] as int) < m2.len()
        && m2[q2[w] as int] by {
        if w < queue.len() {
            assert(q2[w] == queue[w]);
        }
    }
    assert forall|j: int| 0 <= j < m2.len() && #[trigger] m2[j] implies 0 <= p2[j] < q2.len()
        && q2[p2[j]] == j by {
        if j < marked.len() {
            assert(m2[j] == marked[j]);
            assert(q2[p2[j]] == queue[pos[j]]);
        }
    }
}

proof fn lemma_track_mark(marked: Seq<bool>, queue: Seq<usize>, pos: Seq<int>, k: int)
    requires
        queue_tracks(marked, queue, pos),
        0 <= k < marked.len(),
        marked.len() <= usize::MAX,
        !marked[k],
    ensures
        queue_tracks(marked.update(k, true), queue.push(k as usize), pos.update(k, queue.len() as int)),
{
    lemma_count_set(marked, k);
    let m2 = marked.update(k, true);
    let q2 = queue.push(k as usize);
    let p2 = pos.update(k, queue.len() as int);
    assert forall|w: int| 0 <= w < q2.len() implies (#[trigger] q2[w] as int) < m2.len()
        && m2[q2[w] as int] by {
        if w < queue.len() {
            assert(q2[w] == queue[w]);
            assert(marked[queue[w] as int]);
        } else {
            assert(q2[w] == k as usize);
        }
    }
    assert forall|j: int| 0 <= j < m2.len() && #[trigger] m2[j] implies 0 <= p2[j] < q2.len()
        && q2[p2[j]] == j by {
        if j != k {
            assert(marked[j]);
            assert(q2[p2[j]] == queue[pos[j]]);
        } else {
            assert(p2[j] == queue.len());
            assert(q2[queue.len() as int] == k as usize);
        }
    }
}

/// Every edge whose source is `s`, marked; the queue holds them in order.
fn initial_marks(edges: &[Edge], s: &String) -> (r: (Vec<bool>, Vec<usize>, Ghost<Seq<int>>))
    ensures
        r.0@.len() == edges@.len(),
        queue_tracks(r.0@, r.1@, r.2@),
        forall|j: int| 0 <= j < edges@.len() ==> (r.0@[j] <==> edge_pairs(edges@)[j].0 == s@),
{
    let n = edges.len();
    let mut marked: Vec<bool> = Vec::new();
    let mut queue: Vec<usize> = Vec::new();
    let ghost mut pos: Seq<int> = Seq::empty();
    let mut k: usize = 0;
    while k < n
        invariant
            n == edges@.len(),
            k <= n,
            marked@.len() == k,
            queue_tracks(marked@, queue@, pos),
            forall|j: int| 0 <= j < k ==> (marked@[j] <==> edge_pairs(edges@)[j].0 == s@),
        decreases n - k,
    {
        let hit = edges[k].from == *s;
        proof {
            lemma_track_push(marked@, queue@, pos, hit);
            pos = pos.push(queue@.len() as int);
        }
        if hit {
            marked.push(true);
            queue.push(k);
        } else {
            marked.push(false);
        }
        k = k + 1;
    }
    (marked, queue, Ghost(pos))
}

/// Marks every unmarked edge that starts where edge `cur` ends.
fn mark_successors(
    edges: &[Edge],
    marked: &mut Vec<bool>,
    queue: &mut Vec<usize>,
    Ghost(pos0): Ghost<Seq<int>>,
    cur: usize,
    Ghost(s): Ghost<Seq<char>>,
) -> (pos: Ghost<Seq<int>>)
    requires
        old(marked)@.len() == edges@.len(),
        cur < edges@.len(),
        queue_tracks(old(marked)@, old(queue)@, pos0),
        reaches(edge_pairs(edges@), s, edge_pairs(edges@)[cur as int].1),
        forall|j: int|
            0 <= j < edges@.len() && #[trigger] old(marked)@[j] ==> mark_spec(edge_pairs(edges@), s, j),
    ensures
        final(marked)@.len() == edges@.len(),
        queue_tracks(final(marked)@, final(queue)@, pos@),
        final(queue)@.len() >= old(queue)@.len(),
        forall|w: int| 0 <= w < old(queue)@.len() ==> final(queue)@[w] == old(queue)@[w],
        forall|j: int| 0 <= j < edges@.len() && old(marked)@[j] ==> #[trigger] final(marked)@[j],
        forall|j: int|
            0 <= j < edges@.len() && #[trigger] final(marked)@[j] ==> mark_spec(edge_pairs(edges@), s, j),
        forall|j: int|
            0 <= j < edges@.len() && #[trigger] follows(edge_pairs(edges@), cur as int, j)
                ==> final(marked)@[j],
{
    let ghost pairs = edge_pairs(edges@);
    let n = edges.len();
    let ghost mut pos = pos0;
    let mut k: usize = 0;
    while k < n
        invariant
            n == edges@.len(),
            pairs == edge_pairs(edges@),
            cur < n,
            k <= n,
            marked@.len() == n,
            queue_tracks(marked@, queue@, pos),
            reaches(pairs, s, pairs[cur as int].1),
            queue@.len() >= old(queue)@.len(),
            forall|w: int| 0 <= w < old(queue)@.len() ==> queue@[w] == old(queue)@[w],
            forall|j: int| 0 <= j < n && old(marked)@[j] ==> #[trigger] marked@[j],
            forall|j: int| 0 <= j < n && #[trigger] marked@[j] ==> mark_spec(pairs, s, j),
            forall|j: int| 0 <= j < k && #[trigger] follows(pairs, cur as int, j) ==> marked@[j],
        decreases n - k,
    {
        if !marked[k] && edges[k].from == edges[cur].to {
            proof {
                lemma_track_mark(marked@, queue@, pos, k as int);
                pos = pos.update(k as int, queue@.len() as int);
                assert(mark_spec(pairs, s, k as int));
            }
            marked.set(k, true);
            queue.push(k);
        }
        k = k + 1;
    }
    Ghost(pos)
}

/// Marks every edge that leaves `s` or leaves an id reachable from `s`, by a
/// breadth-first walk over the edges.
pub fn reachable_marks(edges: &[Edge], s: &String) -> (marked: Vec<bool>)
    ensures
        marked@.len() == edges@.len(),
        forall|k: int|
            0 <= k < edges@.len() ==> (marked@[k] <==> mark_spec(edge_pairs(edges@), s@, k)),
{
    let n = edges.len();
    let ghost pairs = edge_pairs(edges@);
    let (mut marked, mut queue, Ghost(mut pos)) = initial_marks(edges, s);
    let mut q: usize = 0;
    while q < queue.len()
        invariant
            n == edges@.len(),
            pairs == edge_pairs(edges@),
            marked@.len() == n,
            q <= queue@.len(),
            queue_tracks(marked@, queue@, pos),
            forall|j: int| 0 <= j < n && pairs[j].0 == s@ ==> #[trigger] marked@[j],
            forall|j: int| 0 <= j < n && #[trigger] marked@[j] ==> mark_spec(pairs, s@, j),
            forall|w: int, j: int|
                0 <= w < q && 0 <= j < n && #[trigger] follows(pairs, queue@[w] as int, j)
                    ==> marked@[j],
        decreases n - q,
    {
        proof {
            lemma_count_le_len(marked@);
        }
        let cur = queue[q];
        proof {
            if pairs[cur as int].0 == s@ {
                lemma_reach_edge(pairs, cur as int);
            } else {
                lemma_reach_extend(pairs, s@, cur as int);
            }
        }
        let ghost old_queue = queue@;
        let Ghost(p2) = mark_successors(edges, &mut marked, &mut queue, Ghost(pos), cur, Ghost(s@));
        proof {
            pos = p2;
        }
        assert forall|w: int, j: int|
            0 <= w < q + 1 && 0 <= j < n && #[trigger] follows(pairs, queue@[w] as int, j)
                implies marked@[j] by {
            assert(queue@[w] == old_queue[w]);
        }
        q = q + 1;
    }
    proof {
        assert forall|k: int| 0 <= k < n implies (marked@[k] <==> mark_spec(pairs, s@, k)) by {
            if mark_spec(pairs, s@, k) && pairs[k].0 != s@ {
                let p = choose|p: Seq<Seq<char>>|
                    #[trigger] is_path(pairs, p) && p[0] == s@ && p.last() == pairs[k].0;
                assert forall|a: int, b: int|
                    0 <= a < pairs.len() && 0 <= b < pairs.len() && marked@[a] && #[trigger] follows(
                        pairs,
                        a,
                        b,
                    ) implies marked@[b] by {
                    let w = pos[a];
                    assert(follows(pairs, queue@[w] as int, b));
                }
                let k2 = lemma_marks_complete(pairs, marked@, s@, p);
                let w = pos[k2];
                assert(follows(pairs, queue@[w] as int, k));
            }
        }
    }
    marked
}


proof fn lemma_mark_reaches(pairs: Seq<(Seq<char>, Seq<char>)>, s: Seq<char>, k: int)
    requires
        0 <= k < pairs.len(),
        mark_spec(pairs, s, k),
    ensures
        reaches(pairs, s, pairs[k].1),
{
    if pairs[k].0 == s {
        lemma_reach_edge(pairs, k);
    } else {
        lemma_reach_extend(pairs, s, k);
    }
}

/// Whatever is reachable from `s` is the end of a marked edge.
proof fn lemma_reach_last_edge(pairs: Seq<(Seq<char>, Seq<char>)>, s: Seq<char>, b: Seq<char>) -> (k: int)
    requires
        reaches(pairs, s, b),
    ensures
        0 <= k < pairs.len(),
        mark_spec(pairs, s, k),
        pairs[k].1 == b,
{
    let p = choose|p: Seq<Seq<char>>| #[trigger] is_path(pairs, p) && p[0] == s && p.last() == b;
    let last = p.len() - 2;
    assert(has_edge(pairs, p[last], p[last + 1]));
    let k = choose|k: int| 0 <= k < pairs.len() && pairs[k] == (p[last], p[last + 1]);
    if p.len() > 2 {
        lemma_path_prefix(pairs, p, p.len() - 1);
        let pre = p.take(p.len() - 1);
        assert(pre[0] == s && pre.last() == pairs[k].0);
        assert(is_path(pairs, pre));
    }
    k
}

/// Some edge before position `i` starts at `a`.
pub open spec fn source_before(pairs: Seq<(Seq<char>, Seq<char>)>, a: Seq<char>, i: int) -> bool {
    exists|j: int| 0 <= j < i && #[trigger] pairs[j].0 == a
}

/// Some marked edge before position `k` ends at `b`.
spec fn target_before(pairs: Seq<(Seq<char>, Seq<char>)>, marks: Seq<bool>, b: Seq<char>, k: int) -> bool {
    exists|j: int| 0 <= j < k && marks[j] && #[trigger] pairs[j].1 == b
}

/// Whether `(a, b)` is among the edges.
pub fn contains_pair(list: &[Edge], a: &String, b: &String) -> (r: bool)
    ensures
        r == edge_pairs(list@).contains((a@, b@)),
{
    let ghost pairs = edge_pairs(list@);
    let mut i: usize = 0;
    while i < list.len()
        invariant
            i <= list@.len(),
            pairs == edge_pairs(list@),
            forall|j: int| 0 <= j < i ==> pairs[j] != (a@, b@),
        decreases list.len() - i,
    {
        if list[i].from == *a && list[i].to == *b {
            assert(pairs[i as int] == (a@, b@));
            return true;
        }
        i = i + 1;
    }
    false
}

fn is_first_source(edges: &[Edge], i: usize) -> (r: bool)
    requires
        i < edges@.len(),
    ensures
        r == !source_before(edge_pairs(edges@), edges@[i as int].from@, i as int),
{
    let ghost pairs = edge_pairs(edges@);
    let mut j: usize = 0;
    while j < i
        invariant
            i < edges@.len(),
            j <= i,
            pairs == edge_pairs(edges@),
            forall|t: int| 0 <= t < j ==> pairs[t].0 != edges@[i as int].from@,
        decreases i - j,
    {
        if edges[j].from == edges[i].from {
            assert(pairs[j as int].0 == edges@[i as int].from@);
            return false;
        }
        j = j + 1;
    }
    true
}

/// The edges that interlacing adds to the staged `edges`: for every source
/// id `s` and every id `t` reachable from it, `s -> t` unless `t` is `s`
/// or the edge is already staged. Each comes once, so there are as many as
/// such pairs; they are grouped by source in the order the sources first
/// appear.
pub fn interlace_edges(edges: &[Edge]) -> (added: Vec<Edge>)
    ensures
        edge_pairs(added@).no_duplicates(),
        forall|a: Seq<char>, b: Seq<char>|
            edge_pairs(added@).contains((a, b)) <==> transitive_gap(edge_pairs(edges@), a, b),
        transitive_gaps(edge_pairs(edges@)).finite(),
        added@.len() == transitive_gaps(edge_pairs(edges@)).len(),
{
    let n = edges.len();
    let ghost pairs = edge_pairs(edges@);
    let mut out: Vec<Edge> = Vec::new();
    let mut i: usize = 0;
    while i < n
        invariant
            n == edges@.len(),
            pairs == edge_pairs(edges@),
            i <= n,
            edge_pairs(out@).no_duplicates(),
            forall|a: Seq<char>, b: Seq<char>|
                #[trigger] edge_pairs(out@).contains((a, b)) <==> (transitive_gap(pairs, a, b)
                    && source_before(pairs, a, i as int)),
        decreases n - i,
    {
        let s = &edges[i].from;
        let ghost sv = s@;
        assert(pairs[i as int].0 == sv);
        if is_first_source(edges, i) {
            let marks = reachable_marks(edges, s);
            let mut k: usize = 0;
            while k < n
                invariant
                    n == edges@.len(),
                    pairs == edge_pairs(edges@),
                    i < n,
                    k <= n,
                    sv == s@,
                    pairs[i as int].0 == sv,
                    !source_before(pairs, sv, i as int),
                    marks@.len() == n,
                    forall|j: int| 0 <= j < n ==> (marks@[j] <==> mark_spec(pairs, sv, j)),
                    edge_pairs(out@).no_duplicates(),
                    forall|a: Seq<char>, b: Seq<char>|
                        #[trigger] edge_pairs(out@).contains((a, b)) <==> ((transitive_gap(
                            pairs,
                            a,
                            b,
                        ) && source_before(pairs, a, i as int)) || (a == sv && transitive_gap(
                            pairs,
                            a,
                            b,
                        ) && target_before(pairs, marks@, b, k as int))),
                decreases n - k,
            {
                if marks[k] {
                    let t = &edges[k].to;
                    proof {
                        lemma_mark_reaches(pairs, sv, k as int);
                    }
                    if *t != *s && !contains_pair(edges, s, t) && !contains_pair(&out, s, t) {
                        let ghost before = edge_pairs(out@);
                        out.push(Edge { from: s.clone(), to: t.clone() });
                        assert(edge_pairs(out@) =~= before.push((sv, t@)));
                        assert forall|a: Seq<char>, b: Seq<char>|
                            #[trigger] edge_pairs(out@).contains((a, b)) <==> ((transitive_gap(
                                pairs,
                                a,
                                b,
                            ) && source_before(pairs, a, i as int)) || (a == sv && transitive_gap(
                                pairs,
                                a,
                                b,
                            ) && target_before(pairs, marks@, b, k + 1))) by {
                            if edge_pairs(out@).contains((a, b)) && !before.contains((a, b)) {
                                assert((a, b) == (sv, t@));
                                assert(pairs[k as int].1 == b);
                            }
                            if before.contains((a, b)) {
                                let w = choose|w: int| 0 <= w < before.len() && before[w] == (a, b);
                                assert(edge_pairs(out@)[w] == (a, b));
                            }
                            if a == sv && target_before(pairs, marks@, b, k + 1)
                                && !target_before(pairs, marks@, b, k as int) {
                                assert(b == t@);
                                assert(edge_pairs(out@)[before.len() as int] == (a, b));
                            }
                        }
                    } else {
                        assert forall|a: Seq<char>, b: Seq<char>|
                            #[trigger] edge_pairs(out@).contains((a, b)) <==> ((transitive_gap(
                                pairs,
                                a,
                                b,
                            ) && source_before(pairs, a, i as int)) || (a == sv && transitive_gap(
                                pairs,
                                a,
                                b,
                            ) && target_before(pairs, marks@, b, k + 1))) by {
                            if a == sv && target_before(pairs, marks@, b, k + 1)
                                && !target_before(pairs, marks@, b, k as int) {
                                assert(b == t@);
                            }
                        }
                    }
                } else {
                    assert forall|a: Seq<char>, b: Seq<char>|
                        #[trigger] edge_pairs(out@).contains((a, b)) <==> ((transitive_gap(
                            pairs,
                            a,
                            b,
                        ) && source_before(pairs, a, i as int)) || (a == sv && transitive_gap(
                            pairs,
                            a,
                            b,
                        ) && target_before(pairs, marks@, b, k + 1))) by {
                        if target_before(pairs, marks@, b, k + 1) {
                            let j = choose|j: int|
                                0 <= j < k + 1 && marks@[j] && #[trigger] pairs[j].1 == b;
                            assert(j != k);
                        }
                    }
                }
                k = k + 1;
            }
            assert forall|a: Seq<char>, b: Seq<char>|
                #[trigger] edge_pairs(out@).contains((a, b)) <==> (transitive_gap(pairs, a, b)
                    && source_before(pairs, a, i + 1)) by {
                if a == sv && transitive_gap(pairs, a, b) {
                    let j = lemma_reach_last_edge(pairs, sv, b);
                    assert(marks@[j]);
                    assert(target_before(pairs, marks@, b, n as int));
                    assert(source_before(pairs, a, i + 1));
                }
                if source_before(pairs, a, i + 1) && !source_before(pairs, a, i as int) {
                    let j = choose|j: int| 0 <= j < i + 1 && #[trigger] pairs[j].0 == a;
                    assert(j == i);
                }
                if source_before(pairs, a, i as int) {
                    let j = choose|j: int| 0 <= j < i && #[trigger] pairs[j].0 == a;
                    assert(source_before(pairs, a, i + 1));
                }
            }
        } else {
            assert forall|a: Seq<char>, b: Seq<char>|
                #[trigger] edge_pairs(out@).contains((a, b)) <==> (transitive_gap(pairs, a, b)
                    && source_before(pairs, a, i + 1)) by {
                if source_before(pairs, a, i + 1) && !source_before(pairs, a, i as int) {
                    let j = choose|j: int| 0 <= j < i + 1 && #[trigger] pairs[j].0 == a;
                    assert(j == i);
                }
                if source_before(pairs, a, i as int) {
                    let j = choose|j: int| 0 <= j < i && #[trigger] pairs[j].0 == a;
                    assert(source_before(pairs, a, i + 1));
                }
            }
        }
        i = i + 1;
    }
    assert forall|a: Seq<char>, b: Seq<char>| #[trigger]
        transitive_gap(pairs, a, b) implies source_before(pairs, a, n as int) by {
        let p = choose|p: Seq<Seq<char>>| #[trigger] is_path(pairs, p) && p[0] == a && p.last() == b;
        let z: int = 0;
        assert(has_edge(pairs, p[z], p[z + 1]));
        let j = choose|j: int| 0 <= j < pairs.len() && pairs[j] == (p[0], p[1]);
        assert(pairs[j].0 == a);
    }
    proof {
        let ep = edge_pairs(out@);
        ep.unique_seq_to_set();
        vstd::seq_lib::seq_to_set_is_finite(ep);
        assert(ep.to_set() =~= transitive_gaps(pairs));
    }
    out
}


// ── Laws ─────────────────────────────────────────────────────────────────────

proof fn lemma_reach_trans(
    pairs: Seq<(Seq<char>, Seq<char>)>,
    a: Seq<char>,
    b: Seq<char>,
    c: Seq<char>,
)
    requires
        reaches(pairs, a, b),
        reaches(pairs, b, c),
    ensures
        reaches(pairs, a, c),
{
    let p1 = choose|p: Seq<Seq<char>>| #[trigger] is_path(pairs, p) && p[0] == a && p.last() == b;
    let p2 = choose|p: Seq<Seq<char>>| #[trigger] is_path(pairs, p) && p[0] == b && p.last() == c;
    let q = p1 + p2.drop_first();
    assert forall|i: int| 0 <= i < q.len() - 1 implies #[trigger] has_edge(pairs, q[i], q[i + 1]) by {
        if i < p1.len() - 1 {
            assert(q[i] == p1[i] && q[i + 1] == p1[i + 1]);
            assert(has_edge(pairs, p1[i], p1[i + 1]));
        } else if i == p1.len() - 1 {
            let z: int = 0;
            assert(q[i] == p2[z] && q[i + 1] == p2[z + 1]);
            assert(has_edge(pairs, p2[z], p2[z + 1]));
        } else {
            let j = i - p1.len() + 1;
            assert(q[i] == p2[j] && q[i + 1] == p2[j + 1]);
            assert(has_edge(pairs, p2[j], p2[j + 1]));
        }
    }
    assert(is_path(pairs, q));
    assert(q[0] == a && q.last() == c);
}

proof fn lemma_contains_in_sum<T>(s1: Seq<T>, s2: Seq<T>, x: T)
    ensures
        (s1 + s2).contains(x) <==> (s1.contains(x) || s2.contains(x)),
{
    if (s1 + s2).contains(x) {
        let k = choose|k: int| 0 <= k < (s1 + s2).len() && (s1 + s2)[k] == x;
        if k < s1.len() {
            assert(s1[k] == x);
        } else {
            assert(s2[k - s1.len()] == x);
        }
    }
    if s1.contains(x) {
        let k = choose|k: int| 0 <= k < s1.len() && s1[k] == x;
        assert((s1 + s2)[k] == x);
    }
    if s2.contains(x) {
        let k = choose|k: int| 0 <= k < s2.len() && s2[k] == x;
        assert((s1 + s2)[k + s1.len()] == x);
    }
}

proof fn lemma_reach_single(pairs: Seq<(Seq<char>, Seq<char>)>, a: Seq<char>, b: Seq<char>)
    requires
        has_edge(pairs, a, b),
    ensures
        reaches(pairs, a, b),
{
    let p = seq![a, b];
    let z: int = 0;
    assert(p[z] == a && p[z + 1] == b);
    assert(is_path(pairs, p));
    assert(p.last() == b);
}

proof fn lemma_reach_through_added(
    pairs: Seq<(Seq<char>, Seq<char>)>,
    added: Seq<(Seq<char>, Seq<char>)>,
    p: Seq<Seq<char>>,
)
    requires
        forall|a: Seq<char>, b: Seq<char>|
            #[trigger] added.contains((a, b)) ==> transitive_gap(pairs, a, b),
        is_path(pairs + added, p),
    ensures
        reaches(pairs, p[0], p.last()),
    decreases p.len(),
{
    let all = pairs + added;
    let last = p.len() - 2;
    assert(has_edge(all, p[last], p[last + 1]));
    lemma_contains_in_sum(pairs, added, (p[last], p[last + 1]));
    if pairs.contains((p[last], p[last + 1])) {
        lemma_reach_single(pairs, p[last], p[last + 1]);
    } else {
        assert(added.contains((p[last], p[last + 1])));
    }
    if p.len() > 2 {
        lemma_path_prefix(all, p, p.len() - 1);
        let pre = p.take(p.len() - 1);
        lemma_reach_through_added(pairs, added, pre);
        assert(pre[0] == p[0] && pre.last() == p[last]);
        lemma_reach_trans(pairs, p[0], p[last], p.last());
    }
}

/// Interlacing is idempotent: once the edges it adds are staged, interlacing
/// again finds nothing more to add.
pub proof fn interlacing_is_idempotent(
    pairs: Seq<(Seq<char>, Seq<char>)>,
    added: Seq<(Seq<char>, Seq<char>)>,
)
    requires
        forall|a: Seq<char>, b: Seq<char>|
            #[trigger] added.contains((a, b)) <==> transitive_gap(pairs, a, b),
    ensures
        forall|a: Seq<char>, b: Seq<char>| !#[trigger] transitive_gap(pairs + added, a, b),
{
    assert forall|a: Seq<char>, b: Seq<char>| !#[trigger] transitive_gap(pairs + added, a, b) by {
        if transitive_gap(pairs + added, a, b) {
            let p = choose|p: Seq<Seq<char>>|
                #[trigger] is_path(pairs + added, p) && p[0] == a && p.last() == b;
            lemma_reach_through_added(pairs, added, p);
            lemma_contains_in_sum(pairs, added, (a, b));
            if !pairs.contains((a, b)) {
                assert(added.contains((a, b)));
            }
        }
    }
}

/// Interlacing only connects ids that the staged edges already connect:
/// the reachability it sees is unchanged by staging what it adds.
pub proof fn interlacing_preserves_reachability(
    pairs: Seq<(Seq<char>, Seq<char>)>,
    added: Seq<(Seq<char>, Seq<char>)>,
    a: Seq<char>,
    b: Seq<char>,
)
    requires
        forall|x: Seq<char>, y: Seq<char>|
            #[trigger] added.contains((x, y)) <==> transitive_gap(pairs, x, y),
    ensures
        reaches(pairs + added, a, b) <==> reaches(pairs, a, b),
{
    if reaches(pairs + added, a, b) {
        let p = choose|p: Seq<Seq<char>>|
            #[trigger] is_path(pairs + added, p) && p[0] == a && p.last() == b;
        lemma_reach_through_added(pairs, added, p);
    }
    if reaches(pairs, a, b) {
        let p = choose|p: Seq<Seq<char>>| #[trigger] is_path(pairs, p) && p[0] == a && p.last() == b;
        assert forall|i: int| 0 <= i < p.len() - 1 implies #[trigger] has_edge(
            pairs + added,
            p[i],
            p[i + 1],
        ) by {
            assert(has_edge(pairs, p[i], p[i + 1]));
            lemma_contains_in_sum(pairs, added, (p[i], p[i + 1]));
        }
        assert(is_path(pairs + added, p));
    }
}

} // verus!
