//! Dirty-flag propagation.
use crate::graph::{
    edge_between, edges_within, graph_edges, graph_neighbors, graph_node_count, is_path,
    lemma_out_targets_contains, out_targets, path_step, reaches, EdgeDirection,
};
use crate::node::{Node, NodeView};
use petgraph::Graph;
use std::collections::VecDeque;
use vstd::prelude::*;

verus! {

/// The dirty flag of every node.
pub open spec fn dirty_flags<V, F>(nodes: Seq<NodeView<V, F>>) -> Seq<bool> {
    Seq::new(nodes.len(), |j: int| nodes[j].dirty)
}

/// `v` with its dirty flag set to `d`.
pub open spec fn with_dirty<V, F>(v: NodeView<V, F>, d: bool) -> NodeView<V, F> {
    NodeView { dirty: d, ..v }
}

/// The views of a sequence of nodes.
pub(crate) open spec fn node_views<V, F>(nodes: Seq<Node<V, F>>) -> Seq<NodeView<V, F>> {
    Seq::new(nodes.len(), |j: int| nodes[j].view())
}

/// Every edge leaving `j` ends at a node flagged in `flags`.
pub open spec fn closed_at(edges: Seq<(usize, usize)>, flags: Seq<bool>, j: int) -> bool {
    forall|e: int| 0 <= e < edges.len() && edges[e].0 == j ==> #[trigger] flags[edges[e].1 as int]
}

/// The dirty flags after marking `start` and every node reachable from it.
pub open spec fn propagated(edges: Seq<(usize, usize)>, dirty: Seq<bool>, start: usize) -> Seq<bool> {
    Seq::new(dirty.len(), |j: int| dirty[j] || reaches(edges, start, j as usize))
}

/// A walk from a visited node stays inside a set of visited nodes that is closed
/// under edges.
proof fn lemma_closed_reach(
    edges: Seq<(usize, usize)>,
    flags: Seq<bool>,
    reached: Set<int>,
    start: usize,
    p: Seq<usize>,
)
    requires
        is_path(edges, p),
        p[0] == start,
        reached.contains(start as int),
        edges_within(edges, flags.len()),
        forall|j: int| reached.contains(j) ==> #[trigger] closed_at(edges, flags, j),
        forall|j: int| 0 <= j < flags.len() ==> flags[j] == reached.contains(j),
    ensures
        reached.contains(p.last() as int),
    decreases p.len(),
{
    if p.len() > 1 {
        let q = p.drop_last();
        assert forall|i: int| 0 <= i < q.len() - 1 implies #[trigger] path_step(edges, q, i) by {
            assert(path_step(edges, p, i));
        }
        lemma_closed_reach(edges, flags, reached, start, q);
        let a = p[p.len() - 2];
        let b = p.last();
        assert(path_step(edges, p, p.len() - 2));
        let e = choose|e: int| 0 <= e < edges.len() && edges[e].0 == a && edges[e].1 == b;
        assert(closed_at(edges, flags, a as int));
        assert(flags[edges[e].1 as int]);
    }
}

/// A finite set of integers below `n` has at most `n` elements.
proof fn lemma_int_range_len(s: Set<int>, n: int)
    requires
        s.finite(),
        0 <= n,
        forall|j: int| #[trigger] s.contains(j) ==> 0 <= j < n,
    ensures
        s.len() <= n,
{
    vstd::set_lib::lemma_int_range(0, n);
    vstd::set_lib::lemma_len_subset(s, vstd::set_lib::set_int_range(0, n));
}

/// BFS from `start` through outgoing edges, marking `start` and every reachable
/// node dirty. A node is marked visited when it is queued, so each node enters
/// the queue at most once; nodes that were already dirty are walked through too.
pub(crate) fn propagate_dirty<V, F>(graph: &Graph<(), ()>, nodes: &mut Vec<Node<V, F>>, start: usize)
    requires
        start < old(nodes).len(),
        graph_node_count(*graph) == old(nodes).len(),
        edges_within(graph_edges(*graph), old(nodes).len() as nat),
    ensures
        final(nodes).len() == old(nodes).len(),
        forall|j: int|
            0 <= j < old(nodes).len() ==> #[trigger] final(nodes)@[j].view() == with_dirty(
                old(nodes)@[j].view(),
                propagated(graph_edges(*graph), dirty_flags(node_views(old(nodes)@)), start)[j],
            ),
{
    let ghost edges = graph_edges(*graph);
    let ghost d0 = dirty_flags(node_views(old(nodes)@));
    let n = nodes.len();
    let mut visited: Vec<bool> = Vec::new();
    while visited.len() < n
        invariant
            visited@.len() <= n,
            forall|j: int| 0 <= j < visited@.len() ==> !visited@[j],
        decreases n - visited@.len(),
    {
        visited.push(false);
    }
    visited.set(start, true);
    nodes[start].dirty = true;
    let mut queue: VecDeque<usize> = VecDeque::new();
    queue.push_back(start);
    let ghost mut reached: Set<int> = Set::empty().insert(start as int);
    proof {
        let p = seq![start];
        assert(is_path(edges, p));
        assert(reaches(edges, start, start));
        lemma_int_range_len(reached, n as int);
        assert(queue@[0] == start);
    }
    while queue.len() > 0
        invariant
            nodes.len() == n,
            n == old(nodes).len(),
            start < n,
            graph_node_count(*graph) == n,
            edges == graph_edges(*graph),
            edges_within(edges, n as nat),
            d0 == dirty_flags(node_views(old(nodes)@)),
            visited@.len() == n,
            forall|j: int|
                0 <= j < n ==> #[trigger] nodes@[j].view() == with_dirty(
                    old(nodes)@[j].view(),
                    nodes@[j].dirty,
                ),
            forall|j: int| 0 <= j < n ==> #[trigger] nodes@[j].dirty == (d0[j] || reached.contains(j)),
            forall|j: int| 0 <= j < n ==> #[trigger] visited@[j] == reached.contains(j),
            reached.finite(),
            reached.len() <= n,
            reached.contains(start as int),
            forall|j: int| #[trigger]
                reached.contains(j) ==> 0 <= j < n && reaches(edges, start, j as usize),
            forall|k: int| 0 <= k < queue@.len() ==> reached.contains(#[trigger] queue@[k] as int),
            forall|j: int|
                reached.contains(j) && !queue@.contains(j as usize) ==> #[trigger] closed_at(edges, visited@, j),
        decreases n - reached.len(), queue@.len(),
    {
        let ghost queue_full = queue@;
        let idx = queue.pop_front().unwrap();
        let ghost qlen0 = queue@.len();
        assert(reached.contains(idx as int)) by {
            assert(queue_full[0] == idx);
        }
        proof {
            assert forall|j: int|
                reached.contains(j) && j != idx && !queue@.contains(j as usize) implies #[trigger] closed_at(
                    edges,
                    visited@,
                    j,
                ) by {
                if queue_full.contains(j as usize) {
                    let i = choose|i: int| 0 <= i < queue_full.len() && queue_full[i] == j as usize;
                    assert(i != 0);
                    assert(queue@[i - 1] == j as usize);
                }
            }
            assert forall|i: int| 0 <= i < queue@.len() implies reached.contains(#[trigger] queue@[i] as int) by {
                assert(queue@[i] == queue_full[i + 1]);
            }
        }
        let nbrs = graph_neighbors(graph, idx, EdgeDirection::Outgoing);
        proof {
            broadcast use vstd::seq_lib::group_to_multiset_ensures;
            assert forall|k: int| 0 <= k < nbrs@.len() implies edge_between(edges, idx as int, #[trigger] nbrs@[k] as int) by {
                assert(nbrs@.contains(nbrs@[k]));
                assert(nbrs@.to_multiset().count(nbrs@[k]) > 0);
                assert(out_targets(edges, idx).contains(nbrs@[k]));
                lemma_out_targets_contains(edges, idx, nbrs@[k]);
            }
        }
        let ghost reached_before = reached;
        let mut k: usize = 0;
        while k < nbrs.len()
            invariant
                nodes.len() == n,
                n == old(nodes).len(),
                start < n,
                idx < n,
                reached_before.contains(idx as int),
                edges == graph_edges(*graph),
                edges_within(edges, n as nat),
                d0 == dirty_flags(node_views(old(nodes)@)),
                visited@.len() == n,
                k <= nbrs@.len(),
                forall|i: int| 0 <= i < nbrs@.len() ==> edge_between(edges, idx as int, #[trigger] nbrs@[i] as int),
                forall|i: int| 0 <= i < k ==> visited@[#[trigger] nbrs@[i] as int],
                forall|j: int|
                    0 <= j < n ==> #[trigger] nodes@[j].view() == with_dirty(
                        old(nodes)@[j].view(),
                        nodes@[j].dirty,
                    ),
                forall|j: int| 0 <= j < n ==> #[trigger] nodes@[j].dirty == (d0[j] || reached.contains(j)),
                forall|j: int| 0 <= j < n ==> #[trigger] visited@[j] == reached.contains(j),
                reached.finite(),
                reached.len() <= n,
                reached_before.subset_of(reached),
                reached.contains(start as int),
                forall|j: int| #[trigger]
                    reached.contains(j) ==> 0 <= j < n && reaches(edges, start, j as usize),
                forall|i: int| 0 <= i < queue@.len() ==> reached.contains(#[trigger] queue@[i] as int),
                forall|j: int|
                    reached.contains(j) && j != idx && !queue@.contains(j as usize) ==> #[trigger] closed_at(
                        edges,
                        visited@,
                        j,
                    ),
                reached.len() >= reached_before.len(),
                reached.len() > reached_before.len() || queue@.len() == qlen0,
            decreases nbrs@.len() - k,
        {
            let next = nbrs[k];
            proof {
                let e = choose|e: int| 0 <= e < edges.len() && edges[e].0 == idx && edges[e].1 == next;
                assert(edges[e].1 < n);
            }
            if !visited[next] {
                let ghost before = nodes@;
                let ghost visited_before = visited@;
                let ghost queue_before = queue@;
                visited.set(next, true);
                nodes[next].dirty = true;
                queue.push_back(next);
                proof {
                    assert(!reached.contains(next as int));
                    assert forall|j: int| 0 <= j < n implies #[trigger] nodes@[j].view() == with_dirty(
                        old(nodes)@[j].view(),
                        nodes@[j].dirty,
                    ) by {
                        if j != next {
                            assert(nodes@[j] == before[j]);
                        } else {
                            assert(before[j].view() == with_dirty(old(nodes)@[j].view(), before[j].dirty));
                        }
                    }
                    // `next` extends a walk to `idx`.
                    let p = choose|p: Seq<usize>| #[trigger] is_path(edges, p) && p[0] == start && p.last() == idx;
                    let q = p.push(next);
                    assert(edge_between(edges, idx as int, nbrs@[k as int] as int));
                    assert(queue@[queue@.len() - 1] == next);
                    assert forall|i: int| 0 <= i < q.len() - 1 implies #[trigger] path_step(edges, q, i) by {
                        if i < p.len() - 1 {
                            assert(path_step(edges, p, i));
                        }
                    }
                    assert(q[0] == start);
                    assert(is_path(edges, q));
                    assert(reaches(edges, start, next));
                    reached = reached.insert(next as int);
                    lemma_int_range_len(reached, n as int);
                    assert forall|j: int|
                        reached.contains(j) && j != idx && !queue@.contains(j as usize) implies #[trigger] closed_at(
                            edges,
                            visited@,
                            j,
                        ) by {
                        assert(j != next);
                        assert(!queue_before.contains(j as usize)) by {
                            if queue_before.contains(j as usize) {
                                let i = choose|i: int| 0 <= i < queue_before.len() && queue_before[i] == j as usize;
                                assert(queue@[i] == j as usize);
                            }
                        }
                        assert(closed_at(edges, visited_before, j));
                        assert forall|e: int| 0 <= e < edges.len() && edges[e].0 == j implies #[trigger] visited@[edges[e].1 as int] by {
                            assert(visited_before[edges[e].1 as int]);
                        }
                    }
                    assert forall|i: int| 0 <= i < queue@.len() implies reached.contains(#[trigger] queue@[i] as int) by {
                        if i < queue_before.len() {
                            assert(queue@[i] == queue_before[i]);
                        }
                    }
                }
            }
            k = k + 1;
        }
        proof {
            assert(closed_at(edges, visited@, idx as int)) by {
                broadcast use vstd::seq_lib::group_to_multiset_ensures;
                assert forall|e: int| 0 <= e < edges.len() && edges[e].0 == idx implies #[trigger] visited@[edges[e].1 as int] by {
                    let w = edges[e].1;
                    assert(edge_between(edges, idx as int, w as int));
                    lemma_out_targets_contains(edges, idx, w);
                    assert(out_targets(edges, idx).to_multiset().count(w) > 0);
                    assert(nbrs@.contains(w));
                    let i = choose|i: int| 0 <= i < nbrs@.len() && nbrs@[i] == w;
                    assert(visited@[nbrs@[i] as int]);
                }
            }
        }
    }
    proof {
        assert forall|j: int| 0 <= j < n implies #[trigger] nodes@[j].view() == with_dirty(
            old(nodes)@[j].view(),
            propagated(edges, d0, start)[j],
        ) by {
            if reaches(edges, start, j as usize) {
                let p = choose|p: Seq<usize>| #[trigger] is_path(edges, p) && p[0] == start && p.last() == j as usize;
                assert forall|x: int| reached.contains(x) implies #[trigger] closed_at(edges, visited@, x) by {
                    assert(!queue@.contains(x as usize));
                }
                lemma_closed_reach(edges, visited@, reached, start, p);
            }
        }
    }
}

} // verus!
