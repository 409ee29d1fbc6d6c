//! The dependency graph: petgraph's `Graph` holds the topology, and this module
//! states what the engine relies on of it.
//!
//! A graph is modelled by two names: the number of its nodes, and its edges as
//! `(source, target)` pairs in the order of petgraph's edge indices. Node `i`
//! is petgraph's `NodeIndex::new(i)`.
use petgraph::algo::{is_cyclic_directed, toposort};
use petgraph::graph::{EdgeIndex, NodeIndex};
use petgraph::{Directed, Direction, Graph};
use vstd::prelude::*;

verus! {

/// petgraph's adjacency-list graph, held opaquely.
#[verifier::external_type_specification]
#[verifier::external_body]
#[verifier::reject_recursive_types(N)]
#[verifier::reject_recursive_types(E)]
#[verifier::reject_recursive_types(Ty)]
#[verifier::reject_recursive_types(Ix)]
pub struct ExGraph<N, E, Ty, Ix>(Graph<N, E, Ty, Ix>);

/// petgraph's marker for directed graphs.
#[verifier::external_type_specification]
#[verifier::external_body]
pub struct ExDirected(Directed);

/// The edges of a graph, `(source, target)`, indexed by petgraph's edge index.
pub uninterp spec fn graph_edges(g: Graph<(), ()>) -> Seq<(usize, usize)>;

/// The number of nodes of a graph; its nodes are `0 .. graph_node_count(g)`.
pub uninterp spec fn graph_node_count(g: Graph<(), ()>) -> nat;

/// The direction in which the neighbors of a node are listed.
#[derive(Clone, Copy, Debug, PartialEq, Eq)]
pub enum EdgeDirection {
    /// Targets of the edges that leave the node.
    Outgoing,
    /// Sources of the edges that enter the node.
    Incoming,
}

/// There is an edge from `a` to `b`.
pub open spec fn edge_between(edges: Seq<(usize, usize)>, a: int, b: int) -> bool {
    exists|e: int| 0 <= e < edges.len() && edges[e].0 == a && edges[e].1 == b
}

/// Step `i` of `p` follows an edge.
pub open spec fn path_step(edges: Seq<(usize, usize)>, p: Seq<usize>, i: int) -> bool {
    edge_between(edges, p[i] as int, p[i + 1] as int)
}

/// `p` is a non-empty walk along edges.
pub open spec fn is_path(edges: Seq<(usize, usize)>, p: Seq<usize>) -> bool {
    &&& p.len() >= 1
    &&& forall|i: int| 0 <= i < p.len() - 1 ==> #[trigger] path_step(edges, p, i)
}

/// A walk along edges leads from `a` to `b` (every node reaches itself).
pub open spec fn reaches(edges: Seq<(usize, usize)>, a: usize, b: usize) -> bool {
    exists|p: Seq<usize>| #[trigger] is_path(edges, p) && p[0] == a && p.last() == b
}

/// Some walk of at least one edge returns to its first node.
pub open spec fn has_cycle(edges: Seq<(usize, usize)>) -> bool {
    exists|p: Seq<usize>| #[trigger] is_path(edges, p) && p.len() >= 2 && p[0] == p.last()
}

/// Node `v` lies on a cycle.
pub open spec fn on_cycle(edges: Seq<(usize, usize)>, v: usize) -> bool {
    exists|p: Seq<usize>| #[trigger] is_path(edges, p) && p.len() >= 2 && p[0] == v && p.last() == v
}

/// Every edge ends at a node below `n`.
pub open spec fn edges_within(edges: Seq<(usize, usize)>, n: nat) -> bool {
    forall|e: int| #![trigger edges[e]] 0 <= e < edges.len() ==> edges[e].0 < n && edges[e].1 < n
}

/// Targets of the edges leaving `a`, in edge-index order.
pub open spec fn out_targets(edges: Seq<(usize, usize)>, a: usize) -> Seq<usize>
    decreases edges.len(),
{
    if edges.len() == 0 {
        Seq::empty()
    } else {
        let rest = out_targets(edges.drop_last(), a);
        if edges.last().0 == a {
            rest.push(edges.last().1)
        } else {
            rest
        }
    }
}

/// Sources of the edges entering `b`, in edge-index order.
pub open spec fn in_sources(edges: Seq<(usize, usize)>, b: usize) -> Seq<usize>
    decreases edges.len(),
{
    if edges.len() == 0 {
        Seq::empty()
    } else {
        let rest = in_sources(edges.drop_last(), b);
        if edges.last().1 == b {
            rest.push(edges.last().0)
        } else {
            rest
        }
    }
}

/// The neighbors of `a` in direction `dir`, in edge-index order.
pub open spec fn neighbors_of(edges: Seq<(usize, usize)>, a: usize, dir: EdgeDirection) -> Seq<usize> {
    match dir {
        EdgeDirection::Outgoing => out_targets(edges, a),
        EdgeDirection::Incoming => in_sources(edges, a),
    }
}

/// Position `i` of `order` comes before position `j` whenever an edge leads
/// from the node at `i` to the node at `j`.
pub open spec fn respects_edge(order: Seq<usize>, edges: Seq<(usize, usize)>, e: int, i: int, j: int) -> bool {
    (order[i] == edges[e].0 && order[j] == edges[e].1) ==> i < j
}

/// `order` lists each node `0 .. n` exactly once, every node before its successors.
pub open spec fn is_topo_order(order: Seq<usize>, n: nat, edges: Seq<(usize, usize)>) -> bool {
    &&& order.len() == n
    &&& forall|i: int| 0 <= i < order.len() ==> #[trigger] order[i] < n
    &&& forall|i: int, j: int| 0 <= i < j < order.len() ==> order[i] != order[j]
    &&& forall|k: usize| k < n ==> #[trigger] order.contains(k)
    &&& forall|e: int, i: int, j: int|
        0 <= e < edges.len() && 0 <= i < order.len() && 0 <= j < order.len()
            ==> #[trigger] respects_edge(order, edges, e, i, j)
}

/// `dep` gives each node `0 .. n` its layer: 1 for a node without dependencies,
/// otherwise one more than the deepest of its dependencies.
pub open spec fn is_depth_map(edges: Seq<(usize, usize)>, n: nat, dep: Seq<usize>) -> bool {
    &&& dep.len() == n
    &&& forall|b: int| 0 <= b < n ==> 1 <= #[trigger] dep[b]
    &&& forall|e: int| 0 <= e < edges.len() ==> dep[#[trigger] edges[e].0 as int] < dep[edges[e].1 as int]
    &&& forall|b: int| 0 <= b < n ==> #[trigger] layer_from_deps(edges, dep, b)
}

/// Node `b` is in layer 1, or one layer below one of its dependencies.
pub open spec fn layer_from_deps(edges: Seq<(usize, usize)>, dep: Seq<usize>, b: int) -> bool {
    dep[b] == 1 || exists|e: int| 0 <= e < edges.len() && edges[e].1 == b && #[trigger] dep[edges[e].0 as int] + 1 == dep[b]
}

/// `Graph::new`: creates a graph with no nodes and no edges.
#[verifier::external_body]
pub(crate) fn graph_new() -> (g: Graph<(), ()>)
    ensures
        graph_node_count(g) == 0,
        graph_edges(g) == Seq::<(usize, usize)>::empty(),
{
    Graph::new()
}

/// `Graph::edge_count`: the number of edges.
#[verifier::external_body]
pub(crate) fn graph_edge_count(g: &Graph<(), ()>) -> (r: usize)
    ensures
        r == graph_edges(*g).len(),
{
    g.edge_count()
}

/// `Graph::add_node`: appends a node whose index is the former node count; the
/// edges are untouched. It panics when the new index would be `u32::MAX`.
#[verifier::external_body]
pub(crate) fn graph_add_node(g: &mut Graph<(), ()>) -> (i: usize)
    requires
        graph_node_count(*old(g)) < u32::MAX,
    ensures
        i == graph_node_count(*old(g)),
        graph_node_count(*final(g)) == graph_node_count(*old(g)) + 1,
        graph_edges(*final(g)) == graph_edges(*old(g)),
{
    g.add_node(()).index()
}

/// `Graph::add_edge`: appends the edge `a -> b` with the next edge index (parallel
/// edges are kept). It panics when a node does not exist or the new edge index
/// would be `u32::MAX`.
#[verifier::external_body]
pub(crate) fn graph_add_edge(g: &mut Graph<(), ()>, a: usize, b: usize) -> (e: usize)
    requires
        a < graph_node_count(*old(g)),
        b < graph_node_count(*old(g)),
        graph_edges(*old(g)).len() < u32::MAX,
    ensures
        e == graph_edges(*old(g)).len(),
        graph_edges(*final(g)) == graph_edges(*old(g)).push((a, b)),
        graph_node_count(*final(g)) == graph_node_count(*old(g)),
{
    g.add_edge(NodeIndex::new(a), NodeIndex::new(b), ()).index()
}

/// `Graph::find_edge`: the index of some edge `a -> b`, or `None` when there is none.
/// Which of several parallel edges is found is left unsaid.
#[verifier::external_body]
pub(crate) fn graph_find_edge(g: &Graph<(), ()>, a: usize, b: usize) -> (r: Option<usize>)
    requires
        a < graph_node_count(*g),
        b < graph_node_count(*g),
    ensures
        r matches Some(e) ==> e < graph_edges(*g).len() && graph_edges(*g)[e as int] == (a, b),
        r is None ==> !edge_between(graph_edges(*g), a as int, b as int),
{
    g.find_edge(NodeIndex::new(a), NodeIndex::new(b)).map(|e| e.index())
}

/// `Graph::remove_edge`: removes edge `e`; the last edge takes over index `e`.
#[verifier::external_body]
pub(crate) fn graph_remove_edge(g: &mut Graph<(), ()>, e: usize)
    requires
        e < graph_edges(*old(g)).len(),
    ensures
        graph_edges(*final(g)) == graph_edges(*old(g)).update(
            e as int,
            graph_edges(*old(g)).last(),
        ).drop_last(),
        graph_node_count(*final(g)) == graph_node_count(*old(g)),
{
    g.remove_edge(EdgeIndex::new(e));
}

/// `Graph::neighbors_directed`: the neighbors of `a` in direction `dir`, each once
/// per edge. petgraph lists them in reverse order of edge addition; that order is
/// not stated here, only which neighbors come out and how often.
#[verifier::external_body]
pub(crate) fn graph_neighbors(g: &Graph<(), ()>, a: usize, dir: EdgeDirection) -> (r: Vec<usize>)
    requires
        a < graph_node_count(*g),
    ensures
        r@.to_multiset() == neighbors_of(graph_edges(*g), a, dir).to_multiset(),
{
    let d = match dir {
        EdgeDirection::Outgoing => Direction::Outgoing,
        EdgeDirection::Incoming => Direction::Incoming,
    };
    g.neighbors_directed(NodeIndex::new(a), d).map(|n| n.index()).collect()
}

/// `petgraph::algo::is_cyclic_directed`: whether the graph holds a cycle
/// (a self loop counts).
#[verifier::external_body]
pub(crate) fn graph_is_cyclic(g: &Graph<(), ()>) -> (r: bool)
    ensures
        r == has_cycle(graph_edges(*g)),
{
    is_cyclic_directed(g)
}

/// `petgraph::algo::toposort`: on an acyclic graph, every node once, each before
/// its successors (which of the valid orders is left unsaid); on a cyclic graph,
/// an error holding a node of some cycle.
#[verifier::external_body]
pub(crate) fn graph_toposort(g: &Graph<(), ()>) -> (r: Result<Vec<usize>, usize>)
    ensures
        r is Ok <==> !has_cycle(graph_edges(*g)),
        r matches Ok(order) ==> is_topo_order(order@, graph_node_count(*g), graph_edges(*g)),
        r matches Err(v) ==> on_cycle(graph_edges(*g), v),
{
    match toposort(g, None) {
        Ok(order) => Ok(order.into_iter().map(|n| n.index()).collect()),
        Err(cycle) => Err(cycle.node_id().index()),
    }
}

/// The targets listed for `a` are exactly the nodes with an edge from `a`.
pub proof fn lemma_out_targets_contains(edges: Seq<(usize, usize)>, a: usize, w: usize)
    ensures
        out_targets(edges, a).contains(w) <==> edge_between(edges, a as int, w as int),
    decreases edges.len(),
{
    if edges.len() > 0 {
        let rest = edges.drop_last();
        let last = edges.last();
        lemma_out_targets_contains(rest, a, w);
        assert(forall|e: int| 0 <= e < rest.len() ==> rest[e] == edges[e]);
        assert(edges[edges.len() - 1] == last);
        let full = out_targets(edges, a);
        let part = out_targets(rest, a);
        if last.0 == a {
            assert(full == part.push(last.1));
            if last.1 == w {
                assert(full[full.len() - 1] == w);
            }
            if part.contains(w) {
                let k = choose|k: int| 0 <= k < part.len() && part[k] == w;
                assert(full[k] == w);
            }
            if full.contains(w) && last.1 != w {
                let k = choose|k: int| 0 <= k < full.len() && full[k] == w;
                assert(k < part.len());
                assert(part[k] == w);
            }
        } else {
            assert(full == part);
        }
        if edge_between(edges, a as int, w as int) && !edge_between(rest, a as int, w as int) {
            let e = choose|e: int| 0 <= e < edges.len() && edges[e].0 == a && edges[e].1 == w;
            assert(e == edges.len() - 1);
        }
        if edge_between(rest, a as int, w as int) {
            let e = choose|e: int| 0 <= e < rest.len() && rest[e].0 == a && rest[e].1 == w;
            assert(edges[e] == rest[e]);
        }
    }
}

/// The sources listed for `b` are exactly the nodes with an edge into `b`.
pub proof fn lemma_in_sources_contains(edges: Seq<(usize, usize)>, b: usize, d: usize)
    ensures
        in_sources(edges, b).contains(d) <==> edge_between(edges, d as int, b as int),
    decreases edges.len(),
{
    if edges.len() > 0 {
        let rest = edges.drop_last();
        let last = edges.last();
        lemma_in_sources_contains(rest, b, d);
        assert(forall|e: int| 0 <= e < rest.len() ==> rest[e] == edges[e]);
        assert(edges[edges.len() - 1] == last);
        let full = in_sources(edges, b);
        let part = in_sources(rest, b);
        if last.1 == b {
            assert(full == part.push(last.0));
            if last.0 == d {
                assert(full[full.len() - 1] == d);
            }
            if part.contains(d) {
                let k = choose|k: int| 0 <= k < part.len() && part[k] == d;
                assert(full[k] == d);
            }
            if full.contains(d) && last.0 != d {
                let k = choose|k: int| 0 <= k < full.len() && full[k] == d;
                assert(k < part.len());
                assert(part[k] == d);
            }
        } else {
            assert(full == part);
        }
        if edge_between(edges, d as int, b as int) && !edge_between(rest, d as int, b as int) {
            let e = choose|e: int| 0 <= e < edges.len() && edges[e].0 == d && edges[e].1 == b;
            assert(e == edges.len() - 1);
        }
        if edge_between(rest, d as int, b as int) {
            let e = choose|e: int| 0 <= e < rest.len() && rest[e].0 == d && rest[e].1 == b;
            assert(edges[e] == rest[e]);
        }
    }
}

/// Appending an edge `a -> b` extends the source list of `b` by `a` and leaves the
/// other source lists as they were.
pub proof fn lemma_in_sources_push(edges: Seq<(usize, usize)>, a: usize, b: usize, m: usize)
    ensures
        in_sources(edges.push((a, b)), m) == if m == b {
            in_sources(edges, m).push(a)
        } else {
            in_sources(edges, m)
        },
{
    assert(edges.push((a, b)).drop_last() == edges);
}

/// Walks compose: a walk from `a` to `b` followed by one from `b` to `c`.
pub proof fn lemma_reaches_trans(edges: Seq<(usize, usize)>, a: usize, b: usize, c: usize)
    requires
        reaches(edges, a, b),
        reaches(edges, b, c),
    ensures
        reaches(edges, a, c),
{
    let p = choose|p: Seq<usize>| #[trigger] is_path(edges, p) && p[0] == a && p.last() == b;
    let q = choose|q: Seq<usize>| #[trigger] is_path(edges, q) && q[0] == b && q.last() == c;
    let r = p + q.drop_first();
    assert forall|i: int| 0 <= i < r.len() - 1 implies #[trigger] path_step(edges, r, i) by {
        if i < p.len() - 1 {
            assert(path_step(edges, p, i));
        } else {
            let j = i - (p.len() - 1);
            assert(path_step(edges, q, j));
            if i == p.len() - 1 {
                assert(r[i] == b);
                assert(q[0] == b);
            }
        }
    }
    if q.len() == 1 {
        assert(r =~= p);
    }
    assert(is_path(edges, r));
}

/// An edge from `a` to `b` is a walk from `a` to `b`.
pub proof fn lemma_edge_reaches(edges: Seq<(usize, usize)>, a: usize, b: usize)
    requires
        edge_between(edges, a as int, b as int),
    ensures
        reaches(edges, a, b),
{
    let p = seq![a, b];
    assert(path_step(edges, p, 0));
    assert(is_path(edges, p));
}

/// Every walk over `edges` is a walk over `edges` with one more edge.
proof fn lemma_reaches_push(edges: Seq<(usize, usize)>, x: (usize, usize), a: usize, b: usize)
    requires
        reaches(edges, a, b),
    ensures
        reaches(edges.push(x), a, b),
{
    let big = edges.push(x);
    let p = choose|p: Seq<usize>| #[trigger] is_path(edges, p) && p[0] == a && p.last() == b;
    assert forall|i: int| 0 <= i < p.len() - 1 implies #[trigger] path_step(big, p, i) by {
        assert(path_step(edges, p, i));
        let e = choose|e: int| 0 <= e < edges.len() && edges[e].0 == p[i] && edges[e].1 == p[i + 1];
        assert(big[e] == edges[e]);
    }
    assert(is_path(big, p));
}

/// A walk over `edges` plus the edge `d -> n` either stays within `edges`, or
/// reaches `d` within `edges` and ends at a node that `n` reaches within `edges`.
proof fn lemma_walk_with_edge(edges: Seq<(usize, usize)>, d: usize, n: usize, w: Seq<usize>)
    requires
        is_path(edges.push((d, n)), w),
    ensures
        reaches(edges, w[0], w.last()) || (reaches(edges, w[0], d) && reaches(edges, n, w.last())),
    decreases w.len(),
{
    let big = edges.push((d, n));
    if w.len() == 1 {
        let p = seq![w[0]];
        assert(is_path(edges, p));
    } else {
        let v = w.drop_last();
        assert forall|i: int| 0 <= i < v.len() - 1 implies #[trigger] path_step(big, v, i) by {
            assert(path_step(big, w, i));
        }
        lemma_walk_with_edge(edges, d, n, v);
        let y = v.last();
        let z = w.last();
        assert(path_step(big, w, w.len() - 2));
        let e = choose|e: int| 0 <= e < big.len() && big[e].0 == y && big[e].1 == z;
        if e < edges.len() {
            assert(big[e] == edges[e]);
            lemma_edge_reaches(edges, y, z);
            if reaches(edges, w[0], y) {
                lemma_reaches_trans(edges, w[0], y, z);
            } else {
                lemma_reaches_trans(edges, n, y, z);
            }
        } else {
            assert(y == d && z == n);
            assert(reaches(edges, w[0], d));
            let p = seq![n];
            assert(is_path(edges, p));
        }
    }
}

/// With `edges` acyclic, adding the edge `d -> n` closes a cycle exactly when `n`
/// already reaches `d`: the dependency that `add_dep` refuses is one whose
/// dependent is already upstream of it.
pub proof fn law_new_edge_cycle_iff_reaches(edges: Seq<(usize, usize)>, d: usize, n: usize)
    requires
        !has_cycle(edges),
    ensures
        has_cycle(edges.push((d, n))) <==> reaches(edges, n, d),
{
    let big = edges.push((d, n));
    if reaches(edges, n, d) {
        lemma_reaches_push(edges, (d, n), n, d);
        assert(edge_between(big, d as int, n as int)) by {
            assert(big[edges.len() as int] == (d, n));
        }
        lemma_edge_reaches(big, d, n);
        // n reaches d, and d -> n closes the walk.
        let p = choose|p: Seq<usize>| #[trigger] is_path(big, p) && p[0] == n && p.last() == d;
        let c = p.push(n);
        assert forall|i: int| 0 <= i < c.len() - 1 implies #[trigger] path_step(big, c, i) by {
            if i < p.len() - 1 {
                assert(path_step(big, p, i));
            }
        }
        assert(is_path(big, c));
    }
    if has_cycle(big) {
        let p = choose|p: Seq<usize>| #[trigger] is_path(big, p) && p.len() >= 2 && p[0] == p.last();
        let c = p[0];
        let rest = p.drop_first();
        assert forall|i: int| 0 <= i < rest.len() - 1 implies #[trigger] path_step(big, rest, i) by {
            assert(path_step(big, p, i + 1));
        }
        lemma_walk_with_edge(edges, d, n, rest);
        assert(rest[0] == p[1]);
        assert(rest.last() == c);
        assert(path_step(big, p, 0));
        let e = choose|e: int| 0 <= e < big.len() && big[e].0 == c && big[e].1 == p[1];
        if e < edges.len() {
            assert(big[e] == edges[e]);
            lemma_edge_reaches(edges, c, p[1]);
            if reaches(edges, p[1], c) {
                // An old edge and an old walk back would be a cycle of `edges`.
                lemma_reaches_trans(edges, c, p[1], c);
                let q = choose|q: Seq<usize>| #[trigger] is_path(edges, q) && q[0] == p[1] && q.last() == c;
                let cyc = seq![c] + q;
                assert forall|i: int| 0 <= i < cyc.len() - 1 implies #[trigger] path_step(edges, cyc, i) by {
                    if i == 0 {
                        assert(edges[e].0 == cyc[0] && edges[e].1 == cyc[1]);
                    } else {
                        assert(path_step(edges, q, i - 1));
                    }
                }
                assert(is_path(edges, cyc));
                assert(false);
            } else {
                lemma_reaches_trans(edges, n, c, p[1]);
                lemma_reaches_trans(edges, n, p[1], d);
            }
        } else {
            assert(c == d && p[1] == n);
        }
    }
}

/// In a topological order, the first node of a walk of at least one edge comes
/// before its last node.
pub proof fn lemma_topo_path(order: Seq<usize>, n: nat, edges: Seq<(usize, usize)>, p: Seq<usize>, i: int, j: int)
    requires
        is_topo_order(order, n, edges),
        edges_within(edges, n),
        is_path(edges, p),
        p.len() >= 2,
        0 <= i < order.len(),
        0 <= j < order.len(),
        order[i] == p[0],
        order[j] == p.last(),
    ensures
        i < j,
    decreases p.len(),
{
    let q = p.drop_last();
    let a = p[p.len() - 2];
    assert(path_step(edges, p, p.len() - 2));
    let e = choose|e: int| 0 <= e < edges.len() && edges[e].0 == a && edges[e].1 == p.last();
    assert(edges[e].0 < n);
    assert(order.contains(a));
    let m = choose|m: int| 0 <= m < order.len() && order[m] == a;
    assert(respects_edge(order, edges, e, m, j));
    if q.len() >= 2 {
        assert forall|k: int| 0 <= k < q.len() - 1 implies #[trigger] path_step(edges, q, k) by {
            assert(path_step(edges, p, k));
        }
        lemma_topo_path(order, n, edges, q, i, m);
    } else {
        // `a` is the first node, so `m` is `i`: a topological order has no repeats.
        assert(order[m] == order[i]);
    }
}

/// Along a walk of at least one edge, layers strictly increase.
pub proof fn lemma_depth_path(edges: Seq<(usize, usize)>, n: nat, dep: Seq<usize>, p: Seq<usize>)
    requires
        is_depth_map(edges, n, dep),
        is_path(edges, p),
        p.len() >= 2,
    ensures
        dep[p[0] as int] < dep[p.last() as int],
    decreases p.len(),
{
    let q = p.drop_last();
    let a = p[p.len() - 2];
    assert(path_step(edges, p, p.len() - 2));
    let e = choose|e: int| 0 <= e < edges.len() && edges[e].0 == a && edges[e].1 == p.last();
    assert(dep[edges[e].0 as int] < dep[edges[e].1 as int]);
    if q.len() >= 2 {
        assert forall|k: int| 0 <= k < q.len() - 1 implies #[trigger] path_step(edges, q, k) by {
            assert(path_step(edges, p, k));
        }
        lemma_depth_path(edges, n, dep, q);
    }
}

/// Two layer maps of one graph agree on node `b`.
proof fn lemma_depth_map_agree(edges: Seq<(usize, usize)>, n: nat, d1: Seq<usize>, d2: Seq<usize>, b: int)
    requires
        edges_within(edges, n),
        is_depth_map(edges, n, d1),
        is_depth_map(edges, n, d2),
        0 <= b < n,
    ensures
        d1[b] == d2[b],
    decreases d1[b],
{
    assert(layer_from_deps(edges, d1, b));
    assert(layer_from_deps(edges, d2, b));
    if d1[b] != 1 {
        let e1 = choose|e: int| 0 <= e < edges.len() && edges[e].1 == b && #[trigger] d1[edges[e].0 as int] + 1 == d1[b];
        assert(edges[e1].0 < n);
        lemma_depth_map_agree(edges, n, d1, d2, edges[e1].0 as int);
        assert(d2[edges[e1].0 as int] < d2[edges[e1].1 as int]);
    }
    if d2[b] != 1 {
        let e2 = choose|e: int| 0 <= e < edges.len() && edges[e].1 == b && #[trigger] d2[edges[e].0 as int] + 1 == d2[b];
        assert(edges[e2].0 < n);
        assert(d1[edges[e2].0 as int] < d1[edges[e2].1 as int]);
        assert(1 <= d1[edges[e2].0 as int]);
        lemma_depth_map_agree(edges, n, d1, d2, edges[e2].0 as int);
    }
}

/// A graph has at most one layer map: a node's layer is fixed by the graph alone
/// (1 without dependencies, else one more than its deepest dependency).
pub proof fn law_depth_map_unique(edges: Seq<(usize, usize)>, n: nat, d1: Seq<usize>, d2: Seq<usize>)
    requires
        edges_within(edges, n),
        is_depth_map(edges, n, d1),
        is_depth_map(edges, n, d2),
    ensures
        d1 == d2,
{
    assert forall|b: int| 0 <= b < n implies #[trigger] d1[b] == d2[b] by {
        lemma_depth_map_agree(edges, n, d1, d2, b);
    }
    assert(d1 =~= d2);
}

} // verus!
